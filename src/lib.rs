//! Derives tuple conversions for records whose fields have pairwise distinct
//! types.
//!
//! The library works on a normalized description of a record: each field has a
//! name and an integer type key, and two fields have the same type exactly when
//! their keys are equal. From such a record it checks that the types are
//! unique, enumerates every ordering of the fields with Heap's algorithm, and
//! produces one conversion specification per ordering.
pub mod permute;
pub mod record;
pub mod validate;
pub mod synthesize;
