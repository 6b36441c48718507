//! The check that every field of a record has a type of its own.
use std::collections::HashSet;
use vstd::prelude::*;
use crate::record::{DuplicateFieldType, Field, type_keys, types_unique};

verus! {

broadcast use vstd::std_specs::hash::group_hash_axioms;

/// The positions among the first `k` fields whose type occurs at an earlier
/// position, in increasing order.
pub open spec fn duplicate_positions(fields: Seq<Field>, k: nat) -> Seq<usize>
    decreases k,
{
    if k == 0 {
        Seq::empty()
    } else {
        let i = k - 1;
        let earlier = duplicate_positions(fields, i as nat);
        if type_keys(fields).subrange(0, i).contains(fields[i].type_key) {
            earlier.push(i as usize)
        } else {
            earlier
        }
    }
}

/// The violations reported for `fields`: one per duplicate position, with that
/// field's name.
pub open spec fn duplicate_report(fields: Seq<Field>) -> Seq<(usize, Seq<char>)> {
    duplicate_positions(fields, fields.len()).map_values(|i: usize| (i, fields[i as int].name@))
}

/// The views of a list of violations.
pub open spec fn report_view(e: Seq<DuplicateFieldType>) -> Seq<(usize, Seq<char>)> {
    e.map_values(|d: DuplicateFieldType| d@)
}

/// Among the first `k` fields there is no duplicate position exactly when
/// their types are pairwise distinct.
pub proof fn lemma_no_duplicates_iff_unique(fields: Seq<Field>, k: nat)
    requires
        k <= fields.len(),
    ensures
        duplicate_positions(fields, k).len() == 0 <==> types_unique(fields.subrange(0, k as int)),
    decreases k,
{
    if k > 0 {
        let i = k - 1;
        lemma_no_duplicates_iff_unique(fields, i as nat);
        lemma_duplicate_positions_grow(fields, i as nat);
        let keys = type_keys(fields).subrange(0, i);
        let pre = fields.subrange(0, i);
        let all = fields.subrange(0, k as int);
        if keys.contains(fields[i].type_key) {
            let j = choose|j: int| 0 <= j < keys.len() && keys[j] == fields[i].type_key;
            assert(all[j].type_key == all[i].type_key);
        } else {
            if types_unique(pre) {
                assert forall|a: int, b: int| 0 <= a < b < all.len() implies all[a].type_key
                    != all[b].type_key by {
                    if b == i {
                        assert(keys[a] == all[a].type_key);
                    } else {
                        assert(pre[a] == all[a] && pre[b] == all[b]);
                    }
                }
            } else {
                let (a, b) = choose|a: int, b: int|
                    0 <= a < b < pre.len() && pre[a].type_key == pre[b].type_key;
                assert(all[a] == pre[a] && all[b] == pre[b]);
            }
        }
    }
}

proof fn lemma_duplicate_positions_grow(fields: Seq<Field>, k: nat)
    ensures
        duplicate_positions(fields, k).len() <= k,
        forall|m: int|
            0 <= m < duplicate_positions(fields, k).len() ==> #[trigger] duplicate_positions(
                fields,
                k,
            )[m] < k,
    decreases k,
{
    if k > 0 {
        lemma_duplicate_positions_grow(fields, (k - 1) as nat);
    }
}

/// Checks that no two fields share a type. Every field whose type occurred
/// at an earlier position is reported, in declaration order, not only the
/// first.
pub fn validate(fields: &Vec<Field>) -> (r: Result<(), Vec<DuplicateFieldType>>)
    ensures
        r is Ok <==> types_unique(fields@),
        r matches Err(e) ==> report_view(e@) == duplicate_report(fields@) && e@.len() > 0,
{
    let mut seen: HashSet<u64> = HashSet::new();
    let mut errors: Vec<DuplicateFieldType> = Vec::new();
    let mut i: usize = 0;
    while i < fields.len()
        invariant
            i <= fields.len(),
            forall|x: u64| seen@.contains(x) <==> type_keys(fields@).subrange(0, i as int).contains(x),
            report_view(errors@) == duplicate_positions(fields@, i as nat).map_values(
                |p: usize| (p, fields@[p as int].name@),
            ),
        decreases fields.len() - i,
    {
        let ghost keys = type_keys(fields@);
        let key = fields[i].type_key;
        let fresh = seen.insert(key);
        proof {
            assert(keys.subrange(0, i + 1) =~= keys.subrange(0, i as int).push(key));
            assert forall|x: u64| seen@.contains(x) <==> keys.subrange(0, i + 1).contains(x) by {
                if x == key {
                    assert(keys.subrange(0, i + 1)[i as int] == key);
                } else if keys.subrange(0, i + 1).contains(x) {
                    let j = choose|j: int| 0 <= j < i + 1 && #[trigger] keys.subrange(0, i + 1)[j] == x;
                    assert(keys.subrange(0, i as int)[j] == x);
                }
            }
        }
        if !fresh {
            assert(keys.subrange(0, i as int).contains(key));
            assert(duplicate_positions(fields@, (i + 1) as nat) == duplicate_positions(
                fields@,
                i as nat,
            ).push(i));
            let ghost before = errors@;
            let name = fields[i].name.clone();
            errors.push(DuplicateFieldType { index: i, name });
            assert(report_view(errors@) =~= report_view(before).push((i, fields@[i as int].name@)));
            assert(report_view(errors@) =~= duplicate_positions(fields@, (i + 1) as nat).map_values(
                |p: usize| (p, fields@[p as int].name@),
            ));
        }
        i = i + 1;
    }
    proof {
        assert(fields@.subrange(0, fields@.len() as int) =~= fields@);
        lemma_no_duplicates_iff_unique(fields@, fields@.len());
    }
    if errors.len() == 0 {
        Ok(())
    } else {
        Err(errors)
    }
}

} // verus!
