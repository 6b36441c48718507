//! Conversion specifications for one field ordering, and for all of them.
use vstd::prelude::*;
use crate::permute::{factorial, heap_order, heap_permutations, identity, is_permutation, orderings_view};
use crate::record::{ConversionSpec, DuplicateFieldType, Field, RecordDescriptor, conversion_of, types_unique};
use crate::validate::{duplicate_report, report_view, validate};

verus! {

/// The views of a list of conversions.
pub open spec fn conversions_view(v: Seq<ConversionSpec>) -> Seq<(Seq<u64>, Seq<Seq<char>>)> {
    v.map_values(|s: ConversionSpec| s@)
}

/// `order` indexes into a record with `n` fields.
pub open spec fn order_in_bounds(order: Seq<usize>, n: nat) -> bool {
    forall|i: int| 0 <= i < order.len() ==> #[trigger] order[i] < n
}

/// What the whole pass yields for a record with fields `fields`: the
/// violations if two fields share a type, else one conversion per ordering
/// that Heap's algorithm visits, in visiting order.
pub open spec fn pass_outcome(fields: Seq<Field>) -> Result<
    Seq<(Seq<u64>, Seq<Seq<char>>)>,
    Seq<(usize, Seq<char>)>,
> {
    if types_unique(fields) {
        Ok(heap_order(fields.len()).map_values(|o: Seq<usize>| conversion_of(fields, o)))
    } else {
        Err(duplicate_report(fields))
    }
}

/// The view of a result of the whole pass.
pub open spec fn pass_view(r: Result<Vec<ConversionSpec>, Vec<DuplicateFieldType>>) -> Result<
    Seq<(Seq<u64>, Seq<Seq<char>>)>,
    Seq<(usize, Seq<char>)>,
> {
    match r {
        Ok(v) => Ok(conversions_view(v@)),
        Err(e) => Err(report_view(e@)),
    }
}

/// The conversion for the record's fields taken in the order `order`: each
/// tuple position gets the type of the field it fills and binds that field's
/// name.
pub fn synthesize(record: &RecordDescriptor, order: &Vec<usize>) -> (r: ConversionSpec)
    requires
        order_in_bounds(order@, record.fields@.len()),
    ensures
        r@ == conversion_of(record.fields@, order@),
        r.tuple_types@.len() == order@.len(),
        r.field_bindings@.len() == order@.len(),
{
    let ghost fields = record.fields@;
    let mut tuple_types: Vec<u64> = Vec::with_capacity(order.len());
    let mut field_bindings: Vec<String> = Vec::with_capacity(order.len());
    let mut i: usize = 0;
    while i < order.len()
        invariant
            i <= order.len(),
            fields == record.fields@,
            order_in_bounds(order@, fields.len()),
            tuple_types@ == conversion_of(fields, order@.subrange(0, i as int)).0,
            field_bindings@.map_values(|s: String| s@) == conversion_of(
                fields,
                order@.subrange(0, i as int),
            ).1,
        decreases order.len() - i,
    {
        let field = &record.fields[order[i]];
        let ghost before = field_bindings@;
        tuple_types.push(field.type_key);
        let name = field.name.clone();
        field_bindings.push(name);
        i = i + 1;
        let ghost now = conversion_of(fields, order@.subrange(0, i as int));
        assert(tuple_types@ =~= now.0);
        assert(field_bindings@.map_values(|s: String| s@) =~= before.map_values(|s: String| s@).push(
            fields[order@[i - 1] as int].name@,
        ));
        assert(field_bindings@.map_values(|s: String| s@) =~= now.1);
    }
    assert(order@.subrange(0, i as int) =~= order@);
    ConversionSpec { tuple_types, field_bindings }
}

/// The single conversion that keeps the declared field order.
pub fn declared_order_conversion(record: &RecordDescriptor) -> (r: ConversionSpec)
    ensures
        r@ == conversion_of(record.fields@, identity(record.fields@.len())),
{
    let n = record.fields.len();
    let mut order: Vec<usize> = Vec::with_capacity(n);
    let mut i: usize = 0;
    while i < n
        invariant
            i <= n,
            n == record.fields@.len(),
            order@ == identity(i as nat),
        decreases n - i,
    {
        order.push(i);
        i = i + 1;
        assert(order@ =~= identity(i as nat));
    }
    synthesize(record, &order)
}

/// The whole pass: validates the record, and when every field has a type of
/// its own, builds one conversion per ordering of the fields. The first
/// conversion keeps the declared order, and there are `n!` of them for `n`
/// fields.
pub fn derive_conversions(record: &RecordDescriptor) -> (r: Result<Vec<ConversionSpec>, Vec<DuplicateFieldType>>)
    ensures
        pass_view(r) == pass_outcome(record.fields@),
        r is Ok <==> types_unique(record.fields@),
        r matches Ok(v) ==> v@.len() == factorial(record.fields@.len()) && v@[0]@ == conversion_of(
            record.fields@,
            identity(record.fields@.len()),
        ),
{
    match validate(&record.fields) {
        Err(e) => Err(e),
        Ok(()) => {
            let n = record.fields.len();
            let orders = heap_permutations(n);
            proof {
                crate::permute::lemma_heap_order(n as nat);
            }
            let ghost target = heap_order(n as nat).map_values(
                |o: Seq<usize>| conversion_of(record.fields@, o),
            );
            assert(orders@.len() == orderings_view(orders@).len());
            let mut specs: Vec<ConversionSpec> = Vec::with_capacity(orders.len());
            let mut k: usize = 0;
            while k < orders.len()
                invariant
                    k <= orders@.len(),
                    n == record.fields@.len(),
                    orderings_view(orders@) == heap_order(n as nat),
                    forall|m: int| 0 <= m < orders@.len() ==> is_permutation(#[trigger] orders@[m]@, n as nat),
                    target == heap_order(n as nat).map_values(
                        |o: Seq<usize>| conversion_of(record.fields@, o),
                    ),
                    target.len() == orders@.len(),
                    conversions_view(specs@) == target.subrange(0, k as int),
                decreases orders.len() - k,
            {
                assert(is_permutation(orders@[k as int]@, n as nat));
                assert(orders@[k as int]@ == heap_order(n as nat)[k as int]);
                let spec = synthesize(record, &orders[k]);
                assert(spec@ == target[k as int]);
                let ghost before = specs@;
                specs.push(spec);
                assert(conversions_view(specs@) =~= conversions_view(before).push(spec@));
                k = k + 1;
                assert(conversions_view(specs@) =~= target.subrange(0, k as int));
            }
            assert(target.subrange(0, k as int) =~= target);
            assert(specs@[0]@ == conversions_view(specs@)[0]);
            Ok(specs)
        }
    }
}

/// Running the pass twice on the same record gives equal results: the
/// outcome depends on the fields alone.
pub proof fn lemma_pass_deterministic(
    record: RecordDescriptor,
    a: Result<Vec<ConversionSpec>, Vec<DuplicateFieldType>>,
    b: Result<Vec<ConversionSpec>, Vec<DuplicateFieldType>>,
)
    requires
        pass_view(a) == pass_outcome(record.fields@),
        pass_view(b) == pass_outcome(record.fields@),
    ensures
        pass_view(a) == pass_view(b),
{
}

} // verus!
