use from_tuple::permute::heap_permutations;
use from_tuple::record::{ConversionSpec, DuplicateFieldType, Field, RecordDescriptor};
use from_tuple::synthesize::{declared_order_conversion, derive_conversions, synthesize};
use from_tuple::validate::validate;
use std::collections::HashSet;

fn field(name: &str, type_key: u64) -> Field {
    Field { name: name.to_string(), type_key }
}

fn record(fields: Vec<Field>) -> RecordDescriptor {
    RecordDescriptor { name: "Hello".to_string(), fields }
}

fn factorial(n: usize) -> usize {
    (1..=n).product()
}

fn all_orderings(n: usize) -> HashSet<Vec<usize>> {
    let mut result = HashSet::new();
    if n == 0 {
        result.insert(Vec::new());
        return result;
    }
    for shorter in all_orderings(n - 1) {
        for pos in 0..n {
            let mut p = shorter.clone();
            p.insert(pos, n - 1);
            result.insert(p);
        }
    }
    result
}

#[test]
fn visits_factorial_many_with_identity_first() {
    for n in 0..8usize {
        let orders = heap_permutations(n);
        assert_eq!(orders.len(), factorial(n));
        assert_eq!(orders[0], (0..n).collect::<Vec<usize>>());
    }
}

#[test]
fn visits_every_ordering_once() {
    for n in 2..7usize {
        let orders = heap_permutations(n);
        let distinct: HashSet<Vec<usize>> = orders.iter().cloned().collect();
        assert_eq!(distinct.len(), factorial(n));
        assert_eq!(distinct, all_orderings(n));
    }
}

#[test]
fn small_orderings_follow_heap() {
    assert_eq!(heap_permutations(1), vec![vec![0]]);
    assert_eq!(heap_permutations(2), vec![vec![0, 1], vec![1, 0]]);
    assert_eq!(
        heap_permutations(3),
        vec![
            vec![0, 1, 2],
            vec![1, 0, 2],
            vec![2, 0, 1],
            vec![0, 2, 1],
            vec![1, 2, 0],
            vec![2, 1, 0],
        ]
    );
}

#[test]
fn validator_reports_repeated_type() {
    let fields = vec![field("first", 1), field("index", 2), field("second", 1)];
    assert_eq!(
        validate(&fields),
        Err(vec![DuplicateFieldType { index: 2, name: "second".to_string() }])
    );
}

#[test]
fn validator_accepts_distinct_types() {
    let fields = vec![field("a", 1), field("b", 2), field("c", 3)];
    assert_eq!(validate(&fields), Ok(()));
    assert_eq!(validate(&Vec::new()), Ok(()));
}

#[test]
fn validator_reports_every_repeat() {
    let fields = vec![
        field("a", 7),
        field("b", 7),
        field("c", 8),
        field("d", 7),
        field("e", 8),
    ];
    let errors = validate(&fields).unwrap_err();
    let indices: Vec<usize> = errors.iter().map(|e| e.index).collect();
    let names: Vec<&str> = errors.iter().map(|e| e.name.as_str()).collect();
    assert_eq!(indices, vec![1, 3, 4]);
    assert_eq!(names, vec!["b", "d", "e"]);
}

#[test]
fn synthesizer_follows_ordering() {
    let rec = record(vec![field("x", 10), field("y", 20)]);
    let forward = synthesize(&rec, &vec![0, 1]);
    assert_eq!(forward.tuple_types, vec![10, 20]);
    assert_eq!(forward.field_bindings, vec!["x".to_string(), "y".to_string()]);
    let reversed = synthesize(&rec, &vec![1, 0]);
    assert_eq!(reversed.tuple_types, vec![20, 10]);
    assert_eq!(reversed.field_bindings, vec!["y".to_string(), "x".to_string()]);
}

#[test]
fn declared_order_keeps_fields() {
    let rec = record(vec![field("offset", 3), field("len", 3)]);
    let spec = declared_order_conversion(&rec);
    assert_eq!(spec.tuple_types, vec![3, 3]);
    assert_eq!(spec.field_bindings, vec!["offset".to_string(), "len".to_string()]);
}

const STRING: u64 = 100;
const INT32: u64 = 200;
const UINT: u64 = 300;

enum Value {
    Text(String),
    Int(i32),
    UInt(usize),
}

#[test]
fn three_fields_give_six_conversions() {
    let rec = record(vec![field("message", STRING), field("time", INT32), field("counter", UINT)]);
    let specs = derive_conversions(&rec).unwrap();
    assert_eq!(specs.len(), 6);
    assert_eq!(specs[0].tuple_types, vec![STRING, INT32, UINT]);
    let shapes: HashSet<Vec<u64>> = specs.iter().map(|s| s.tuple_types.clone()).collect();
    assert_eq!(shapes.len(), 6);

    let spec: &ConversionSpec = specs
        .iter()
        .find(|s| s.tuple_types == vec![STRING, UINT, INT32])
        .unwrap();
    let tuple = vec![Value::Text("world".to_string()), Value::UInt(42), Value::Int(-1)];
    let mut message = None;
    let mut time = None;
    let mut counter = None;
    for (binding, value) in spec.field_bindings.iter().zip(tuple) {
        match (binding.as_str(), value) {
            ("message", Value::Text(s)) => message = Some(s),
            ("time", Value::Int(t)) => time = Some(t),
            ("counter", Value::UInt(c)) => counter = Some(c),
            _ => panic!("tuple slot bound to a field of another type"),
        }
    }
    assert_eq!(message.as_deref(), Some("world"));
    assert_eq!(counter, Some(42));
    assert_eq!(time, Some(-1));
}

#[test]
fn empty_record_gives_one_conversion() {
    let specs = derive_conversions(&record(Vec::new())).unwrap();
    assert_eq!(specs.len(), 1);
    assert!(specs[0].tuple_types.is_empty());
    assert!(specs[0].field_bindings.is_empty());
}

#[test]
fn pass_runs_alike_twice() {
    let rec = record(vec![field("a", 1), field("b", 2), field("c", 3), field("d", 4)]);
    let first = derive_conversions(&rec);
    let second = derive_conversions(&rec);
    assert_eq!(first, second);
    assert_eq!(first.unwrap().len(), 24);
}

#[test]
fn pass_rejects_repeated_types() {
    let rec = record(vec![field("first", 5), field("index", 6), field("second", 5)]);
    assert_eq!(
        derive_conversions(&rec),
        Err(vec![DuplicateFieldType { index: 2, name: "second".to_string() }])
    );
}
