//! Documents, values, structural equality and query matching.

use docl::document::{doc_eq, value_eq, Doc, Value};

fn doc1() -> Doc {
    let mut d = Doc::new();
    d.insert(String::from("a"), Value::Int(1));
    d.insert(String::from("b"), Value::Int(2));
    d
}

#[test]
fn empty_query_matches_every_document() {
    let d = doc1();
    let q = Doc::new();
    assert!(d.matches(&q));
    let empty = Doc::new();
    assert!(empty.matches(&q));
}

#[test]
fn matching_on_equal_key_value() {
    let d = doc1();
    let mut q = Doc::new();
    q.insert(String::from("a"), Value::Int(1));
    assert!(d.matches(&q));
}

#[test]
fn matching_rejects_different_value() {
    let d = doc1();
    let mut q = Doc::new();
    q.insert(String::from("a"), Value::Int(2));
    assert!(!d.matches(&q));
}

#[test]
fn matching_rejects_absent_key() {
    let d = doc1();
    let mut q = Doc::new();
    q.insert(String::from("c"), Value::Int(1));
    assert!(!d.matches(&q));
}

#[test]
fn matching_is_conjunctive() {
    let d = doc1();
    let mut q = Doc::new();
    q.insert(String::from("a"), Value::Int(1));
    q.insert(String::from("b"), Value::Int(2));
    assert!(d.matches(&q));
    q.insert(String::from("b"), Value::Int(3));
    assert!(!d.matches(&q));
}

#[test]
fn matching_is_structural_and_deep() {
    let mut inner = Doc::new();
    inner.insert(String::from("x"), Value::Str(String::from("y")));
    let mut d = Doc::new();
    d.insert(
        String::from("k"),
        Value::Arr(vec![Value::Obj(inner.clone()), Value::Null, Value::Bool(true)]),
    );
    let mut q = Doc::new();
    q.insert(
        String::from("k"),
        Value::Arr(vec![Value::Obj(inner), Value::Null, Value::Bool(true)]),
    );
    assert!(d.matches(&q));

    let mut other = Doc::new();
    other.insert(String::from("x"), Value::Str(String::from("z")));
    let mut q2 = Doc::new();
    q2.insert(
        String::from("k"),
        Value::Arr(vec![Value::Obj(other), Value::Null, Value::Bool(true)]),
    );
    assert!(!d.matches(&q2));
}

#[test]
fn value_equality_is_deep() {
    let a = Value::Arr(vec![Value::Int(1), Value::Str(String::from("s"))]);
    let b = Value::Arr(vec![Value::Int(1), Value::Str(String::from("s"))]);
    let c = Value::Arr(vec![Value::Int(1), Value::Str(String::from("t"))]);
    assert!(value_eq(&a, &b));
    assert!(!value_eq(&a, &c));
    assert!(!value_eq(&a, &Value::Null));
    assert!(value_eq(&Value::Float(1u64 << 62), &Value::Float(1u64 << 62)));
    assert!(!value_eq(&Value::Float(0), &Value::Float(1)));
}

#[test]
fn document_get_and_len() {
    let d = doc1();
    assert_eq!(d.len(), 2);
    let v = d.get(&String::from("a")).expect("key a is present");
    assert!(value_eq(v, &Value::Int(1)));
    assert!(d.get(&String::from("z")).is_none());
    assert!(d.contains_key(&String::from("b")));
    assert!(!d.contains_key(&String::from("c")));
}

#[test]
fn insert_replaces_in_place() {
    let mut d = doc1();
    d.insert(String::from("a"), Value::Str(String::from("new")));
    assert_eq!(d.len(), 2);
    let v = d.get(&String::from("a")).expect("key a is present");
    assert!(value_eq(v, &Value::Str(String::from("new"))));
}

#[test]
fn clone_is_deep_and_equal() {
    let mut d = doc1();
    d.insert(String::from("nested"), Value::Obj(doc1()));
    let c = d.clone();
    assert!(doc_eq(&d, &c));
}
