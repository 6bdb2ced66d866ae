use json_parser::{Fields, Value};

#[test]
fn new_fields_are_empty() {
    let fields = Fields::new();
    assert_eq!(fields.len(), 0);
    assert!(fields.get(&String::from("a")).is_none());
}

#[test]
fn insert_then_get() {
    let mut fields = Fields::new();
    fields.insert(String::from("a"), Value::String(String::from("1")));
    fields.insert(String::from("b"), Value::String(String::from("2")));
    assert_eq!(fields.len(), 2);
    assert_eq!(
        fields.get(&String::from("a")),
        Some(&Value::String(String::from("1")))
    );
    assert_eq!(
        fields.get(&String::from("b")),
        Some(&Value::String(String::from("2")))
    );
    assert!(fields.get(&String::from("c")).is_none());
}

#[test]
fn insert_replaces_the_value_under_a_key() {
    let mut fields = Fields::new();
    fields.insert(String::from("a"), Value::String(String::from("1")));
    fields.insert(String::from("b"), Value::String(String::from("2")));
    fields.insert(String::from("a"), Value::String(String::from("3")));
    assert_eq!(fields.len(), 2);
    assert_eq!(
        fields.get(&String::from("a")),
        Some(&Value::String(String::from("3")))
    );
    assert_eq!(
        fields.get(&String::from("b")),
        Some(&Value::String(String::from("2")))
    );
}

#[test]
fn objects_are_equal_whatever_the_order_of_insertion() {
    let mut one = Fields::new();
    one.insert(String::from("a"), Value::String(String::from("1")));
    one.insert(String::from("b"), Value::Array(vec![]));
    let mut other = Fields::new();
    other.insert(String::from("b"), Value::Array(vec![]));
    other.insert(String::from("a"), Value::String(String::from("0")));
    other.insert(String::from("a"), Value::String(String::from("1")));
    assert_eq!(one, other);
    assert_eq!(Value::Object(one), Value::Object(other));
}

#[test]
fn objects_differ_by_key_value_or_size() {
    let mut one = Fields::new();
    one.insert(String::from("a"), Value::String(String::from("1")));
    let mut other_value = Fields::new();
    other_value.insert(String::from("a"), Value::String(String::from("2")));
    let mut other_key = Fields::new();
    other_key.insert(String::from("b"), Value::String(String::from("1")));
    let mut larger = Fields::new();
    larger.insert(String::from("a"), Value::String(String::from("1")));
    larger.insert(String::from("b"), Value::String(String::from("1")));
    assert_ne!(one, other_value);
    assert_ne!(one, other_key);
    assert_ne!(one, larger);
    assert_ne!(larger, one);
    assert_ne!(one, Fields::new());
}

#[test]
fn arrays_are_equal_item_by_item_in_order() {
    let ab = Value::Array(vec![
        Value::String(String::from("a")),
        Value::String(String::from("b")),
    ]);
    let ab_again = Value::Array(vec![
        Value::String(String::from("a")),
        Value::String(String::from("b")),
    ]);
    let ba = Value::Array(vec![
        Value::String(String::from("b")),
        Value::String(String::from("a")),
    ]);
    let a = Value::Array(vec![Value::String(String::from("a"))]);
    assert_eq!(ab, ab_again);
    assert_ne!(ab, ba);
    assert_ne!(ab, a);
}

#[test]
fn values_of_different_kinds_differ() {
    let text = Value::String(String::from("1"));
    let array = Value::Array(vec![]);
    let object = Value::Object(Fields::new());
    assert_ne!(text, array);
    assert_ne!(array, object);
    assert_ne!(object, text);
    assert_ne!(text, Value::String(String::from("2")));
    assert_eq!(text, Value::String(String::from("1")));
}

#[test]
fn nested_values_are_compared_in_depth() {
    let mut inner = Fields::new();
    inner.insert(String::from("k"), Value::Array(vec![Value::String(String::from("1"))]));
    let mut inner_other = Fields::new();
    inner_other.insert(String::from("k"), Value::Array(vec![Value::String(String::from("2"))]));
    let mut inner_same = Fields::new();
    inner_same.insert(String::from("k"), Value::Array(vec![Value::String(String::from("1"))]));
    let one = Value::Array(vec![Value::Object(inner)]);
    assert_ne!(one, Value::Array(vec![Value::Object(inner_other)]));
    assert_eq!(one, Value::Array(vec![Value::Object(inner_same)]));
}
