use json_delta::delta::{Delta, Operation};
use json_delta::value::Value;

#[test]
fn test_delta_hash() {
    let delta = Delta::new(
        Operation::Add,
        "$.test".to_string(),
        Value::Null,
        Value::Number(1),
    );
    assert_eq!(delta.hash, "13989947290824433245");
}

#[test]
fn test_delta_hash_deterministic() {
    let a = Delta::new(
        Operation::Change,
        "$.x".to_string(),
        Value::Number(1),
        Value::Number(2),
    );
    let b = Delta::new(
        Operation::Change,
        "$.x".to_string(),
        Value::Number(1),
        Value::Number(2),
    );
    assert_eq!(a.hash, b.hash);
}

#[test]
fn test_delta_hash_depends_on_every_field() {
    let base = Delta::new(
        Operation::Change,
        "$.x".to_string(),
        Value::Number(1),
        Value::Number(2),
    );
    let other_op = Delta::new(
        Operation::Add,
        "$.x".to_string(),
        Value::Number(1),
        Value::Number(2),
    );
    let other_path = Delta::new(
        Operation::Change,
        "$.y".to_string(),
        Value::Number(1),
        Value::Number(2),
    );
    let other_old = Delta::new(
        Operation::Change,
        "$.x".to_string(),
        Value::Number(7),
        Value::Number(2),
    );
    let other_new = Delta::new(
        Operation::Change,
        "$.x".to_string(),
        Value::Number(1),
        Value::Number(9),
    );
    assert_ne!(base.hash, other_op.hash);
    assert_ne!(base.hash, other_path.hash);
    assert_ne!(base.hash, other_old.hash);
    assert_ne!(base.hash, other_new.hash);
}

#[test]
fn test_render_compact_json() {
    let v = Value::Object(vec![
        ("a".to_string(), Value::Array(vec![
            Value::Number(1),
            Value::Text("x".to_string()),
            Value::Null,
            Value::Bool(true),
        ])),
        ("b".to_string(), Value::Number(-5)),
    ]);
    assert_eq!(json_delta::render::render_val(&v), "{\"a\":[1,\"x\",null,true],\"b\":-5}");
}

#[test]
fn test_render_escapes_strings() {
    let v = Value::Text("a\"b\\c\nd\u{1}".to_string());
    assert_eq!(json_delta::render::render_val(&v), "\"a\\\"b\\\\c\\nd\\u0001\"");
}
