use json_delta::delta::Operation as DeltaOperation;
use json_delta::differ::Differ;
use json_delta::patcher::{patch, PatchOptions};
use json_delta::value::Value;
use json_delta::{Diff, Operation};

fn text(s: &str) -> Value {
    Value::Text(s.to_string())
}

fn obj(entries: Vec<(&str, Value)>) -> Value {
    Value::Object(entries.into_iter().map(|(k, v)| (k.to_string(), v)).collect())
}

#[test]
fn lib_diff_from_json_value() {
    let a = obj(vec![
        ("username", text("admin")),
        ("password", text("admin")),
        ("email", text("foo@bar.com")),
        ("name", text("Foo Bar")),
        ("address", text("Dhaka")),
        ("roles", Value::Array(vec![text("admin")])),
        ("status", text("active")),
        ("created_at", text("2019-12-12T12:12:12.000Z")),
        ("nested", obj(vec![
            ("foo", text("bar")),
            ("nested2", obj(vec![
                ("foo", text("bar")),
                ("nested3", obj(vec![("foo", text("bar"))])),
            ])),
        ])),
    ]);
    let b = obj(vec![
        ("username", text("admin")),
        ("password", text("admin")),
        ("email", text("foo@bar.com")),
        ("name", text("Foo Bar")),
        ("address", text("Dhaka")),
        ("phone", text("123456789")),
        ("roles", Value::Array(vec![text("admin")])),
        ("status", text("active")),
        ("created_at", text("2019-12-12T12:12:13.000Z")),
        ("nested", obj(vec![
            ("foo", text("bar")),
            ("nested2", obj(vec![
                ("foo", text("bar")),
                ("nested3", obj(vec![("foo", text("bar2"))])),
            ])),
        ])),
    ]);

    let mut differ = Diff::new_from_json_values(a, b);
    differ.diff();

    assert_eq!(
        differ.get_deltas().len(),
        3,
        "Expected 1 deltas, got {}",
        differ.get_deltas().len()
    );
    assert!(differ.has_changes());
    assert!(differ.has_path_changed("$.phone", Operation::Add));
    assert!(differ.has_path_changed("$.created_at", Operation::Change));

    let delta = differ.get_delta_by_path("$.phone").unwrap();
    assert_eq!(delta.operation, Operation::Add);
    assert_eq!(delta.path, "$.phone");
    assert_eq!(delta.old_value, Value::Null);
    assert_eq!(delta.new_value, Value::Text("123456789".to_string()));

    let delta = differ.get_delta_by_path("$.created_at").unwrap();
    assert_eq!(delta.operation, Operation::Change);
    assert_eq!(delta.path, "$.created_at");
    assert_eq!(delta.old_value, Value::Text("2019-12-12T12:12:12.000Z".to_string()));
    assert_eq!(delta.new_value, Value::Text("2019-12-12T12:12:13.000Z".to_string()));

    let delta = differ
        .get_delta_by_path("$.nested.nested2.nested3.foo")
        .unwrap();
    assert_eq!(delta.operation, Operation::Change);
    assert_eq!(delta.path, "$.nested.nested2.nested3.foo");
    assert_eq!(delta.old_value, Value::Text("bar".to_string()));
    assert_eq!(delta.new_value, Value::Text("bar2".to_string()));
}

#[test]
fn test_lib() {
    let left = obj(vec![]);
    let right = obj(vec![
        ("age", Value::Number(20)),
        ("tags", Value::Array(vec![text("test")])),
    ]);
    let mut differ = Differ::new_from_json_values(left, right);
    differ.diff();

    assert_eq!(differ.get_deltas().len(), 2);

    let new_base = obj(vec![]);
    let deltas = differ.get_deltas();
    let patched = patch(new_base, deltas, Default::default());

    assert_eq!(
        patched,
        obj(vec![
            ("age", Value::Number(20)),
            ("tags", Value::Array(vec![text("test")])),
        ])
    )
}

#[test]
fn lib_diff_collects_paths() {
    let left = obj(vec![("a", Value::Number(1)), ("b", Value::Number(2))]);
    let right = obj(vec![("a", Value::Number(1)), ("c", Value::Number(3))]);
    let mut differ = Diff::new_from_json_values(left, right);
    differ.diff();

    let paths = differ.get_paths();
    assert_eq!(paths.len(), 3);
    assert_eq!(paths[0], "$.a");
    assert_eq!(paths[1], "$.b");
    assert_eq!(paths[2], "$.c");
    assert_eq!(differ.get_deltas().len(), 2);
    assert!(differ.has_path_changed("$.b", Operation::Delete));
    assert!(differ.has_path_changed("$.c", Operation::Add));
    assert!(!differ.has_path_changed("$.a", Operation::Change));
    assert!(differ.get_delta_by_path("$.a").is_none());
}

#[test]
fn lib_round_trip_reconstructs_target() {
    let a = obj(vec![
        ("a", Value::Number(1)),
        ("b", obj(vec![("c", Value::Number(2))])),
    ]);
    let b = obj(vec![
        ("a", Value::Number(1)),
        ("b", obj(vec![("c", Value::Number(3))])),
        ("d", Value::Number(4)),
    ]);

    let mut differ = Differ::new_from_json_values(a.deep_clone(), b.deep_clone());
    differ.diff();
    let patched = patch(a, differ.get_deltas(), PatchOptions::new());
    assert_eq!(patched, b);
    assert_eq!(
        differ
            .get_deltas()
            .iter()
            .map(|d| d.operation)
            .collect::<Vec<DeltaOperation>>(),
        vec![DeltaOperation::Change, DeltaOperation::Add]
    );
}
