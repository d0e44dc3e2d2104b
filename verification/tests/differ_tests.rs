use json_delta::delta::Operation;
use json_delta::differ::Differ;
use json_delta::value::Value;

fn text(s: &str) -> Value {
    Value::Text(s.to_string())
}

fn obj(entries: Vec<(&str, Value)>) -> Value {
    Value::Object(entries.into_iter().map(|(k, v)| (k.to_string(), v)).collect())
}

fn sample_left() -> Value {
    obj(vec![
        ("username", text("admin")),
        ("password", text("admin")),
        ("email", text("foo@bar.com")),
        ("name", text("Foo Bar")),
        ("address", text("Dhaka")),
        ("roles", Value::Array(vec![text("admin")])),
        ("status", text("active")),
        ("created_at", text("2019-12-12T12:12:12.000Z")),
        ("nested", obj(vec![
            ("foo", text("bar")),
            ("nested2", obj(vec![
                ("foo", text("bar")),
                ("nested3", obj(vec![("foo", text("bar"))])),
            ])),
        ])),
    ])
}

fn sample_right() -> Value {
    obj(vec![
        ("username", text("admin")),
        ("password", text("admin")),
        ("email", text("foo@bar.com")),
        ("name", text("Foo Bar")),
        ("address", text("Dhaka")),
        ("phone", text("123456789")),
        ("roles", Value::Array(vec![text("admin")])),
        ("status", text("active")),
        ("created_at", text("2019-12-12T12:12:13.000Z")),
        ("nested", obj(vec![
            ("foo", text("bar")),
            ("nested2", obj(vec![
                ("foo", text("bar")),
                ("nested3", obj(vec![("foo", text("bar2"))])),
            ])),
        ])),
    ])
}

#[test]
fn differ_test_diff_from_json_value() {
    let a = sample_left();
    let b = sample_right();

    let mut differ = Differ::new_from_json_values(a, b);
    differ.diff();

    assert_eq!(
        differ.get_deltas().len(),
        3,
        "Expected 1 deltas, got {}",
        differ.get_deltas().len()
    );
    assert!(differ.has_changes());
    assert!(differ.has_path_changed("$.phone", Operation::Add));
    assert!(differ.has_path_changed("$.created_at", Operation::Change));

    let delta = differ.get_delta_by_path("$.phone").unwrap();
    assert_eq!(delta.operation, Operation::Add);
    assert_eq!(delta.path, "$.phone");
    assert_eq!(delta.old_value, Value::Null);
    assert_eq!(delta.new_value, Value::Text("123456789".to_string()));

    let delta = differ.get_delta_by_path("$.created_at").unwrap();
    assert_eq!(delta.operation, Operation::Change);
    assert_eq!(delta.path, "$.created_at");
    assert_eq!(delta.old_value, Value::Text("2019-12-12T12:12:12.000Z".to_string()));
    assert_eq!(delta.new_value, Value::Text("2019-12-12T12:12:13.000Z".to_string()));

    let delta = differ
        .get_delta_by_path("$.nested.nested2.nested3.foo")
        .unwrap();
    assert_eq!(delta.operation, Operation::Change);
    assert_eq!(delta.path, "$.nested.nested2.nested3.foo");
    assert_eq!(delta.old_value, Value::Text("bar".to_string()));
    assert_eq!(delta.new_value, Value::Text("bar2".to_string()));
}

#[test]
fn diff_arrays_remove_change() {
    let a = obj(vec![(
        "test",
        Value::Array(vec![Value::Number(1), Value::Number(2), Value::Number(3)]),
    )]);
    let b = obj(vec![(
        "test",
        Value::Array(vec![Value::Number(1), Value::Number(2)]),
    )]);

    let mut differ = Differ::new_from_json_values(a, b);
    differ.diff();

    let deltas = differ.get_deltas();

    assert_eq!(deltas.len(), 1, "Expected 1 deltas, got {}", deltas.len());

    assert_eq!(deltas[0].path, "$.test[2]");
    assert_eq!(deltas[0].operation, Operation::Delete);
    assert_eq!(deltas[0].old_value, Value::Number(3));
}

#[test]
fn diff_nested_arrays_remove_change() {
    let a = obj(vec![(
        "test",
        Value::Array(vec![Value::Array(vec![
            Value::Number(1),
            Value::Number(2),
            Value::Number(3),
        ])]),
    )]);
    let b = obj(vec![(
        "test",
        Value::Array(vec![Value::Array(vec![Value::Number(1), Value::Number(2)])]),
    )]);

    let mut differ = Differ::new_from_json_values(a, b);
    differ.diff();

    let deltas = differ.get_deltas();

    assert_eq!(deltas.len(), 1, "Expected 1 deltas, got {}", deltas.len());

    assert_eq!(deltas[0].path, "$.test[0][2]");
    assert_eq!(deltas[0].operation, Operation::Delete);
    assert_eq!(deltas[0].old_value, Value::Number(3));
}

#[test]
fn diff_arrays_remove() {
    let a = obj(vec![
        ("test1", text("test")),
        ("test", Value::Array(vec![Value::Number(1), Value::Number(2), Value::Number(3)])),
    ]);
    let b = obj(vec![("test1", text("test"))]);

    let mut differ = Differ::new_from_json_values(a, b);
    differ.diff();
    let deltas = differ.get_deltas();

    assert_eq!(deltas.len(), 3, "Expected 1 deltas, got {}", deltas.len());

    let delta = deltas.first().unwrap();
    assert_eq!(delta.path, "$.test[0]");
    assert_eq!(delta.operation, Operation::Delete);
    assert_eq!(delta.old_value, Value::Number(1));
    assert_eq!(delta.new_value, Value::Null);

    let delta = deltas.get(1).unwrap();
    assert_eq!(delta.path, "$.test[1]");
    assert_eq!(delta.operation, Operation::Delete);
    assert_eq!(delta.old_value, Value::Number(2));
    assert_eq!(delta.new_value, Value::Null);

    let delta = deltas.get(2).unwrap();
    assert_eq!(delta.path, "$.test[2]");
    assert_eq!(delta.operation, Operation::Delete);
    assert_eq!(delta.old_value, Value::Number(3));
    assert_eq!(delta.new_value, Value::Null);
}

#[test]
fn diff_arrays_add() {
    let a = obj(vec![("test1", text("test"))]);
    let b = obj(vec![
        ("test1", text("test")),
        ("test", Value::Array(vec![Value::Number(1), Value::Number(2), Value::Number(3)])),
    ]);

    let mut differ = Differ::new_from_json_values(a, b);
    differ.diff();

    assert_eq!(
        differ.get_deltas().len(),
        3,
        "Expected 1 deltas, got {}",
        differ.get_deltas().len()
    );

    let delta = differ.get_deltas().first().unwrap();
    assert_eq!(delta.path, "$.test[0]");
    assert_eq!(delta.operation, Operation::Add);
    assert_eq!(delta.old_value, Value::Null);
    assert_eq!(delta.new_value, Value::Number(1));

    let delta = differ.get_deltas().get(1).unwrap();
    assert_eq!(delta.path, "$.test[1]");
    assert_eq!(delta.operation, Operation::Add);
    assert_eq!(delta.old_value, Value::Null);
    assert_eq!(delta.new_value, Value::Number(2));

    let delta = differ.get_deltas().get(2).unwrap();
    assert_eq!(delta.path, "$.test[2]");
    assert_eq!(delta.operation, Operation::Add);
    assert_eq!(delta.old_value, Value::Null);
    assert_eq!(delta.new_value, Value::Number(3));
}

#[test]
fn test_super_nested_object() {
    let a = obj(vec![(
        "test",
        Value::Array(vec![Value::Array(vec![obj(vec![(
            "test",
            Value::Array(vec![Value::Array(vec![text("1"), text("2")])]),
        )])])]),
    )]);
    let b = obj(vec![(
        "test",
        Value::Array(vec![Value::Array(vec![obj(vec![(
            "test",
            Value::Array(vec![Value::Array(vec![text("1"), text("3")])]),
        )])])]),
    )]);

    let mut differ = Differ::new_from_json_values(a, b);
    differ.diff();

    assert_eq!(
        differ.get_deltas().len(),
        1,
        "Expected 1 deltas, got {}",
        differ.get_deltas().len()
    );

    let delta = differ.get_deltas().first().unwrap();
    assert_eq!(delta.path, "$.test[0][0].test[0][1]");
    assert_eq!(delta.operation, Operation::Change);
    assert_eq!(delta.old_value, Value::Text("2".to_string()));
    assert_eq!(delta.new_value, Value::Text("3".to_string()));
}

#[test]
fn diff_of_equal_trees_is_empty() {
    let a = sample_left();
    let b = sample_left();
    let mut differ = Differ::new_from_json_values(a, b);
    differ.diff();
    assert_eq!(differ.get_deltas().len(), 0);
    assert!(!differ.has_changes());
}

#[test]
fn diff_twice_yields_identical_deltas() {
    let mut first = Differ::new_from_json_values(sample_left(), sample_right());
    first.diff();
    let mut second = Differ::new_from_json_values(sample_left(), sample_right());
    second.diff();

    let a = first.get_deltas();
    let b = second.get_deltas();
    assert_eq!(a.len(), b.len());
    for k in 0..a.len() {
        assert_eq!(a[k].operation, b[k].operation);
        assert_eq!(a[k].path, b[k].path);
        assert_eq!(a[k].old_value, b[k].old_value);
        assert_eq!(a[k].new_value, b[k].new_value);
        assert_eq!(a[k].hash, b[k].hash);
    }
}

#[test]
fn diff_leaf_flattening() {
    let a = obj(vec![(
        "test",
        Value::Array(vec![Value::Number(1), Value::Number(2), Value::Number(3)]),
    )]);
    let b = obj(vec![]);

    let mut differ = Differ::new_from_json_values(a, b);
    differ.diff();
    let deltas = differ.get_deltas();

    assert_eq!(deltas.len(), 3);
    assert_eq!(deltas[0].path, "$.test[0]");
    assert_eq!(deltas[1].path, "$.test[1]");
    assert_eq!(deltas[2].path, "$.test[2]");
    for d in deltas.iter() {
        assert_eq!(d.operation, Operation::Delete);
        assert_eq!(d.new_value, Value::Null);
    }
}
