use json_delta::delta::Delta;
use json_delta::delta::Operation::{Add, Change, Delete};
use json_delta::errors::ProcessError;
use json_delta::patcher::{patch, set_by_path, try_patch, PatchOptions};
use json_delta::value::Value;
use json_delta::value::Value::Null;

fn text(s: &str) -> Value {
    Value::Text(s.to_string())
}

fn obj(entries: Vec<(&str, Value)>) -> Value {
    Value::Object(entries.into_iter().map(|(k, v)| (k.to_string(), v)).collect())
}

fn num(n: i64) -> Value {
    Value::Number(n)
}

#[test]
fn test_patch_add_list() {
    let mut base_json = obj(vec![]);
    let path = "$.list";
    let value = Value::Array(vec![num(1), num(2), num(3)]);

    set_by_path(&mut base_json, path, &value, Add, PatchOptions::new()).unwrap();

    assert_eq!(
        base_json,
        obj(vec![("list", Value::Array(vec![num(1), num(2), num(3)]))])
    )
}

#[test]
fn test_patch_add_element_to_list() {
    let mut base_json = obj(vec![]);
    let path = "$.list[0]";
    let value = num(1);

    set_by_path(&mut base_json, path, &value, Add, PatchOptions::new()).unwrap();

    assert_eq!(base_json, obj(vec![("list", Value::Array(vec![num(1)]))]));

    let path = "$.list[0]";
    let value = num(2);
    set_by_path(&mut base_json, path, &value, Change, PatchOptions::new()).unwrap();

    assert_eq!(base_json, obj(vec![("list", Value::Array(vec![num(2)]))]));

    let path = "$.list[1]";
    let value = num(3);
    set_by_path(&mut base_json, path, &value, Add, PatchOptions::new()).unwrap();

    assert_eq!(base_json, obj(vec![("list", Value::Array(vec![num(2), num(3)]))]));

    let path = "$.list[1]";
    let value = Null;
    set_by_path(&mut base_json, path, &value, Delete, PatchOptions::new()).unwrap();

    assert_eq!(base_json, obj(vec![("list", Value::Array(vec![num(2)]))]));

    let path = "$.list[0]";
    let value = Null;
    set_by_path(&mut base_json, path, &value, Delete, PatchOptions::new()).unwrap();

    assert_eq!(base_json, obj(vec![("list", Value::Array(vec![]))]));

    let path = "$.list";
    let value = Null;
    set_by_path(&mut base_json, path, &value, Delete, PatchOptions::new()).unwrap();

    assert_eq!(base_json, obj(vec![]));
}

#[test]
fn test_crud_number() {
    let mut base_json = obj(vec![]);
    let path = "$.age";
    let value = num(1);

    set_by_path(&mut base_json, path, &value, Add, PatchOptions::new()).unwrap();
    assert_eq!(base_json, obj(vec![("age", num(1))]));

    let value = num(2);
    set_by_path(&mut base_json, path, &value, Change, PatchOptions::new()).unwrap();
    assert_eq!(base_json, obj(vec![("age", num(2))]));

    set_by_path(&mut base_json, path, &value, Delete, PatchOptions::new()).unwrap();
    assert_eq!(base_json, obj(vec![]));
}

#[test]
fn test_crud_string() {
    let mut base_json = obj(vec![]);
    let path = "$.first_name";
    let value = text("first name");

    set_by_path(&mut base_json, path, &value, Add, PatchOptions::new()).unwrap();
    assert_eq!(base_json, obj(vec![("first_name", text("first name"))]));

    let value = text("changed name");
    set_by_path(&mut base_json, path, &value, Change, PatchOptions::new()).unwrap();
    assert_eq!(base_json, obj(vec![("first_name", text("changed name"))]));

    set_by_path(&mut base_json, path, &value, Delete, PatchOptions::new()).unwrap();
    assert_eq!(base_json, obj(vec![]));
}

#[test]
fn test_crud_nested_json() {
    let mut base_json = obj(vec![]);
    let path = "$.gdpr.first_name";
    let value = text("first name");

    set_by_path(&mut base_json, path, &value, Add, PatchOptions::new()).unwrap();

    assert_eq!(
        base_json,
        obj(vec![("gdpr", obj(vec![("first_name", text("first name"))]))])
    );

    let value = text("changed name");
    set_by_path(&mut base_json, path, &value, Change, PatchOptions::new()).unwrap();
    assert_eq!(
        base_json,
        obj(vec![("gdpr", obj(vec![("first_name", text("changed name"))]))])
    );

    set_by_path(&mut base_json, path, &value, Delete, PatchOptions::new()).unwrap();
    assert_eq!(base_json, obj(vec![("gdpr", obj(vec![]))]));
}

#[test]
fn test_path() {
    let deltas = vec![
        Delta {
            operation: Add,
            path: "$.age".to_string(),
            old_value: Null,
            new_value: num(1),
            hash: String::default(),
        },
        Delta {
            operation: Add,
            path: "$.personal_information.first_name".to_string(),
            old_value: Null,
            new_value: text("first name"),
            hash: String::default(),
        },
        Delta {
            operation: Change,
            path: "$.age".to_string(),
            old_value: Null,
            new_value: num(20),
            hash: String::default(),
        },
        Delta {
            operation: Add,
            path: "$.tags".to_string(),
            old_value: Null,
            new_value: Value::Array(vec![text("test"), text("test1")]),
            hash: String::default(),
        },
        Delta {
            operation: Change,
            path: "$.tags[1]".to_string(),
            old_value: Null,
            new_value: text("test2"),
            hash: String::default(),
        },
    ];

    let patched = patch(obj(vec![]), &deltas, PatchOptions::default().force(false));

    assert_eq!(
        patched,
        obj(vec![
            ("age", num(20)),
            ("personal_information", obj(vec![("first_name", text("first name"))])),
            ("tags", Value::Array(vec![text("test"), text("test2")])),
        ])
    )
}

#[test]
fn test_2d_array() {
    let deltas = vec![
        Delta {
            operation: Add,
            path: "$.test[0][0]".to_string(),
            old_value: Null,
            new_value: num(1),
            hash: "4437996877722456100".to_string(),
        },
        Delta {
            operation: Add,
            path: "$.test[1][0]".to_string(),
            old_value: Null,
            new_value: num(2),
            hash: "4437996877722456100".to_string(),
        },
    ];

    let patched = patch(obj(vec![]), &deltas, PatchOptions::default().force(true));

    assert_eq!(
        patched,
        obj(vec![(
            "test",
            Value::Array(vec![Value::Array(vec![num(1)]), Value::Array(vec![num(2)])]),
        )])
    );

    let deltas = vec![Delta {
        operation: Add,
        path: "$.test[1][1]".to_string(),
        old_value: Null,
        new_value: num(3),
        hash: "4437996877722456100".to_string(),
    }];

    let patched = patch(patched, &deltas, PatchOptions::default());

    assert_eq!(
        patched,
        obj(vec![(
            "test",
            Value::Array(vec![Value::Array(vec![num(1)]), Value::Array(vec![num(2), num(3)])]),
        )])
    );

    let deltas = vec![Delta {
        operation: Change,
        path: "$.test[1][1]".to_string(),
        old_value: Null,
        new_value: num(4),
        hash: "4437996877722456100".to_string(),
    }];

    let patched = patch(patched, &deltas, PatchOptions::default());

    assert_eq!(
        patched,
        obj(vec![(
            "test",
            Value::Array(vec![Value::Array(vec![num(1)]), Value::Array(vec![num(2), num(4)])]),
        )])
    );

    let deltas = vec![Delta {
        operation: Delete,
        path: "$.test[1][1]".to_string(),
        old_value: Null,
        new_value: Null,
        hash: "4437996877722456100".to_string(),
    }];

    let patched = patch(patched, &deltas, PatchOptions::default().force(false));

    assert_eq!(
        patched,
        obj(vec![(
            "test",
            Value::Array(vec![Value::Array(vec![num(1)]), Value::Array(vec![num(2)])]),
        )])
    );

    let deltas = vec![Delta {
        operation: Delete,
        path: "$.test[1][0]".to_string(),
        old_value: Null,
        new_value: Null,
        hash: "4437996877722456100".to_string(),
    }];

    let patched = patch(
        patched,
        &deltas,
        PatchOptions::default().force(false).omit_empty(true),
    );

    assert_eq!(
        patched,
        obj(vec![("test", Value::Array(vec![Value::Array(vec![num(1)])]))])
    );
}

#[test]
fn test_object_and_nested_array() {
    let deltas = vec![Delta {
        operation: Add,
        path: "$.list_of_objects[0][0].id".to_string(),
        old_value: Null,
        new_value: num(1),
        hash: "4437996877722456100".to_string(),
    }];

    let patched = patch(
        obj(vec![]),
        &deltas,
        PatchOptions::default().force(false).omit_empty(true),
    );

    assert_eq!(
        patched,
        obj(vec![(
            "list_of_objects",
            Value::Array(vec![Value::Array(vec![obj(vec![("id", num(1))])])]),
        )])
    );
}

#[test]
fn test_set_by_path() {
    let mut json = obj(vec![(
        "a",
        Value::Array(vec![Value::Array(vec![obj(vec![(
            "b",
            Value::Array(vec![Value::Array(vec![text("1"), text("2")])]),
        )])])]),
    )]);

    let path = "$.a[0][0].b[0][1]";
    let value = text("3");

    let result = set_by_path(&mut json, path, &value, Change, PatchOptions::new());

    assert!(result.is_ok());
    assert_eq!(
        json,
        obj(vec![(
            "a",
            Value::Array(vec![Value::Array(vec![obj(vec![(
                "b",
                Value::Array(vec![Value::Array(vec![text("1"), text("3")])]),
            )])])]),
        )])
    );

    let path = "$.a[0][0].b[0][2]";
    let value = text("4");

    let result = set_by_path(&mut json, path, &value, Add, PatchOptions::new());

    assert!(result.is_ok());
    assert_eq!(
        json,
        obj(vec![(
            "a",
            Value::Array(vec![Value::Array(vec![obj(vec![(
                "b",
                Value::Array(vec![Value::Array(vec![text("1"), text("3"), text("4")])]),
            )])])]),
        )])
    );

    let path = "$.a[0][0].c";
    let value = text("test");

    let result = set_by_path(&mut json, path, &value, Add, PatchOptions::new());

    assert!(result.is_ok());
    assert_eq!(
        json,
        obj(vec![(
            "a",
            Value::Array(vec![Value::Array(vec![obj(vec![
                (
                    "b",
                    Value::Array(vec![Value::Array(vec![text("1"), text("3"), text("4")])]),
                ),
                ("c", text("test")),
            ])])]),
        )])
    );

    let path = "$.a[0][0].c";
    let value = text("test2");

    let result = set_by_path(&mut json, path, &value, Change, PatchOptions::new());

    assert!(result.is_ok());
    assert_eq!(
        json,
        obj(vec![(
            "a",
            Value::Array(vec![Value::Array(vec![obj(vec![
                (
                    "b",
                    Value::Array(vec![Value::Array(vec![text("1"), text("3"), text("4")])]),
                ),
                ("c", text("test2")),
            ])])]),
        )])
    );

    let path = "$.a[0][0].c";
    let value = Null;

    let result = set_by_path(&mut json, path, &value, Delete, PatchOptions::new());

    assert!(result.is_ok());
    assert_eq!(
        json,
        obj(vec![(
            "a",
            Value::Array(vec![Value::Array(vec![obj(vec![(
                "b",
                Value::Array(vec![Value::Array(vec![text("1"), text("3"), text("4")])]),
            )])])]),
        )])
    );

    let path = "$.a[0][0].b[0][1]";
    let value = Null;

    let result = set_by_path(&mut json, path, &value, Delete, PatchOptions::new());

    assert!(result.is_ok());
    assert_eq!(
        json,
        obj(vec![(
            "a",
            Value::Array(vec![Value::Array(vec![obj(vec![(
                "b",
                Value::Array(vec![Value::Array(vec![text("1"), text("4")])]),
            )])])]),
        )])
    );
}

#[test]
fn test_patcher_omit_empty() {
    let base = obj(vec![(
        "a",
        Value::Array(vec![Value::Array(vec![obj(vec![(
            "b",
            Value::Array(vec![Value::Array(vec![text("1")])]),
        )])])]),
    )]);

    let deltas = vec![Delta {
        operation: Delete,
        path: "$.a[0][0].b[0][1]".to_string(),
        old_value: text("1"),
        new_value: Null,
        hash: "4437996877722456100".to_string(),
    }];

    let patcher = patch(
        base,
        &deltas,
        PatchOptions::default().force(false).omit_empty(true),
    );

    assert_eq!(patcher, obj(vec![]));
}

#[test]
fn test_multi_dimensional_patch_sequence() {
    let mut base = obj(vec![]);
    let one = num(1);
    let two = num(2);
    set_by_path(&mut base, "$.test[0][0]", &one, Add, PatchOptions::new()).unwrap();
    set_by_path(&mut base, "$.test[1][0]", &two, Add, PatchOptions::new()).unwrap();
    assert_eq!(
        base,
        obj(vec![(
            "test",
            Value::Array(vec![Value::Array(vec![num(1)]), Value::Array(vec![num(2)])]),
        )])
    );

    let three = num(3);
    set_by_path(&mut base, "$.test[1][1]", &three, Add, PatchOptions::new()).unwrap();
    assert_eq!(
        base,
        obj(vec![(
            "test",
            Value::Array(vec![Value::Array(vec![num(1)]), Value::Array(vec![num(2), num(3)])]),
        )])
    );

    let four = num(4);
    set_by_path(&mut base, "$.test[1][1]", &four, Change, PatchOptions::new()).unwrap();
    assert_eq!(
        base,
        obj(vec![(
            "test",
            Value::Array(vec![Value::Array(vec![num(1)]), Value::Array(vec![num(2), num(4)])]),
        )])
    );

    set_by_path(&mut base, "$.test[1][1]", &Null, Delete, PatchOptions::new()).unwrap();
    assert_eq!(
        base,
        obj(vec![(
            "test",
            Value::Array(vec![Value::Array(vec![num(1)]), Value::Array(vec![num(2)])]),
        )])
    );
}

#[test]
fn test_add_occupied_slot_conflicts() {
    let mut base = obj(vec![("x", Value::Array(vec![num(1), num(2)]))]);
    let value = num(9);
    let result = set_by_path(&mut base, "$.x[0]", &value, Add, PatchOptions::new());
    assert_eq!(result, Err(ProcessError::Conflict));
    assert_eq!(base, obj(vec![("x", Value::Array(vec![num(1), num(2)]))]));

    let result = set_by_path(&mut base, "$.x[0]", &value, Add, PatchOptions::new().force(true));
    assert!(result.is_ok());
    assert_eq!(base, obj(vec![("x", Value::Array(vec![num(9), num(1), num(2)]))]));
}

#[test]
fn test_change_out_of_bounds() {
    let mut base = obj(vec![("x", Value::Array(vec![num(1)]))]);
    let value = num(9);
    let result = set_by_path(&mut base, "$.x[5]", &value, Change, PatchOptions::new());
    assert_eq!(result, Err(ProcessError::IndexOutOfBounds));
    assert_eq!(base, obj(vec![("x", Value::Array(vec![num(1)]))]));
}

#[test]
fn test_delete_out_of_bounds() {
    let mut base = obj(vec![("x", Value::Array(vec![num(1)]))]);
    let result = set_by_path(&mut base, "$.x[5]", &Null, Delete, PatchOptions::new());
    assert_eq!(result, Err(ProcessError::IndexOutOfBounds));
}

#[test]
fn test_terminal_on_leaf_is_structural_mismatch() {
    let mut base = obj(vec![("x", num(5))]);
    let value = num(1);
    let result = set_by_path(&mut base, "$.x.y", &value, Add, PatchOptions::new());
    assert_eq!(result, Err(ProcessError::StructuralMismatch));
    assert_eq!(base, obj(vec![("x", num(5))]));
}

#[test]
fn test_try_patch_stops_at_failing_delta() {
    let base = obj(vec![("x", num(5))]);
    let deltas = vec![Delta {
        operation: Change,
        path: "$.x.y".to_string(),
        old_value: Null,
        new_value: num(1),
        hash: String::default(),
    }];
    let result = try_patch(&base, &deltas, PatchOptions::new());
    assert_eq!(result, Err(ProcessError::StructuralMismatch));
    assert_eq!(base, obj(vec![("x", num(5))]));
}
