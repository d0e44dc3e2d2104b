use json_delta::differ::lookup_path;
use json_delta::utils::{analyse_path, get_key, is_multi_dimensional_array, PathItem};
use json_delta::value::Value;

fn obj(entries: Vec<(&str, Value)>) -> Value {
    Value::Object(entries.into_iter().map(|(k, v)| (k.to_string(), v)).collect())
}

#[test]
fn test_analyse_path() {
    let items = analyse_path("$.nested.list[0][2].id");
    assert_eq!(items.len(), 4);

    assert_eq!(items[0].key, "$");
    assert!(!items[0].is_array);
    assert!(items[0].indices.is_empty());
    assert!(!items[0].is_last);

    assert_eq!(items[1].key, "nested");
    assert!(!items[1].is_array);
    assert!(items[1].indices.is_empty());
    assert!(!items[1].is_last);

    assert_eq!(items[2].key, "list");
    assert!(items[2].is_array);
    assert_eq!(items[2].indices, vec![0, 2]);
    assert!(!items[2].is_last);

    assert_eq!(items[3].key, "id");
    assert!(!items[3].is_array);
    assert!(items[3].indices.is_empty());
    assert!(items[3].is_last);
}

#[test]
fn test_is_multi_dimensional_array() {
    let (is_array, extra_dims, indices) = is_multi_dimensional_array("list[0][2]");
    assert!(is_array);
    assert_eq!(extra_dims, 1);
    assert_eq!(indices, vec![0, 2]);

    let (is_array, extra_dims, indices) = is_multi_dimensional_array("plain");
    assert!(!is_array);
    assert_eq!(extra_dims, 0);
    assert!(indices.is_empty());

    let (is_array, extra_dims, indices) = is_multi_dimensional_array("tags[7]");
    assert!(is_array);
    assert_eq!(extra_dims, 0);
    assert_eq!(indices, vec![7]);
}

#[test]
fn test_get_key() {
    assert_eq!(get_key("list[0]"), "list");
    assert_eq!(get_key("plain"), "plain");
    assert_eq!(get_key("a[1][2]"), "a");
}

#[test]
fn test_path_item_new() {
    let item = PathItem::new("list[0][2]".to_string(), true, vec![0, 2], false);
    assert_eq!(item.key, "list");
    assert!(item.is_array);
    assert_eq!(item.indices, vec![0, 2]);
    assert!(!item.is_last);
}

#[test]
fn test_lookup_path() {
    let tree = obj(vec![(
        "a",
        Value::Array(vec![Value::Array(vec![obj(vec![("b", Value::Number(7))])])]),
    )]);

    let hit = lookup_path(&tree, "$.a[0][0].b");
    assert_eq!(hit, Some(&Value::Number(7)));

    assert_eq!(lookup_path(&tree, "$.a[0][1].b"), None);
    assert_eq!(lookup_path(&tree, "$.missing"), None);
    assert_eq!(lookup_path(&tree, "$.a[0][0].c"), None);
}
