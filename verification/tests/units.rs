use schematools::error::Error;
use schematools::json::{deep_copy, json_eq, obj_lookup, Json};
use schematools::merge::merge_values;
use schematools::pointer::pointer_get;
use schematools::scope::SchemaScope;
use schematools::storage::SchemaStorage;
use schematools::urls::parse_url;

fn s(v: &str) -> Json {
    Json::Str(v.to_string())
}

fn i(v: i64) -> Json {
    Json::Num(v.to_string())
}

fn obj(entries: Vec<(&str, Json)>) -> Json {
    Json::Obj(entries.into_iter().map(|(k, v)| (k.to_string(), v)).collect())
}

fn arr(items: Vec<Json>) -> Json {
    Json::Arr(items)
}

#[test]
fn parse_url_splits_address_and_fragment() {
    let r = parse_url("other.json#/a/b".to_string()).unwrap();
    assert_eq!(r.0.as_deref(), Some("other.json"));
    assert_eq!(r.1.as_deref(), Some("/a/b"));
}

#[test]
fn parse_url_fragment_only() {
    let r = parse_url("#/a".to_string()).unwrap();
    assert!(r.0.is_none());
    assert_eq!(r.1.as_deref(), Some("/a"));
}

#[test]
fn parse_url_address_only() {
    let r = parse_url("other.json".to_string()).unwrap();
    assert_eq!(r.0.as_deref(), Some("other.json"));
    assert!(r.1.is_none());
}

#[test]
fn parse_url_rejects_two_hashes() {
    let r = parse_url("a#b#c".to_string());
    assert!(matches!(r, Err(Error::ReferenceSyntax(_))));
}

#[test]
fn pointer_navigates_objects_and_arrays() {
    let doc = obj(vec![(
        "definitions",
        obj(vec![("list", arr(vec![i(10), i(20), i(30)]))]),
    )]);
    let got = pointer_get(&doc, &"/definitions/list/1".to_string()).unwrap();
    assert!(json_eq(got, &i(20)));
}

#[test]
fn pointer_empty_fragment_is_the_document() {
    let doc = obj(vec![("a", i(1))]);
    let got = pointer_get(&doc, &String::new()).unwrap();
    assert!(json_eq(got, &doc));
}

#[test]
fn pointer_decodes_escapes() {
    let doc = obj(vec![("a/b", i(1)), ("m~n", i(2))]);
    assert!(json_eq(pointer_get(&doc, &"/a~1b".to_string()).unwrap(), &i(1)));
    assert!(json_eq(pointer_get(&doc, &"/m~0n".to_string()).unwrap(), &i(2)));
}

#[test]
fn pointer_rejects_bad_paths() {
    let doc = obj(vec![("list", arr(vec![i(1)]))]);
    assert!(pointer_get(&doc, &"/list/01".to_string()).is_none());
    assert!(pointer_get(&doc, &"/list/5".to_string()).is_none());
    assert!(pointer_get(&doc, &"/absent".to_string()).is_none());
    assert!(pointer_get(&doc, &"no-slash".to_string()).is_none());
}

#[test]
fn storage_first_insert_wins() {
    let mut st = SchemaStorage::new();
    st.insert("https://example.com/a.json".to_string(), i(1));
    assert_eq!(st.len(), 1);
    st.insert("https://example.com/a.json".to_string(), i(2));
    assert_eq!(st.len(), 1);
    let got = st.get(&"https://example.com/a.json".to_string()).unwrap();
    assert!(json_eq(got, &i(1)));
    st.insert("https://example.com/b.json".to_string(), i(3));
    assert_eq!(st.len(), 2);
}

#[test]
fn scope_tracks_depth() {
    let mut scope = SchemaScope::new();
    assert_eq!(scope.len(), 0);
    scope.property("a".to_string());
    scope.index(3);
    assert_eq!(scope.len(), 2);
    scope.pop();
    scope.pop();
    assert_eq!(scope.len(), 0);
}

#[test]
fn merge_right_wins_on_scalars() {
    let a = obj(vec![("x", i(1)), ("y", s("keep"))]);
    let b = obj(vec![("x", i(2))]);
    let m = merge_values(&a, &b);
    let expected = obj(vec![("x", i(2)), ("y", s("keep"))]);
    assert!(json_eq(&m, &expected));
}

#[test]
fn merge_unions_arrays_without_duplicates() {
    let a = arr(vec![i(1), i(2)]);
    let b = arr(vec![i(2), i(3)]);
    let m = merge_values(&a, &b);
    assert!(json_eq(&m, &arr(vec![i(1), i(2), i(3)])));
}

#[test]
fn merge_type_mismatch_replaces() {
    let a = obj(vec![("x", i(1))]);
    let b = s("scalar");
    let m = merge_values(&a, &b);
    assert!(json_eq(&m, &s("scalar")));
}

#[test]
fn merge_null_is_replaced() {
    let m = merge_values(&Json::Null, &i(7));
    assert!(json_eq(&m, &i(7)));
}

#[test]
fn merge_skips_composition_keywords() {
    let a = obj(vec![("x", i(1))]);
    let b = obj(vec![
        ("allOf", arr(vec![i(1)])),
        ("oneOf", arr(vec![i(2)])),
        ("discriminator", obj(vec![("propertyName", s("k"))])),
        ("y", i(2)),
    ]);
    let m = merge_values(&a, &b);
    assert!(json_eq(&m, &obj(vec![("x", i(1)), ("y", i(2))])));
}

#[test]
fn json_eq_is_structural() {
    let a = obj(vec![("x", arr(vec![i(1), s("two"), Json::Null]))]);
    let b = deep_copy(&a);
    assert!(json_eq(&a, &b));
    let c = obj(vec![("x", arr(vec![i(1), s("two"), Json::Bool(false)]))]);
    assert!(!json_eq(&a, &c));
}

#[test]
fn obj_lookup_finds_first_match() {
    let entries: Vec<(String, Json)> = vec![
        ("a".to_string(), i(1)),
        ("b".to_string(), i(2)),
    ];
    assert!(json_eq(obj_lookup(&entries, "b").unwrap(), &i(2)));
    assert!(obj_lookup(&entries, "c").is_none());
}

#[test]
fn scope_renders_as_json_pointer() {
    let mut scope = SchemaScope::new();
    scope.property("properties".to_string());
    scope.property("items".to_string());
    scope.index(12);
    assert_eq!(scope.render(), "/properties/items/12");
    scope.pop();
    scope.pop();
    scope.pop();
    assert_eq!(scope.render(), "");
}
