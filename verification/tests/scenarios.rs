use schematools::dereference::Dereferencer;
use schematools::error::Error;
use schematools::flatten::Merger;
use schematools::json::{json_eq, Json};
use schematools::storage::{Schema, SchemaStorage};

fn s(v: &str) -> Json {
    Json::Str(v.to_string())
}

fn i(v: i64) -> Json {
    Json::Num(v.to_string())
}

fn obj(entries: Vec<(&str, Json)>) -> Json {
    Json::Obj(entries.into_iter().map(|(k, v)| (k.to_string(), v)).collect())
}

fn arr(items: Vec<Json>) -> Json {
    Json::Arr(items)
}

fn rf(target: &str) -> Json {
    obj(vec![("$ref", s(target))])
}

fn assert_same(actual: &Json, expected: &Json) {
    assert!(json_eq(actual, expected));
}

#[test]
fn local_fragment_ref() {
    let input = obj(vec![("A", obj(vec![("type", s("string"))])), ("B", rf("#/A"))]);
    let mut schema = Schema::from_json(input);
    let storage = SchemaStorage::new();
    let r = Dereferencer::options().process(&mut schema, &storage);
    assert!(matches!(r, Ok(true)));
    let expected = obj(vec![
        ("A", obj(vec![("type", s("string"))])),
        ("B", obj(vec![("type", s("string"))])),
    ]);
    assert_same(schema.get_body(), &expected);
}

#[test]
fn sibling_key_override() {
    let input = obj(vec![
        ("A", obj(vec![("type", s("string")), ("title", s("T1"))])),
        ("B", obj(vec![("$ref", s("#/A")), ("title", s("T2"))])),
    ]);
    let mut schema = Schema::from_json(input);
    let storage = SchemaStorage::new();
    let r = Dereferencer::options().process(&mut schema, &storage);
    assert!(matches!(r, Ok(true)));
    let expected = obj(vec![
        ("A", obj(vec![("type", s("string")), ("title", s("T1"))])),
        ("B", obj(vec![("type", s("string")), ("title", s("T2"))])),
    ]);
    assert_same(schema.get_body(), &expected);
}

#[test]
fn allof_scalar_last_wins() {
    let input = obj(vec![(
        "allOf",
        arr(vec![
            obj(vec![("type", s("object")), ("maxItems", i(3))]),
            obj(vec![("maxItems", i(5))]),
        ]),
    )]);
    let mut schema = Schema::from_json(input);
    let storage = SchemaStorage::new();
    let r = Merger::options().process(&mut schema, &storage);
    assert!(matches!(r, Ok(true)));
    let expected = obj(vec![("type", s("object")), ("maxItems", i(5))]);
    assert_same(schema.get_body(), &expected);
}

#[test]
fn allof_array_union() {
    let input = obj(vec![(
        "allOf",
        arr(vec![
            obj(vec![("required", arr(vec![s("a")]))]),
            obj(vec![("required", arr(vec![s("b"), s("a")]))]),
        ]),
    )]);
    let mut schema = Schema::from_json(input);
    let storage = SchemaStorage::new();
    let r = Merger::options().process(&mut schema, &storage);
    assert!(matches!(r, Ok(true)));
    let expected = obj(vec![("required", arr(vec![s("a"), s("b")]))]);
    assert_same(schema.get_body(), &expected);
}

#[test]
fn allof_discriminator_skipped() {
    let input = obj(vec![(
        "allOf",
        arr(vec![
            obj(vec![
                ("discriminator", obj(vec![("propertyName", s("k"))])),
                ("x", i(1)),
            ]),
            obj(vec![("y", i(2))]),
        ]),
    )]);
    let mut schema = Schema::from_json(input);
    let storage = SchemaStorage::new();
    let r = Merger::options().process(&mut schema, &storage);
    assert!(matches!(r, Ok(true)));
    let expected = obj(vec![("x", i(1)), ("y", i(2))]);
    assert_same(schema.get_body(), &expected);
}

#[test]
fn cycle_fails_with_cyclic_reference() {
    let input = obj(vec![("A", rf("#/B")), ("B", rf("#/A"))]);
    let mut schema = Schema::from_json(input);
    let storage = SchemaStorage::new();
    let r = Dereferencer::options().process(&mut schema, &storage);
    assert!(matches!(r, Err(Error::CyclicReference)));
}

#[test]
fn dereference_is_idempotent_without_external_refs() {
    let input = obj(vec![("A", obj(vec![("type", s("string"))])), ("B", rf("#/A"))]);
    let mut schema = Schema::from_json(input);
    let storage = SchemaStorage::new();
    let first = Dereferencer::options().process(&mut schema, &storage);
    assert!(matches!(first, Ok(true)));
    let once = schematools::json::deep_copy(schema.get_body());
    let second = Dereferencer::options().process(&mut schema, &storage);
    assert!(matches!(second, Ok(true)));
    assert_same(schema.get_body(), &once);
}

#[test]
fn missing_document_is_load_failure() {
    let input = obj(vec![("B", rf("https://example.com/absent.schema.json#/A"))]);
    let mut schema = Schema::new("https://example.com/root.schema.json".to_string(), input);
    let storage = SchemaStorage::new();
    let r = Dereferencer::options().process(&mut schema, &storage);
    match r {
        Err(Error::LoadFailure(url)) => {
            assert_eq!(url, "https://example.com/absent.schema.json");
        }
        other => panic!("expected a load failure, got {:?}", other),
    }
}

#[test]
fn unresolved_fragment_keeps_node_and_is_not_clean() {
    let input = obj(vec![("B", rf("#/missing"))]);
    let mut schema = Schema::from_json(input);
    let storage = SchemaStorage::new();
    let r = Dereferencer::options().process(&mut schema, &storage);
    assert!(matches!(r, Ok(false)));
    let expected = obj(vec![("B", rf("#/missing"))]);
    assert_same(schema.get_body(), &expected);
}

#[test]
fn malformed_reference_keeps_node_and_is_not_clean() {
    let input = obj(vec![("B", rf("#/a#/b"))]);
    let mut schema = Schema::from_json(input);
    let storage = SchemaStorage::new();
    let r = Dereferencer::options().process(&mut schema, &storage);
    assert!(matches!(r, Ok(false)));
    let expected = obj(vec![("B", rf("#/a#/b"))]);
    assert_same(schema.get_body(), &expected);
}

#[test]
fn non_string_ref_keeps_node_and_is_not_clean() {
    let input = obj(vec![("B", obj(vec![("$ref", i(1))]))]);
    let mut schema = Schema::from_json(input);
    let storage = SchemaStorage::new();
    let r = Dereferencer::options().process(&mut schema, &storage);
    assert!(matches!(r, Ok(false)));
    let expected = obj(vec![("B", obj(vec![("$ref", i(1))]))]);
    assert_same(schema.get_body(), &expected);
}

#[test]
fn skip_root_internal_references_leaves_fragment_refs() {
    let input = obj(vec![("A", obj(vec![("type", s("string"))])), ("B", rf("#/A"))]);
    let mut schema = Schema::from_json(input);
    let storage = SchemaStorage::new();
    let r = Dereferencer::options()
        .with_skip_root_internal_references(true)
        .process(&mut schema, &storage);
    assert!(matches!(r, Ok(true)));
    let expected = obj(vec![("A", obj(vec![("type", s("string"))])), ("B", rf("#/A"))]);
    assert_same(schema.get_body(), &expected);
}

#[test]
fn skip_references_leaves_matching_hosts() {
    let input = obj(vec![("B", rf("https://skipped.example.org/x.schema.json#/A"))]);
    let mut schema = Schema::new("https://example.com/root.schema.json".to_string(), input);
    let storage = SchemaStorage::new();
    let r = Dereferencer::options()
        .with_skip_references(vec!["skipped.example.org".to_string()])
        .process(&mut schema, &storage);
    assert!(matches!(r, Ok(true)));
    let expected = obj(vec![("B", rf("https://skipped.example.org/x.schema.json#/A"))]);
    assert_same(schema.get_body(), &expected);
}

#[test]
fn empty_allof_is_kept_and_not_clean() {
    let input = obj(vec![("allOf", arr(vec![]))]);
    let mut schema = Schema::from_json(input);
    let storage = SchemaStorage::new();
    let r = Merger::options().process(&mut schema, &storage);
    assert!(matches!(r, Ok(false)));
    let expected = obj(vec![("allOf", arr(vec![]))]);
    assert_same(schema.get_body(), &expected);
}

#[test]
fn non_array_allof_is_kept_and_not_clean() {
    let input = obj(vec![("allOf", i(3))]);
    let mut schema = Schema::from_json(input);
    let storage = SchemaStorage::new();
    let r = Merger::options().process(&mut schema, &storage);
    assert!(matches!(r, Ok(false)));
    let expected = obj(vec![("allOf", i(3))]);
    assert_same(schema.get_body(), &expected);
}

#[test]
fn allof_ref_entry_is_resolved() {
    let input = obj(vec![
        ("definitions", obj(vec![("base", obj(vec![("type", s("object"))]))])),
        ("allOf", arr(vec![rf("#/definitions/base"), obj(vec![("title", s("T"))])])),
    ]);
    let mut schema = Schema::from_json(input);
    let storage = SchemaStorage::new();
    let r = Merger::options().process(&mut schema, &storage);
    assert!(matches!(r, Ok(true)));
    let expected = obj(vec![
        ("definitions", obj(vec![("base", obj(vec![("type", s("object"))]))])),
        ("type", s("object")),
        ("title", s("T")),
    ]);
    assert_same(schema.get_body(), &expected);
}

#[test]
fn filter_require_key_gates_the_fold() {
    let input = obj(vec![(
        "allOf",
        arr(vec![obj(vec![("type", s("object"))]), obj(vec![("maxItems", i(5))])]),
    )]);
    let mut schema = Schema::from_json(schematools::json::deep_copy(&input));
    let storage = SchemaStorage::new();
    let filter = schematools::filter::Filter::always().with_require_key("x-fold".to_string());
    let r = Merger::options().with_filter(filter).process(&mut schema, &storage);
    assert!(matches!(r, Ok(true)));
    // the node has no `x-fold` key, so the fold is skipped
    assert_same(schema.get_body(), &input);
}

#[test]
fn filter_keyword_matches_substring_of_key() {
    let input = obj(vec![
        ("x-ms-marker", i(1)),
        (
            "allOf",
            arr(vec![obj(vec![("type", s("object"))]), obj(vec![("maxItems", i(5))])]),
        ),
    ]);
    let mut schema = Schema::from_json(input);
    let storage = SchemaStorage::new();
    let filter = schematools::filter::Filter::always().with_keyword("x-ms-".to_string());
    let r = Merger::options().with_filter(filter).process(&mut schema, &storage);
    assert!(matches!(r, Ok(true)));
    let expected = obj(vec![("x-ms-marker", i(1)), ("type", s("object")), ("maxItems", i(5))]);
    assert_same(schema.get_body(), &expected);
}

#[test]
fn whole_document_reference_inlines_the_document() {
    let input = obj(vec![("B", rf("https://example.com/other.schema.json"))]);
    let mut schema = Schema::new("https://example.com/root.schema.json".to_string(), input);
    let mut storage = SchemaStorage::new();
    storage.insert(
        "https://example.com/other.schema.json".to_string(),
        obj(vec![("type", s("number"))]),
    );
    let r = Dereferencer::options().process(&mut schema, &storage);
    assert!(matches!(r, Ok(true)));
    let expected = obj(vec![("B", obj(vec![("type", s("number"))]))]);
    assert_same(schema.get_body(), &expected);
}

#[test]
fn allof_entry_resolves_across_documents() {
    let input = obj(vec![(
        "allOf",
        arr(vec![
            rf("base.schema.json#/definitions/base"),
            obj(vec![("title", s("T"))]),
        ]),
    )]);
    let mut schema = Schema::new("https://example.com/root.schema.json".to_string(), input);
    let mut storage = SchemaStorage::new();
    storage.insert(
        "https://example.com/base.schema.json".to_string(),
        obj(vec![(
            "definitions",
            obj(vec![("base", obj(vec![("type", s("object"))]))]),
        )]),
    );
    let r = Merger::options().process(&mut schema, &storage);
    assert!(matches!(r, Ok(true)));
    let expected = obj(vec![("type", s("object")), ("title", s("T"))]);
    assert_same(schema.get_body(), &expected);
}

#[test]
fn allof_self_reference_fails_with_cyclic_reference() {
    let input = obj(vec![("allOf", arr(vec![rf("#")]))]);
    let mut schema = Schema::from_json(input);
    let storage = SchemaStorage::new();
    let r = Merger::options().process(&mut schema, &storage);
    assert!(matches!(r, Err(Error::CyclicReference)));
}

#[test]
fn allof_entry_to_missing_document_is_load_failure() {
    let input = obj(vec![(
        "allOf",
        arr(vec![rf("https://example.com/absent.schema.json#/a")]),
    )]);
    let mut schema = Schema::new("https://example.com/root.schema.json".to_string(), input);
    let storage = SchemaStorage::new();
    let r = Merger::options().process(&mut schema, &storage);
    assert!(matches!(r, Err(Error::LoadFailure(_))));
}
