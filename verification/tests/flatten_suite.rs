use schematools::flatten::Merger;
use schematools::json::{json_eq, Json};
use schematools::storage::{Schema, SchemaStorage};

fn s(v: &str) -> Json {
    Json::Str(v.to_string())
}

fn i(v: i64) -> Json {
    Json::Num(v.to_string())
}

fn obj(entries: Vec<(&str, Json)>) -> Json {
    Json::Obj(entries.into_iter().map(|(k, v)| (k.to_string(), v)).collect())
}

fn arr(items: Vec<Json>) -> Json {
    Json::Arr(items)
}

fn run(input: Json) -> Json {
    let mut schema = Schema::from_json(input);
    let storage = SchemaStorage::new();
    let r = Merger::options().process(&mut schema, &storage);
    assert!(matches!(r, Ok(true)));
    schematools::json::deep_copy(schema.get_body())
}

#[test]
fn test_merge_soft_single() {
    let input = obj(vec![(
        "allOf",
        arr(vec![obj(vec![
            ("type", s("object")),
            ("properties", obj(vec![("a", obj(vec![("type", s("string"))]))])),
        ])]),
    )]);
    let expected = obj(vec![
        ("type", s("object")),
        ("properties", obj(vec![("a", obj(vec![("type", s("string"))]))])),
    ]);
    assert!(json_eq(&run(input), &expected));
}

#[test]
fn test_merge_soft_double() {
    let input = obj(vec![
        ("title", s("T")),
        (
            "allOf",
            arr(vec![
                obj(vec![(
                    "properties",
                    obj(vec![("a", obj(vec![("type", s("string"))]))]),
                )]),
                obj(vec![(
                    "properties",
                    obj(vec![("b", obj(vec![("type", s("integer"))]))]),
                )]),
            ]),
        ),
    ]);
    let expected = obj(vec![
        ("title", s("T")),
        (
            "properties",
            obj(vec![
                ("a", obj(vec![("type", s("string"))])),
                ("b", obj(vec![("type", s("integer"))])),
            ]),
        ),
    ]);
    assert!(json_eq(&run(input), &expected));
}

#[test]
fn test_merge_soft_props_only() {
    let input = obj(vec![
        ("type", s("object")),
        ("properties", obj(vec![("x", obj(vec![("type", s("boolean"))]))])),
    ]);
    let expected = obj(vec![
        ("type", s("object")),
        ("properties", obj(vec![("x", obj(vec![("type", s("boolean"))]))])),
    ]);
    assert!(json_eq(&run(input), &expected));
}

#[test]
fn test_merge_soft_complex() {
    let input = obj(vec![(
        "allOf",
        arr(vec![
            obj(vec![
                ("type", s("object")),
                ("required", arr(vec![s("a")])),
                (
                    "properties",
                    obj(vec![(
                        "a",
                        obj(vec![(
                            "allOf",
                            arr(vec![
                                obj(vec![("type", s("string"))]),
                                obj(vec![("minLength", i(1))]),
                            ]),
                        )]),
                    )]),
                ),
            ]),
            obj(vec![("required", arr(vec![s("b")]))]),
        ]),
    )]);
    let expected = obj(vec![
        ("type", s("object")),
        ("required", arr(vec![s("a"), s("b")])),
        (
            "properties",
            obj(vec![("a", obj(vec![("type", s("string")), ("minLength", i(1))]))]),
        ),
    ]);
    assert!(json_eq(&run(input), &expected));
}
