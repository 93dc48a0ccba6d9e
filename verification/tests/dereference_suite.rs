use schematools::dereference::Dereferencer;
use schematools::json::{json_eq, Json};
use schematools::storage::{Schema, SchemaStorage};

fn s(v: &str) -> Json {
    Json::Str(v.to_string())
}

fn i(v: i64) -> Json {
    Json::Num(v.to_string())
}

fn b(v: bool) -> Json {
    Json::Bool(v)
}

fn obj(entries: Vec<(&str, Json)>) -> Json {
    Json::Obj(entries.into_iter().map(|(k, v)| (k.to_string(), v)).collect())
}

fn arr(items: Vec<Json>) -> Json {
    Json::Arr(items)
}

fn rf(target: &str) -> Json {
    obj(vec![("$ref", s(target))])
}

const ROOT_URL: &str = "https://example.com/arrays.schema.json";

fn veggie() -> Json {
    obj(vec![
        ("type", s("object")),
        ("required", arr(vec![s("veggieName"), s("veggieLike")])),
        (
            "properties",
            obj(vec![
                (
                    "veggieName",
                    obj(vec![
                        ("type", s("string")),
                        ("description", s("The name of the vegetable.")),
                    ]),
                ),
                (
                    "veggieLike",
                    obj(vec![
                        ("type", s("boolean")),
                        ("description", s("Do I like this vegetable?")),
                    ]),
                ),
            ]),
        ),
    ])
}

#[test]
fn test_simple_with_reference() {
    let input = obj(vec![
        ("$id", s("https://example.com/arrays.schema.json")),
        ("$schema", s("http://json-schema.org/draft-07/schema#")),
        (
            "description",
            s("A representation of a person, company, organization, or place"),
        ),
        ("type", s("object")),
        (
            "properties",
            obj(vec![
                (
                    "fruits",
                    obj(vec![("type", s("array")), ("items", obj(vec![("type", s("string"))]))]),
                ),
                (
                    "vegetables",
                    obj(vec![("type", s("array")), ("items", rf("#/definitions/veggie"))]),
                ),
            ]),
        ),
        ("definitions", obj(vec![("veggie", veggie())])),
    ]);
    let mut schema = Schema::new(ROOT_URL.to_string(), input);
    let storage = SchemaStorage::new();
    let r = Dereferencer::options().process(&mut schema, &storage);
    assert!(matches!(r, Ok(true)));
    let expected = obj(vec![
        ("$id", s("https://example.com/arrays.schema.json")),
        ("$schema", s("http://json-schema.org/draft-07/schema#")),
        (
            "description",
            s("A representation of a person, company, organization, or place"),
        ),
        ("type", s("object")),
        (
            "properties",
            obj(vec![
                (
                    "fruits",
                    obj(vec![("type", s("array")), ("items", obj(vec![("type", s("string"))]))]),
                ),
                ("vegetables", obj(vec![("type", s("array")), ("items", veggie())])),
            ]),
        ),
        ("definitions", obj(vec![("veggie", veggie())])),
    ]);
    assert!(json_eq(schema.get_body(), &expected));
}

fn person_schema() -> Json {
    obj(vec![
        ("$id", s("https://example.com/person.schema.json")),
        ("$schema", s("http://json-schema.org/draft-07/schema#")),
        ("title", s("Person")),
        ("type", s("object")),
        (
            "properties",
            obj(vec![
                (
                    "firstName",
                    obj(vec![
                        ("type", s("string")),
                        ("description", s("The person's first name.")),
                    ]),
                ),
                (
                    "lastName",
                    obj(vec![
                        ("type", s("string")),
                        ("description", s("The person's last name.")),
                    ]),
                ),
                (
                    "age",
                    obj(vec![
                        (
                            "description",
                            s("Age in years which must be equal to or greater than zero."),
                        ),
                        ("type", s("integer")),
                        ("minimum", i(0)),
                    ]),
                ),
            ]),
        ),
    ])
}

#[test]
fn test_with_local_reference() {
    let input = obj(vec![
        ("$id", s("https://example.com/arrays.schema.json")),
        ("$schema", s("http://json-schema.org/draft-07/schema#")),
        (
            "description",
            s("A representation of a person, company, organization, or place"),
        ),
        ("type", s("object")),
        (
            "properties",
            obj(vec![
                (
                    "fruits",
                    obj(vec![("type", s("array")), ("items", obj(vec![("type", s("string"))]))]),
                ),
                (
                    "vegetables",
                    obj(vec![("type", s("array")), ("items", rf("person.schema.json"))]),
                ),
            ]),
        ),
    ]);
    let mut schema = Schema::new(ROOT_URL.to_string(), input);
    let mut storage = SchemaStorage::new();
    storage.insert("https://example.com/person.schema.json".to_string(), person_schema());
    let r = Dereferencer::options().process(&mut schema, &storage);
    assert!(matches!(r, Ok(true)));
    let expected = obj(vec![
        ("$id", s("https://example.com/arrays.schema.json")),
        ("$schema", s("http://json-schema.org/draft-07/schema#")),
        (
            "description",
            s("A representation of a person, company, organization, or place"),
        ),
        ("type", s("object")),
        (
            "properties",
            obj(vec![
                (
                    "fruits",
                    obj(vec![("type", s("array")), ("items", obj(vec![("type", s("string"))]))]),
                ),
                ("vegetables", obj(vec![("type", s("array")), ("items", person_schema())])),
            ]),
        ),
    ]);
    assert!(json_eq(schema.get_body(), &expected));
}

#[test]
fn test_simple_with_external_reference() {
    let input = obj(vec![
        ("$id", s("https://example.com/arrays.schema.json")),
        ("$schema", s("http://json-schema.org/draft-07/schema#")),
        ("description", s("Just a test")),
        ("type", s("object")),
        (
            "properties",
            obj(vec![(
                "contexts",
                obj(vec![
                    ("type", s("array")),
                    (
                        "items",
                        obj(vec![
                            ("$ref", s("string.schema.json")),
                            (
                                "description",
                                s("override the @context property to ensure the schema.org URI is used"),
                            ),
                        ]),
                    ),
                ]),
            )]),
        ),
    ]);
    let mut schema = Schema::new(ROOT_URL.to_string(), input);
    let mut storage = SchemaStorage::new();
    storage.insert(
        "https://example.com/string.schema.json".to_string(),
        obj(vec![
            ("type", s("string")),
            ("format", s("regex")),
            ("pattern", s("http://schema.org")),
        ]),
    );
    let r = Dereferencer::options().process(&mut schema, &storage);
    assert!(matches!(r, Ok(true)));
    let expected = obj(vec![
        ("$id", s("https://example.com/arrays.schema.json")),
        ("$schema", s("http://json-schema.org/draft-07/schema#")),
        ("description", s("Just a test")),
        ("type", s("object")),
        (
            "properties",
            obj(vec![(
                "contexts",
                obj(vec![
                    ("type", s("array")),
                    (
                        "items",
                        obj(vec![
                            ("type", s("string")),
                            ("format", s("regex")),
                            ("pattern", s("http://schema.org")),
                            (
                                "description",
                                s("override the @context property to ensure the schema.org URI is used"),
                            ),
                        ]),
                    ),
                ]),
            )]),
        ),
    ]);
    assert!(json_eq(schema.get_body(), &expected));
}

fn docker_object() -> Json {
    obj(vec![
        ("type", s("object")),
        (
            "properties",
            obj(vec![
                ("image", obj(vec![("type", s("string"))])),
                ("volumes", obj(vec![("type", s("object")), ("default", obj(vec![]))])),
                (
                    "use-default-volumes",
                    obj(vec![("type", s("boolean")), ("default", b(false))]),
                ),
            ]),
        ),
        ("required", arr(vec![s("image")])),
    ])
}

#[test]
fn test_with_nested_external_reference() {
    let input = obj(vec![
        ("$id", s("https://example.com/arrays.schema.json")),
        ("$schema", s("http://json-schema.org/draft-07/schema#")),
        ("description", s("Just a test")),
        ("type", s("object")),
        (
            "properties",
            obj(vec![(
                "contexts",
                obj(vec![
                    ("type", s("array")),
                    ("items", rf("docker.schema.json#/definitions/docker")),
                ]),
            )]),
        ),
    ]);
    let docker_doc = obj(vec![(
        "definitions",
        obj(vec![
            (
                "docker",
                obj(vec![
                    ("title", s("Docker")),
                    (
                        "description",
                        s("Builds and deployments are normally run on the Bamboo agent’s native operating system"),
                    ),
                    (
                        "anyOf",
                        arr(vec![
                            obj(vec![("type", s("string"))]),
                            rf("#/definitions/dockerObject"),
                        ]),
                    ),
                ]),
            ),
            ("dockerObject", docker_object()),
        ]),
    )]);
    let mut schema = Schema::new(ROOT_URL.to_string(), input);
    let mut storage = SchemaStorage::new();
    storage.insert("https://example.com/docker.schema.json".to_string(), docker_doc);
    let r = Dereferencer::options().process(&mut schema, &storage);
    assert!(matches!(r, Ok(true)));
    let expected = obj(vec![
        ("$id", s("https://example.com/arrays.schema.json")),
        ("$schema", s("http://json-schema.org/draft-07/schema#")),
        ("description", s("Just a test")),
        ("type", s("object")),
        (
            "properties",
            obj(vec![(
                "contexts",
                obj(vec![
                    ("type", s("array")),
                    (
                        "items",
                        obj(vec![
                            ("title", s("Docker")),
                            (
                                "description",
                                s("Builds and deployments are normally run on the Bamboo agent’s native operating system"),
                            ),
                            (
                                "anyOf",
                                arr(vec![obj(vec![("type", s("string"))]), docker_object()]),
                            ),
                        ]),
                    ),
                ]),
            )]),
        ),
    ]);
    assert!(json_eq(schema.get_body(), &expected));
}

#[test]
fn test_with_nested_remote_external_reference() {
    let input = obj(vec![
        ("$id", s("https://example.com/arrays.schema.json")),
        ("$schema", s("http://json-schema.org/draft-07/schema#")),
        ("description", s("Just a test")),
        ("type", s("object")),
        (
            "properties",
            obj(vec![(
                "contexts",
                obj(vec![
                    ("type", s("array")),
                    ("items", rf("contexts.schema.json#/definitions/context")),
                ]),
            )]),
        ),
    ]);
    let contexts_doc = obj(vec![(
        "definitions",
        obj(vec![("context", rf("names.schema.json#/definitions/names"))]),
    )]);
    let names_doc = obj(vec![(
        "definitions",
        obj(vec![("names", obj(vec![("enum", arr(vec![s("docker")]))]))]),
    )]);
    let mut schema = Schema::new(ROOT_URL.to_string(), input);
    let mut storage = SchemaStorage::new();
    storage.insert("https://example.com/contexts.schema.json".to_string(), contexts_doc);
    storage.insert("https://example.com/names.schema.json".to_string(), names_doc);
    let r = Dereferencer::options().process(&mut schema, &storage);
    assert!(matches!(r, Ok(true)));
    let expected = obj(vec![
        ("$id", s("https://example.com/arrays.schema.json")),
        ("$schema", s("http://json-schema.org/draft-07/schema#")),
        ("description", s("Just a test")),
        ("type", s("object")),
        (
            "properties",
            obj(vec![(
                "contexts",
                obj(vec![
                    ("type", s("array")),
                    ("items", obj(vec![("enum", arr(vec![s("docker")]))])),
                ]),
            )]),
        ),
    ]);
    assert!(json_eq(schema.get_body(), &expected));
}
