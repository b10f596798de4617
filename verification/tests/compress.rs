use borsh_cli::compress_schema::{compress_schema, next_name};
use borsh_cli::container::{deserialize_schema, serialize_schema};
use borsh_cli::dynamic_schema::deserialize_from_schema;
use borsh_cli::json::{Json, Number};
use borsh_cli::schema::{Definition, Fields, Schema};

fn text(s: &str) -> String {
    s.to_string()
}

fn named(fields: &[(&str, &str)]) -> Definition {
    Definition::Struct {
        fields: Fields::NamedFields(fields.iter().map(|(n, d)| (text(n), text(d))).collect()),
    }
}

/// The schema that borsh derives for `Hello { number: i32, string: String,
/// child: Child, child2: Child, child3: Child }` with `Child { number: i32,
/// string: String }`.
fn hello_schema() -> Schema {
    Schema {
        declaration: text("Hello"),
        definitions: vec![
            (text("Child"), named(&[("number", "i32"), ("string", "string")])),
            (
                text("Hello"),
                named(&[
                    ("number", "i32"),
                    ("string", "string"),
                    ("child", "Child"),
                    ("child2", "Child"),
                    ("child3", "Child"),
                ]),
            ),
        ],
    }
}

fn child_json(number: u64, string: &str) -> Json {
    Json::Object(vec![
        (text("number"), Json::Number(Number::PosInt(number))),
        (text("string"), Json::String(text(string))),
    ])
}

#[test]
fn compress_schema_test() {
    let chars = (0..1000)
        .filter_map(|i: u32| char::from_u32(i).map(|c| c.to_string()))
        .collect::<Vec<_>>();
    println!("{:?}", chars);

    let mut code = 0u32;
    let names = (0..1000).map(|_| next_name(&mut code)).collect::<Vec<_>>();
    assert_eq!(chars, names);
    assert_eq!(1000, code);
}

#[test]
fn test2() {
    let schema_container = hello_schema();
    println!("{schema_container:?}");
    let compressed = compress_schema(&schema_container).unwrap();
    println!("{compressed:?}");

    // Hello { number: 6, string: "my string", child: Child { number: 108,
    // string: "boom chakalaka" }, child2 and child3 at their defaults }
    let value = (
        6i32,
        text("my string"),
        (108i32, text("boom chakalaka")),
        (0i32, text("")),
        (0i32, text("")),
    );

    let mut normal_serialization = vec![];
    assert!(serialize_schema(&mut normal_serialization, &schema_container));
    println!("normal serialization length: {}", normal_serialization.len());
    let (normal_deserialized, _) = deserialize_schema(&normal_serialization, 0).unwrap();
    assert_eq!(normal_deserialized, schema_container);

    let mut compressed_serialization = vec![];
    assert!(serialize_schema(&mut compressed_serialization, &compressed));
    println!("normal serialization length: {}", compressed_serialization.len());
    let (compressed_deserialized, _) = deserialize_schema(&compressed_serialization, 0).unwrap();

    let serialized_value = borsh::to_vec(&value).unwrap();
    let mut buf = &serialized_value as &[u8];
    let deserialized_with_schema =
        deserialize_from_schema(&mut buf, &compressed_deserialized).unwrap();

    assert_eq!(
        deserialized_with_schema,
        Json::Object(vec![
            (text("number"), Json::Number(Number::PosInt(6))),
            (text("string"), Json::String(text("my string"))),
            (text("child"), child_json(108, "boom chakalaka")),
            (text("child2"), child_json(0, "")),
            (text("child3"), child_json(0, "")),
        ])
    );
    assert!(buf.is_empty());
}

#[test]
fn compressed_schema_has_names_of_one_character() {
    let compressed = compress_schema(&hello_schema()).unwrap();
    assert_eq!(
        compressed,
        Schema {
            declaration: text("\u{0}"),
            definitions: vec![
                (
                    text("\u{0}"),
                    named(&[
                        ("number", "i32"),
                        ("string", "string"),
                        ("child", "\u{1}"),
                        ("child2", "\u{1}"),
                        ("child3", "\u{1}"),
                    ]),
                ),
                (text("\u{1}"), named(&[("number", "i32"), ("string", "string")])),
            ],
        }
    );
}

#[test]
fn next_name_passes_over_what_is_no_character() {
    let mut code = 0xD7FF;
    assert_eq!("\u{D7FF}", next_name(&mut code));
    assert_eq!(0xD800, code);
    assert_eq!("\u{E000}", next_name(&mut code));
    assert_eq!(0xE001, code);
    let mut code = 0x10FFFF;
    assert_eq!("\u{10FFFF}", next_name(&mut code));
    assert_eq!(0x110000, code);
}

#[test]
fn a_primitive_root_stays_as_it_is() {
    let schema = Schema { declaration: text("u32"), definitions: vec![] };
    assert_eq!(Some(schema.clone()), compress_schema(&schema));
}

#[test]
fn a_type_that_names_itself_is_renamed_once() {
    let schema = Schema {
        declaration: text("List"),
        definitions: vec![(
            text("List"),
            Definition::Enum {
                variants: vec![(text("Nil"), text("Unit")), (text("Cons"), text("Cell"))],
            },
        ), (
            text("Cell"),
            Definition::Tuple { elements: vec![text("u8"), text("List")] },
        ), (
            text("Unit"),
            Definition::Struct { fields: Fields::Empty },
        )],
    };
    let compressed = compress_schema(&schema).unwrap();
    assert_eq!(
        compressed,
        Schema {
            declaration: text("\u{0}"),
            definitions: vec![
                (
                    text("\u{0}"),
                    Definition::Enum {
                        variants: vec![(text("Nil"), text("\u{2}")), (text("Cons"), text("\u{1}"))],
                    },
                ),
                (text("\u{1}"), Definition::Tuple { elements: vec![text("u8"), text("\u{0}")] }),
                (text("\u{2}"), Definition::Struct { fields: Fields::Empty }),
            ],
        }
    );
}
