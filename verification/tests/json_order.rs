use borsh_cli::command::decode::Decode;
use borsh_cli::json::Json;

#[test]
fn ensure_key_order_is_preserved() {
    let s1 = r#"{
            "a": 1,
            "b": 1,
            "c": 1,
            "d": 1,
            "e": 1,
            "f": 1
        }"#;
    let s2 = r#"{
            "f": 1,
            "e": 1,
            "d": 1,
            "c": 1,
            "b": 1,
            "a": 1
        }"#;

    let v1 = serde_json::from_str::<serde_json::Value>(s1).unwrap();
    let v2 = serde_json::from_str::<serde_json::Value>(s2).unwrap();

    assert_eq!(v1, v2);

    let (o1, o2) = match (v1, v2) {
        (serde_json::Value::Object(o1), serde_json::Value::Object(o2)) => (o1, o2),
        _ => unreachable!(),
    };

    let k1 = o1.keys().collect::<Vec<_>>();
    let k2 = o2.keys().collect::<Vec<_>>();

    assert_ne!(k1, k2);
}

#[test]
fn a_decoded_object_has_its_keys_in_the_order_of_the_fields() {
    // { f: u8, e: u8, a: u8 } behind its schema, as borsh writes the two.
    let container = borsh::schema::BorshSchemaContainer {
        declaration: "S".to_string(),
        definitions: [(
            "S".to_string(),
            borsh::schema::Definition::Struct {
                fields: borsh::schema::Fields::NamedFields(vec![
                    ("f".to_string(), "u8".to_string()),
                    ("e".to_string(), "u8".to_string()),
                    ("a".to_string(), "u8".to_string()),
                ]),
            },
        )]
        .into_iter()
        .collect(),
    };
    let mut input = borsh::to_vec(&container).unwrap();
    input.extend([1u8, 2, 3]);
    let mut p = Decode { input, output: None, pretty: false };
    p.execute().unwrap();
    let keys = match p.output {
        Some(Json::Object(entries)) => entries.into_iter().map(|(k, _)| k).collect::<Vec<_>>(),
        _ => unreachable!(),
    };
    assert_eq!(vec!["f", "e", "a"], keys);
}
