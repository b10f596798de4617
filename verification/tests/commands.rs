use std::collections::HashMap;

use borsh::schema::{BorshSchemaContainer, Definition as BorshDefinition, Fields as BorshFields};
use borsh::{BorshDeserialize, BorshSchema, BorshSerialize};
use borsh_cli::command::decode::Decode;
use borsh_cli::command::encode::Encode;
use borsh_cli::command::extract::Extract;
use borsh_cli::command::pack::Pack;
use borsh_cli::command::strip::Strip;
use borsh_cli::command::unpack::Unpack;
use borsh_cli::command::decode::DecodeArgs;
use borsh_cli::command::encode::EncodeArgs;
use borsh_cli::command::extract::ExtractArgs;
use borsh_cli::command::pack::PackArgs;
use borsh_cli::command::strip::StripArgs;
use borsh_cli::command::unpack::UnpackArgs;
use borsh_cli::command::{Command, IOError, Outcome};
use borsh_cli::container::serialize_schema;
use borsh_cli::json::{Json, Number};
use borsh_cli::schema::{Definition, Fields, Schema};

fn text(s: &str) -> String {
    s.to_string()
}

/// The schema that borsh derives for
/// `Parent { integer: u32, vector: [u8; 8], child: Child }` with
/// `Child { string: String, boolean: bool }`.
fn parent_container() -> BorshSchemaContainer {
    let mut definitions = HashMap::new();
    definitions.insert(
        text("Parent"),
        BorshDefinition::Struct {
            fields: BorshFields::NamedFields(vec![
                (text("integer"), text("u32")),
                (text("vector"), text("Array<u8, 8>")),
                (text("child"), text("Child")),
            ]),
        },
    );
    definitions.insert(
        text("Array<u8, 8>"),
        BorshDefinition::Array { length: 8, elements: text("u8") },
    );
    definitions.insert(
        text("Child"),
        BorshDefinition::Struct {
            fields: BorshFields::NamedFields(vec![
                (text("string"), text("string")),
                (text("boolean"), text("bool")),
            ]),
        },
    );
    BorshSchemaContainer { declaration: text("Parent"), definitions }
}

/// The same schema in the library's own type, its definitions in the order
/// of their names.
fn parent_schema() -> Schema {
    Schema {
        declaration: text("Parent"),
        definitions: vec![
            (text("Array<u8, 8>"), Definition::Array { length: 8, elements: text("u8") }),
            (
                text("Child"),
                Definition::Struct {
                    fields: Fields::NamedFields(vec![
                        (text("string"), text("string")),
                        (text("boolean"), text("bool")),
                    ]),
                },
            ),
            (
                text("Parent"),
                Definition::Struct {
                    fields: Fields::NamedFields(vec![
                        (text("integer"), text("u32")),
                        (text("vector"), text("Array<u8, 8>")),
                        (text("child"), text("Child")),
                    ]),
                },
            ),
        ],
    }
}

/// The value `Parent { integer: 24, vector: [8, 7, .., 1], child: Child {
/// string: "()", boolean: false } }` as borsh writes it.
fn parent_bytes() -> Vec<u8> {
    let value = (24u32, [8u8, 7, 6, 5, 4, 3, 2, 1], (text("()"), false));
    borsh::to_vec(&value).unwrap()
}

/// The same value behind its schema, as borsh writes the two.
fn parent_bytes_with_schema() -> Vec<u8> {
    let mut all = borsh::to_vec(&parent_container()).unwrap();
    all.extend(parent_bytes());
    all
}

fn whole(n: u64) -> Json {
    Json::Number(Number::PosInt(n))
}

/// The same value as the JSON document that serde makes of it.
fn parent_json() -> Json {
    Json::Object(vec![
        (text("integer"), whole(24)),
        (
            text("vector"),
            Json::Array(vec![whole(8), whole(7), whole(6), whole(5), whole(4), whole(3), whole(2), whole(1)]),
        ),
        (
            text("child"),
            Json::Object(vec![
                (text("string"), Json::String(text("()"))),
                (text("boolean"), Json::Bool(false)),
            ]),
        ),
    ])
}

#[test]
fn decode_test() {
    let mut p = Decode { input: parent_bytes_with_schema(), output: None, pretty: false };

    p.execute().unwrap();

    let expected = parent_json();

    assert_eq!(Some(expected), p.output);
}

#[test]
fn encode_with_schema() {
    let mut p = Encode { input: parent_json(), output: vec![], schema: Some(parent_schema()) };

    p.execute().unwrap();

    let expected = parent_bytes_with_schema();

    assert_eq!(expected, p.output);
}

#[test]
fn encode_without_schema() {
    let mut p = Encode { input: parent_json(), output: vec![], schema: None };

    p.execute().unwrap();

    // Without a schema an integer that is not negative is written as one of
    // 64 bits, an array as a sequence, and of an object only the values.
    let expected = borsh::to_vec(&(
        24u64,
        vec![8u64, 7, 6, 5, 4, 3, 2, 1],
        (text("()"), false),
    ))
    .unwrap();

    assert_eq!(expected, p.output);
}

#[test]
fn extract_test() {
    let mut p = Extract { input: parent_bytes_with_schema(), output: vec![] };

    p.execute().unwrap();

    let expected = parent_container();

    assert_eq!(expected, BorshSchemaContainer::try_from_slice(&p.output).unwrap());
}

#[test]
fn pack_with_schema() {
    let test_vector = vec![1u8, 2, 3, 4];

    let mut p = Pack { input: test_vector.clone(), output: vec![], no_schema: false };

    p.execute().unwrap();

    let expected = borsh::try_to_vec_with_schema(&test_vector).unwrap();

    assert_eq!(expected, p.output);
}

#[test]
fn pack_without_schema() {
    let test_vector = vec![1u8, 2, 3, 4];

    let mut p = Pack { input: test_vector.clone(), output: vec![], no_schema: true };

    p.execute().unwrap();

    let expected = borsh::to_vec(&test_vector).unwrap();

    assert_eq!(expected, p.output);
}

#[test]
fn strip_test() {
    let mut p = Strip { input: parent_bytes_with_schema(), output: vec![] };

    p.execute().unwrap();

    let value =
        <(u32, [u8; 8], (String, bool))>::try_from_slice(&p.output).unwrap();

    assert_eq!((24u32, [8u8, 7, 6, 5, 4, 3, 2, 1], (text("()"), false)), value);
}

#[test]
fn unpack_with_schema() {
    let test_vector = vec![1u8, 2, 3, 4];

    let mut p = Unpack {
        input: borsh::try_to_vec_with_schema(&test_vector).unwrap(),
        output: vec![],
        no_schema: false,
    };

    p.execute().unwrap();

    assert_eq!(test_vector, p.output);
}

#[test]
fn unpack_without_schema() {
    let test_vector = vec![1u8, 2, 3, 4];

    let mut p = Unpack {
        input: borsh::to_vec(&test_vector).unwrap(),
        output: vec![],
        no_schema: true,
    };

    p.execute().unwrap();

    assert_eq!(test_vector, p.output);
}

#[test]
fn pack_writes_the_schema_of_a_byte_vector_and_the_bytes() {
    let mut p = Pack { input: vec![1u8, 2, 3, 4], output: vec![], no_schema: false };
    p.execute().unwrap();
    let mut expected = borsh::to_vec(&Vec::<u8>::schema_container()).unwrap();
    expected.extend([4u8, 0, 0, 0, 1, 2, 3, 4]);
    assert_eq!(expected, p.output);
}

#[test]
fn pack_without_schema_writes_length_and_bytes() {
    let mut p = Pack { input: vec![1u8, 2, 3, 4], output: vec![], no_schema: true };
    p.execute().unwrap();
    assert_eq!(vec![4u8, 0, 0, 0, 1, 2, 3, 4], p.output);
}

#[test]
fn unpack_refuses_another_schema() {
    let mut input = borsh::to_vec(&parent_container()).unwrap();
    input.extend([0u8, 0, 0, 0]);
    let mut p = Unpack { input, output: vec![9], no_schema: false };
    assert_eq!(Err(IOError::IncorrectBorshSchemaHeader(text("Parent"))), p.execute());
    assert_eq!(vec![9u8], p.output);
}

#[test]
fn unpack_refuses_bytes_left_over() {
    let mut p = Unpack { input: vec![1u8, 0, 0, 0, 7, 7], output: vec![], no_schema: true };
    assert_eq!(Err(IOError::DeserializeBorsh("byte array")), p.execute());
    let mut input = borsh::try_to_vec_with_schema(&vec![1u8]).unwrap();
    input.push(0);
    let mut p = Unpack { input, output: vec![], no_schema: false };
    assert_eq!(Err(IOError::DeserializeBorsh("byte array with schema headers")), p.execute());
}

#[test]
fn strip_and_extract_refuse_what_begins_with_no_schema() {
    let mut p = Strip { input: vec![1u8, 2], output: vec![] };
    assert_eq!(Err(IOError::DeserializeBorsh("schema")), p.execute());
    let mut p = Extract { input: vec![1u8, 2], output: vec![] };
    assert_eq!(Err(IOError::DeserializeBorsh("schema")), p.execute());
    let mut p = Decode { input: vec![1u8, 2], output: None, pretty: true };
    assert_eq!(Err(IOError::DeserializeBorsh("schema")), p.execute());
}

#[test]
fn decode_refuses_data_that_ends_early() {
    let mut input = parent_bytes_with_schema();
    input.pop();
    let mut p = Decode { input, output: None, pretty: false };
    assert_eq!(
        Err(IOError::DeserializeBorsh("data according to embedded schema")),
        p.execute()
    );
    assert_eq!(None, p.output);
}

#[test]
fn extract_and_strip_give_the_two_parts_of_a_blob() {
    let blob = parent_bytes_with_schema();
    let mut e = Extract { input: blob.clone(), output: vec![] };
    e.execute().unwrap();
    let mut s = Strip { input: blob.clone(), output: vec![] };
    s.execute().unwrap();
    assert_eq!(borsh::to_vec(&parent_container()).unwrap(), e.output);
    assert_eq!(parent_bytes(), s.output);
    let mut both = e.output.clone();
    both.extend(s.output);
    assert_eq!(blob, both);
}

#[test]
fn encode_of_null_without_schema_is_one_zero_byte() {
    let mut p = Encode { input: Json::Null, output: vec![], schema: None };
    p.execute().unwrap();
    assert_eq!(vec![0u8], p.output);
}

#[test]
fn encode_refuses_a_document_of_another_shape() {
    let mut p = Encode { input: Json::Null, output: vec![5], schema: Some(parent_schema()) };
    assert_eq!(Err(IOError::WriteBorsh), p.execute());
    assert_eq!(vec![5u8], p.output);
}

#[test]
fn encode_reads_its_schema_from_bytes() {
    let bytes = borsh::to_vec(&parent_container()).unwrap();
    let run = Encode::new(parent_json(), Some(&bytes)).unwrap();
    assert_eq!(Some(parent_schema()), run.schema);
    let refused = Encode::new(Json::Null, Some(&[1u8, 2][..]));
    assert_eq!(Some(IOError::DeserializeBorsh("schema header")), refused.err());
    assert_eq!(None, Encode::new(Json::Null, None).unwrap().schema);
}

#[test]
fn messages_are_those_of_the_errors() {
    assert_eq!("Failed to write Borsh", IOError::WriteBorsh.message());
    assert_eq!(
        "Failed to deserialize input as Borsh schema",
        IOError::DeserializeBorsh("schema").message()
    );
    assert_eq!(
        "Unexpected schema header: Parent",
        IOError::IncorrectBorshSchemaHeader(text("Parent")).message()
    );
    assert_eq!("Failed to read input file a.bin", IOError::ReadInputFile(text("a.bin")).message());
}

#[test]
fn output_bytes_appends_to_the_sink() {
    let mut sink = vec![1u8, 2];
    assert_eq!(Ok(()), borsh_cli::command::output_bytes(&mut sink, &[3, 4]));
    assert_eq!(vec![1u8, 2, 3, 4], sink);
    assert_eq!(Ok(()), borsh_cli::command::output_bytes(&mut sink, &[]));
    assert_eq!(vec![1u8, 2, 3, 4], sink);
}

#[test]
fn extract_of_what_extract_gave_is_the_same() {
    let mut first = Extract { input: parent_bytes_with_schema(), output: vec![] };
    first.execute().unwrap();
    let mut input = first.output.clone();
    input.extend([9u8, 9, 9]);
    let mut second = Extract { input, output: vec![] };
    second.execute().unwrap();
    assert_eq!(first.output, second.output);
}

#[test]
fn decode_reads_back_what_encode_wrote() {
    let mut written = Encode { input: parent_json(), output: vec![], schema: Some(parent_schema()) };
    written.execute().unwrap();
    let mut read = Decode { input: written.output, output: None, pretty: false };
    read.execute().unwrap();
    assert_eq!(Some(parent_json()), read.output);
}

#[test]
fn a_command_runs_on_its_input() {
    let pack = Command::Pack(PackArgs { input_path: None, output_path: None, no_schema: true });
    assert_eq!(None, *pack.input_path());
    assert_eq!(None, *pack.output_path());
    assert_eq!(
        Ok(Outcome::Bytes(vec![2, 0, 0, 0, 7, 8])),
        pack.run(vec![7, 8], None, None)
    );

    let unpack = Command::Unpack(UnpackArgs {
        input_path: Some(text("in")),
        output_path: Some(text("out")),
        no_schema: true,
    });
    assert_eq!(Some(text("in")), *unpack.input_path());
    assert_eq!(Some(text("out")), *unpack.output_path());
    assert_eq!(Ok(Outcome::Bytes(vec![7, 8])), unpack.run(vec![2, 0, 0, 0, 7, 8], None, None));
    assert_eq!(Err(IOError::DeserializeBorsh("byte array")), unpack.run(vec![2], None, None));

    let strip = Command::Strip(StripArgs { input: Some(text("a")), output: None });
    assert_eq!(Some(text("a")), *strip.input_path());
    assert_eq!(Ok(Outcome::Bytes(parent_bytes())), strip.run(parent_bytes_with_schema(), None, None));

    let extract = Command::Extract(ExtractArgs { input: None, output: Some(text("b")) });
    assert_eq!(Some(text("b")), *extract.output_path());
    assert_eq!(
        Ok(Outcome::Bytes(borsh::to_vec(&parent_container()).unwrap())),
        extract.run(parent_bytes_with_schema(), None, None)
    );

    let decode = Command::Decode(DecodeArgs { input_path: None, output_path: None, pretty: true });
    assert_eq!(
        Ok(Outcome::Document { value: parent_json(), pretty: true }),
        decode.run(parent_bytes_with_schema(), None, None)
    );
}

#[test]
fn encode_runs_on_the_document_that_its_input_holds() {
    let encode = Command::Encode(EncodeArgs {
        input_path: None,
        output_path: None,
        schema: Some(text("schema.bin")),
    });
    let schema = borsh::to_vec(&parent_container()).unwrap();
    assert_eq!(
        Ok(Outcome::Bytes(parent_bytes_with_schema())),
        encode.run(vec![], Some(parent_json()), Some(&schema))
    );
    assert_eq!(Err(IOError::DeserializeJson), encode.run(vec![], None, Some(&schema)));
    assert_eq!(
        Err(IOError::DeserializeBorsh("schema header")),
        encode.run(vec![], Some(parent_json()), Some(&[1, 2, 3]))
    );
    assert_eq!(Err(IOError::WriteBorsh), encode.run(vec![], Some(Json::Null), Some(&schema)));
    assert_eq!(Ok(Outcome::Bytes(vec![0])), encode.run(vec![], Some(Json::Null), None));
    assert_eq!("Failed to deserialize input as JSON", IOError::DeserializeJson.message());
}

/// `Struct { integer: u32, child: Struct { s: string, b: bool } }`.
fn outer_schema() -> Schema {
    Schema {
        declaration: text("Outer"),
        definitions: vec![
            (
                text("Inner"),
                Definition::Struct {
                    fields: Fields::NamedFields(vec![
                        (text("s"), text("string")),
                        (text("b"), text("bool")),
                    ]),
                },
            ),
            (
                text("Outer"),
                Definition::Struct {
                    fields: Fields::NamedFields(vec![
                        (text("integer"), text("u32")),
                        (text("child"), text("Inner")),
                    ]),
                },
            ),
        ],
    }
}

/// `{"integer":24,"child":{"s":"()","b":false}}`.
fn outer_json() -> Json {
    Json::Object(vec![
        (text("integer"), whole(24)),
        (
            text("child"),
            Json::Object(vec![
                (text("s"), Json::String(text("()"))),
                (text("b"), Json::Bool(false)),
            ]),
        ),
    ])
}

const OUTER_BYTES: [u8; 11] = [0x18, 0, 0, 0, 2, 0, 0, 0, 0x28, 0x29, 0];

#[test]
fn encode_writes_the_schema_and_the_fields_in_their_order() {
    let mut schema_bytes = vec![];
    assert!(serialize_schema(&mut schema_bytes, &outer_schema()));
    let mut p = Encode { input: outer_json(), output: vec![], schema: Some(outer_schema()) };
    p.execute().unwrap();
    assert_eq!(schema_bytes, p.output[..schema_bytes.len()]);
    assert_eq!(OUTER_BYTES, p.output[schema_bytes.len()..]);
}

#[test]
fn decode_gives_the_fields_under_their_names() {
    let mut input = vec![];
    assert!(serialize_schema(&mut input, &outer_schema()));
    input.extend(OUTER_BYTES);
    let mut p = Decode { input, output: None, pretty: false };
    p.execute().unwrap();
    let entries = match &p.output {
        Some(Json::Object(entries)) => entries,
        other => panic!("{other:?}"),
    };
    assert_eq!(vec!["integer", "child"], entries.iter().map(|(k, _)| k.as_str()).collect::<Vec<_>>());
    assert_eq!(Some(outer_json()), p.output);
}

#[test]
fn strip_gives_the_bytes_behind_the_schema() {
    let mut input = vec![];
    assert!(serialize_schema(&mut input, &outer_schema()));
    input.extend(OUTER_BYTES);
    let mut p = Strip { input, output: vec![] };
    p.execute().unwrap();
    assert_eq!(OUTER_BYTES.to_vec(), p.output);
}
