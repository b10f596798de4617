use std::collections::HashMap;

use borsh::schema::{BorshSchemaContainer, Definition as D, Fields as F};
use borsh_cli::compress_schema::compress_schema;
use borsh_cli::container::{deserialize_schema, fits, serialize_schema};
use borsh_cli::decimal::{parse_i128, parse_u128, signed_to_decimal, unsigned_to_decimal};
use borsh_cli::dynamic_schema::decoding::{
    deserialize_declaration_from_schema, deserialize_from_schema,
};
use borsh_cli::dynamic_schema::encoding::{
    serialize_declaration_with_schema, serialize_with_schema,
};
use borsh_cli::dynamic_schema::{DecodeError, EncodeError, ExpectationError};
use borsh_cli::float::{narrow, natural_to_double, number_to_double, widen};
use borsh_cli::json::{Json, Number};
use borsh_cli::json_borsh::JsonSerializableAsBorsh;
use borsh_cli::schema::{place, primitive, Definition, Fields, Primitive, Schema};
use borsh_cli::text::{comes_before, same_text};

fn text(s: &str) -> String {
    s.to_string()
}

fn whole(n: u64) -> Json {
    Json::Number(Number::PosInt(n))
}

fn float(x: f64) -> Json {
    Json::Number(Number::Float(x.to_bits()))
}

fn string(s: &str) -> Json {
    Json::String(text(s))
}

fn object(entries: &[(&str, Json)]) -> Json {
    Json::Object(entries.iter().map(|(k, v)| (text(k), copy(v))).collect())
}

fn copy(value: &Json) -> Json {
    match value {
        Json::Null => Json::Null,
        Json::Bool(b) => Json::Bool(*b),
        Json::Number(n) => Json::Number(*n),
        Json::String(s) => Json::String(s.clone()),
        Json::Array(items) => Json::Array(items.iter().map(copy).collect()),
        Json::Object(entries) => {
            Json::Object(entries.iter().map(|(k, v)| (k.clone(), copy(v))).collect())
        }
    }
}

/// A schema whose root is `declaration`, with the given definitions.
fn schema(declaration: &str, definitions: Vec<(&str, Definition)>) -> Schema {
    Schema {
        declaration: text(declaration),
        definitions: definitions.into_iter().map(|(n, d)| (text(n), d)).collect(),
    }
}

fn named(fields: &[(&str, &str)]) -> Definition {
    Definition::Struct {
        fields: Fields::NamedFields(fields.iter().map(|(n, d)| (text(n), text(d))).collect()),
    }
}

fn unnamed(fields: &[&str]) -> Definition {
    Definition::Struct {
        fields: Fields::UnnamedFields(fields.iter().map(|d| text(d)).collect()),
    }
}

fn variants(list: &[(&str, &str)]) -> Definition {
    Definition::Enum { variants: list.iter().map(|(n, d)| (text(n), text(d))).collect() }
}

fn encode(value: &Json, schema: &Schema) -> Result<Vec<u8>, EncodeError> {
    let mut out = vec![0xEE];
    serialize_with_schema(&mut out, value, schema)?;
    assert_eq!(0xEE, out[0]);
    Ok(out[1..].to_vec())
}

fn decode(bytes: &[u8], schema: &Schema) -> Result<Json, DecodeError> {
    let mut buf = bytes;
    let value = deserialize_from_schema(&mut buf, schema)?;
    assert!(buf.is_empty());
    Ok(value)
}

fn of(declaration: &str) -> Schema {
    schema(declaration, vec![])
}

fn nested() -> Schema {
    schema(
        "Outer",
        vec![
            ("Inner", named(&[("s", "string"), ("b", "bool")])),
            ("Outer", named(&[("integer", "u32"), ("child", "Inner")])),
        ],
    )
}

#[test]
fn a_struct_in_a_struct_is_written_field_by_field() {
    let value = object(&[
        ("integer", whole(24)),
        ("child", object(&[("s", string("()")), ("b", Json::Bool(false))])),
    ]);
    let bytes = encode(&value, &nested()).unwrap();
    assert_eq!(vec![0x18, 0, 0, 0, 2, 0, 0, 0, 0x28, 0x29, 0], bytes);
    assert_eq!(Ok(value), decode(&bytes, &nested()));
}

#[test]
fn keys_may_come_in_any_order_and_more_than_asked() {
    let value = object(&[
        ("extra", Json::Null),
        ("child", object(&[("b", Json::Bool(true)), ("s", string("x"))])),
        ("integer", whole(1)),
    ]);
    let bytes = encode(&value, &nested()).unwrap();
    assert_eq!(vec![1, 0, 0, 0, 1, 0, 0, 0, b'x', 1], bytes);
    let back = decode(&bytes, &nested()).unwrap();
    assert_eq!(
        object(&[
            ("integer", whole(1)),
            ("child", object(&[("s", string("x")), ("b", Json::Bool(true))])),
        ]),
        back
    );
}

#[test]
fn a_missing_key_is_named() {
    let value = object(&[("integer", whole(1))]);
    assert_eq!(Err(EncodeError::MissingProperty(text("child"))), encode(&value, &nested()));
    assert_eq!("Expected object", ExpectationError::Object.message());
    assert_eq!(
        Err(EncodeError::Expectation(ExpectationError::Object)),
        encode(&whole(1), &nested())
    );
}

#[test]
fn a_variant_is_written_as_its_place_and_its_payload() {
    let s = schema(
        "E",
        vec![
            ("E", variants(&[("A", "Unit"), ("B", "u16"), ("C", "string")])),
            ("Unit", Definition::Struct { fields: Fields::Empty }),
        ],
    );
    let bytes = encode(&object(&[("B", whole(0x0102))]), &s).unwrap();
    assert_eq!(vec![1, 2, 1], bytes);
    assert_eq!(Ok(object(&[("B", whole(0x0102))])), decode(&bytes, &s));

    assert_eq!(vec![0u8], encode(&string("A"), &s).unwrap());
    assert_eq!(Ok(object(&[("A", Json::Array(vec![]))])), decode(&[0], &s));
    assert_eq!(vec![0u8], encode(&object(&[("A", Json::Null)]), &s).unwrap());

    assert_eq!(Err(EncodeError::UnknownVariant(text("D"))), encode(&string("D"), &s));
    assert_eq!(
        Err(EncodeError::Expectation(ExpectationError::Object)),
        encode(&object(&[("A", Json::Null), ("B", whole(1))]), &s)
    );
    assert_eq!(
        Err(EncodeError::Expectation(ExpectationError::Object)),
        encode(&object(&[]), &s)
    );
    assert_eq!(
        Err(EncodeError::Expectation(ExpectationError::Number)),
        encode(&string("B"), &s)
    );
    assert_eq!(Err(DecodeError::VariantOutOfRange(3)), decode(&[3], &s));
    assert_eq!(Err(DecodeError::Malformed(text("u8"))), decode(&[], &s));
}

#[test]
fn an_integer_of_128_bits_travels_as_a_decimal_string() {
    let big = "1267650600228229401496703205376";
    let bytes = encode(&string(big), &of("u128")).unwrap();
    assert_eq!(borsh::to_vec(&(1u128 << 100)).unwrap(), bytes);
    assert_eq!(Ok(string(big)), decode(&bytes, &of("u128")));

    let low = "-170141183460469231731687303715884105728";
    let bytes = encode(&string(low), &of("i128")).unwrap();
    assert_eq!(borsh::to_vec(&i128::MIN).unwrap(), bytes);
    assert_eq!(Ok(string(low)), decode(&bytes, &of("i128")));

    assert_eq!(Ok(string("7")), decode(&encode(&string("+007"), &of("u128")).unwrap(), &of("u128")));
    assert_eq!(
        Err(EncodeError::Expectation(ExpectationError::String)),
        encode(&whole(7), &of("u128"))
    );
    for refused in ["", "+", "-1", "1 ", "340282366920938463463374607431768211456", "١"] {
        assert_eq!(
            Err(EncodeError::Expectation(ExpectationError::String)),
            encode(&string(refused), &of("u128")),
            "{refused}"
        );
    }
}

#[test]
fn integers_are_held_to_their_range() {
    assert_eq!(vec![255u8], encode(&whole(255), &of("u8")).unwrap());
    assert_eq!(
        Err(EncodeError::Expectation(ExpectationError::Number)),
        encode(&whole(256), &of("u8"))
    );
    assert_eq!(
        Err(EncodeError::Expectation(ExpectationError::Number)),
        encode(&Json::Number(Number::NegInt(-1)), &of("u64"))
    );
    assert_eq!(
        Err(EncodeError::Expectation(ExpectationError::Number)),
        encode(&float(1.0), &of("u32"))
    );
    assert_eq!(vec![0x80u8], encode(&Json::Number(Number::NegInt(-128)), &of("i8")).unwrap());
    assert_eq!(
        Err(EncodeError::Expectation(ExpectationError::Number)),
        encode(&Json::Number(Number::NegInt(-129)), &of("i8"))
    );
    assert_eq!(
        borsh::to_vec(&-5i64).unwrap(),
        encode(&Json::Number(Number::NegInt(-5)), &of("i64")).unwrap()
    );
    assert_eq!(
        Err(EncodeError::Expectation(ExpectationError::Number)),
        encode(&whole(1 << 63), &of("i64"))
    );
    assert_eq!(borsh::to_vec(&u64::MAX).unwrap(), encode(&whole(u64::MAX), &of("u64")).unwrap());
    assert_eq!(
        Ok(Json::Number(Number::NegInt(-2))),
        decode(&borsh::to_vec(&-2i16).unwrap(), &of("i16"))
    );
    assert_eq!(Ok(whole(40000)), decode(&borsh::to_vec(&40000u16).unwrap(), &of("u16")));
    assert_eq!(Err(DecodeError::Malformed(text("u32"))), decode(&[1, 2, 3], &of("u32")));
}

#[test]
fn strings_and_truth_values_are_checked_on_reading() {
    assert_eq!(Ok(string("hé")), decode(&borsh::to_vec("hé").unwrap(), &of("string")));
    assert_eq!(
        Err(DecodeError::Malformed(text("string"))),
        decode(&[2, 0, 0, 0, 0xC3, 0x28], &of("string"))
    );
    assert_eq!(
        Err(DecodeError::Malformed(text("string"))),
        decode(&[3, 0, 0, 0, b'a'], &of("string"))
    );
    assert_eq!(Ok(Json::Bool(true)), decode(&[1], &of("bool")));
    assert_eq!(Err(DecodeError::Malformed(text("bool"))), decode(&[2], &of("bool")));
    assert_eq!(
        Err(EncodeError::Expectation(ExpectationError::Boolean)),
        encode(&whole(1), &of("bool"))
    );
    assert_eq!(
        Err(EncodeError::Expectation(ExpectationError::String)),
        encode(&Json::Null, &of("string"))
    );
}

#[test]
fn arrays_sequences_and_tuples() {
    let s = schema(
        "T",
        vec![
            ("A", Definition::Array { length: 2, elements: text("u8") }),
            ("S", Definition::Sequence { elements: text("u16") }),
            ("T", Definition::Tuple { elements: vec![text("A"), text("S"), text("bool")] }),
        ],
    );
    let value = Json::Array(vec![
        Json::Array(vec![whole(1), whole(2)]),
        Json::Array(vec![whole(3), whole(4), whole(5)]),
        Json::Bool(true),
    ]);
    let bytes = encode(&value, &s).unwrap();
    assert_eq!(borsh::to_vec(&([1u8, 2], vec![3u16, 4, 5], true)).unwrap(), bytes);
    assert_eq!(Ok(value), decode(&bytes, &s));

    let short = Json::Array(vec![Json::Array(vec![whole(1)]), Json::Array(vec![]), Json::Null]);
    assert_eq!(
        Err(EncodeError::Expectation(ExpectationError::ArrayOfLength(2))),
        encode(&short, &s)
    );
    assert_eq!(
        Err(EncodeError::Expectation(ExpectationError::ArrayOfLength(3))),
        encode(&Json::Array(vec![]), &s)
    );
    assert_eq!(Err(EncodeError::Expectation(ExpectationError::Array)), encode(&Json::Null, &s));
    assert_eq!("Expected array of length 3", ExpectationError::ArrayOfLength(3).message());
    assert_eq!(Err(DecodeError::Malformed(text("u32"))), decode(&[1, 2, 0, 0], &s));
    assert_eq!(Err(DecodeError::Malformed(text("u16"))), decode(&[1, 2, 1, 0, 0, 0, 9], &s));
}

#[test]
fn a_struct_of_one_unnamed_field_takes_the_bare_value() {
    let s = schema("N", vec![("N", unnamed(&["u8"])), ("P", unnamed(&["u8", "u8"]))]);
    assert_eq!(vec![7u8], encode(&whole(7), &s).unwrap());
    assert_eq!(
        Err(EncodeError::Expectation(ExpectationError::Number)),
        encode(&Json::Array(vec![whole(7)]), &s)
    );
    assert_eq!(Ok(Json::Array(vec![whole(7)])), decode(&[7], &s));

    let pair = Schema { declaration: text("P"), definitions: s.definitions.clone() };
    assert_eq!(vec![1u8, 2], encode(&Json::Array(vec![whole(1), whole(2)]), &pair).unwrap());
    assert_eq!(
        Err(EncodeError::Expectation(ExpectationError::ArrayOfLength(2))),
        encode(&Json::Array(vec![whole(1)]), &pair)
    );
}

#[test]
fn a_struct_without_fields_takes_anything_and_writes_nothing() {
    let s = schema("U", vec![("U", Definition::Struct { fields: Fields::Empty })]);
    assert_eq!(Vec::<u8>::new(), encode(&string("anything"), &s).unwrap());
    assert_eq!(Ok(Json::Array(vec![])), decode(&[], &s));
}

#[test]
fn a_name_without_a_definition_is_named() {
    let s = schema("A", vec![("A", unnamed(&["Gone"]))]);
    assert_eq!(Err(EncodeError::UnknownDeclaration(text("Gone"))), encode(&whole(1), &s));
    assert_eq!(Err(DecodeError::UnknownDeclaration(text("Gone"))), decode(&[1], &s));
    assert_eq!(Err(DecodeError::UnknownDeclaration(text("B"))), decode(&[1], &of("B")));
}

#[test]
fn definitions_that_lead_back_to_themselves_without_end_are_refused() {
    let s = schema("A", vec![("A", unnamed(&["B"])), ("B", unnamed(&["A"]))]);
    assert!(matches!(encode(&whole(1), &s), Err(EncodeError::Endless(_))));
    assert!(matches!(decode(&[1, 2, 3], &s), Err(DecodeError::Endless(_))));
}

#[test]
fn a_list_that_names_itself_is_walked_as_far_as_the_data_go() {
    let s = schema(
        "List",
        vec![
            ("Cell", Definition::Tuple { elements: vec![text("u8"), text("List")] }),
            ("List", variants(&[("Nil", "Unit"), ("Cons", "Cell")])),
            ("Unit", Definition::Struct { fields: Fields::Empty }),
        ],
    );
    let mut value = string("Nil");
    let mut bytes = vec![0u8];
    for i in 0..300u64 {
        value = object(&[("Cons", Json::Array(vec![whole(i % 256), value]))]);
        let mut longer = vec![1u8, (i % 256) as u8];
        longer.extend(bytes);
        bytes = longer;
    }
    assert_eq!(bytes, encode(&value, &s).unwrap());
    let back = decode(&bytes, &s).unwrap();
    assert_eq!(bytes, encode(&back, &s).unwrap());

    let compressed = compress_schema(&s).unwrap();
    assert_eq!(Ok(back), decode(&bytes, &compressed));
}

#[test]
fn a_walk_with_its_own_bound_ends_at_the_bound() {
    let s = schema("A", vec![("A", unnamed(&["B"])), ("B", unnamed(&["u8"]))]);
    let mut out = vec![];
    assert_eq!(Ok(()), serialize_declaration_with_schema(&mut out, &whole(1), &s, "A", 2));
    assert_eq!(vec![1u8], out);
    assert_eq!(
        Err(EncodeError::Endless(text("B"))),
        serialize_declaration_with_schema(&mut out, &whole(1), &s, "A", 1)
    );
    assert_eq!(
        Ok((Json::Array(vec![Json::Array(vec![whole(1)])]), 1)),
        deserialize_declaration_from_schema(&[1], 0, &s, "A", 2)
    );
    assert_eq!(
        Err(DecodeError::Endless(text("A"))),
        deserialize_declaration_from_schema(&[1], 0, &s, "A", 0)
    );
}

#[test]
fn what_follows_a_value_is_left_to_the_caller() {
    let bytes = [5u8, 0, 9, 9];
    let mut buf = &bytes[..];
    assert_eq!(Ok(whole(5)), deserialize_from_schema(&mut buf, &of("u16")));
    assert_eq!(&[9u8, 9][..], buf);
    let mut buf = &bytes[..1];
    assert!(deserialize_from_schema(&mut buf, &of("u16")).is_err());
    assert_eq!(&[5u8][..], buf);
}

#[test]
fn floats_are_written_by_their_bits() {
    for x in [0.0f64, -0.0, 1.5, -2.25, 1e300, f64::MIN_POSITIVE, 5e-324, f64::MAX] {
        let bytes = encode(&float(x), &of("f64")).unwrap();
        assert_eq!(borsh::to_vec(&x).unwrap(), bytes, "{x}");
        assert_eq!(Ok(float(x)), decode(&bytes, &of("f64")), "{x}");
    }
    for x in [0.0f32, -0.0, 1.5, -2.25, 3.4e38, f32::MIN_POSITIVE, 1e-45, 7e-42] {
        let bytes = borsh::to_vec(&x).unwrap();
        assert_eq!(Ok(float(x as f64)), decode(&bytes, &of("f32")), "{x}");
        assert_eq!(bytes, encode(&float(x as f64), &of("f32")).unwrap(), "{x}");
    }
    assert_eq!(borsh::to_vec(&24.0f64).unwrap(), encode(&whole(24), &of("f64")).unwrap());
    assert_eq!(
        borsh::to_vec(&-3.0f32).unwrap(),
        encode(&Json::Number(Number::NegInt(-3)), &of("f32")).unwrap()
    );
    assert_eq!(
        borsh::to_vec(&0.1f32).unwrap(),
        encode(&float(0.1), &of("f32")).unwrap()
    );
}

#[test]
fn floats_that_are_not_finite_are_refused() {
    for x in [f64::INFINITY, f64::NEG_INFINITY, f64::NAN] {
        assert_eq!(
            Err(EncodeError::Expectation(ExpectationError::Number)),
            encode(&float(x), &of("f64"))
        );
        assert_eq!(
            Err(DecodeError::Malformed(text("f64"))),
            decode(&x.to_bits().to_le_bytes(), &of("f64"))
        );
    }
    for x in [f32::INFINITY, f32::NAN] {
        assert_eq!(
            Err(DecodeError::Malformed(text("f32"))),
            decode(&x.to_bits().to_le_bytes(), &of("f32"))
        );
    }
    assert_eq!(
        Err(EncodeError::Expectation(ExpectationError::Number)),
        encode(&float(1e300), &of("f32"))
    );
    assert_eq!(
        Err(EncodeError::Expectation(ExpectationError::Number)),
        encode(&string("1.5"), &of("f64"))
    );
}

/// Numbers spread over the magnitudes, from a fixed seed.
fn samples() -> Vec<u64> {
    let mut state = 0x9E37_79B9_7F4A_7C15u64;
    let mut out = vec![0, 1, 2, 3, u64::MAX, u64::MAX - 1, 1 << 52, 1 << 53, (1 << 53) + 1];
    for i in 0..4000u32 {
        state ^= state << 13;
        state ^= state >> 7;
        state ^= state << 17;
        out.push(state >> (i % 64));
        out.push(state);
    }
    out
}

#[test]
fn widening_and_narrowing_are_those_of_the_machine() {
    for bits in samples() {
        assert_eq!((bits as f64).to_bits(), natural_to_double(bits), "{bits}");
        let x = f64::from_bits(bits);
        if x.is_finite() {
            assert_eq!((x as f32).to_bits(), narrow(bits), "{bits:x}");
        }
        let y = f32::from_bits(bits as u32);
        if y.is_finite() {
            assert_eq!((y as f64).to_bits(), widen(bits as u32), "{bits:x}");
            assert_eq!(bits as u32, narrow(widen(bits as u32)));
        }
        let small = f64::from_bits(bits).abs().min(1e-30);
        assert_eq!((small as f32).to_bits(), narrow(small.to_bits()), "{small:e}");
    }
    for k in 0..64u32 {
        for d in [0u64, 1, 2, 3] {
            let m = (1u64 << k).wrapping_add(d << k.saturating_sub(54)).wrapping_sub(d % 2);
            assert_eq!((m as f64).to_bits(), natural_to_double(m), "{m}");
        }
    }
    assert_eq!((-7f64).to_bits(), number_to_double(&Number::NegInt(-7)));
    assert_eq!((i64::MIN as f64).to_bits(), number_to_double(&Number::NegInt(i64::MIN)));
    assert_eq!(2.5f64.to_bits(), number_to_double(&Number::Float(2.5f64.to_bits())));
}

#[test]
fn without_a_schema_numbers_go_by_their_kind() {
    let write = |value: &Json| {
        let mut out = vec![];
        JsonSerializableAsBorsh(value).serialize(&mut out).unwrap();
        out
    };
    assert_eq!(vec![0u8], write(&Json::Null));
    assert_eq!(vec![1u8], write(&Json::Bool(true)));
    assert_eq!(borsh::to_vec(&24u64).unwrap(), write(&whole(24)));
    assert_eq!(borsh::to_vec(&-24i64).unwrap(), write(&Json::Number(Number::NegInt(-24))));
    assert_eq!(borsh::to_vec(&2.5f64).unwrap(), write(&float(2.5)));
    assert_eq!(borsh::to_vec("é").unwrap(), write(&string("é")));
    assert_eq!(
        borsh::to_vec(&vec![text("a"), text("bc")]).unwrap(),
        write(&Json::Array(vec![string("a"), string("bc")]))
    );
    assert_eq!(
        borsh::to_vec(&(true, 1u64, vec![false])).unwrap(),
        write(&object(&[
            ("z", Json::Bool(true)),
            ("a", whole(1)),
            ("m", Json::Array(vec![Json::Bool(false)])),
        ]))
    );
}

#[test]
fn decimals_are_those_of_the_standard_library() {
    for n in [0u128, 9, 10, 12345, u64::MAX as u128, u128::MAX, 1 << 100] {
        assert_eq!(n.to_string(), unsigned_to_decimal(n));
        assert_eq!(Some(n), parse_u128(&n.to_string()));
    }
    for v in [0i128, -1, 1, i128::MIN, i128::MAX, -(1 << 100)] {
        assert_eq!(v.to_string(), signed_to_decimal(v));
        assert_eq!(Some(v), parse_i128(&v.to_string()));
    }
    for s in ["", "+", "-", "+5", "-0", "007", "1a", " 1", "--1", "+-1", "99999999999999999999999999999999999999999"] {
        assert_eq!(s.parse::<u128>().ok(), parse_u128(s), "{s:?}");
        assert_eq!(s.parse::<i128>().ok(), parse_i128(s), "{s:?}");
    }
    assert_eq!(None, parse_i128("170141183460469231731687303715884105728"));
    assert_eq!(None, parse_i128("-170141183460469231731687303715884105729"));
}

#[test]
fn names_are_told_apart_and_ordered_as_their_bytes() {
    assert!(same_text("Vec<u8>", "Vec<u8>"));
    assert!(!same_text("a", "á"));
    for (a, b) in [("", "a"), ("a", "b"), ("a", "ab"), ("Z", "a"), ("z", "é"), ("é", "\u{10000}")] {
        assert!(comes_before(a, b), "{a} {b}");
        assert!(!comes_before(b, a), "{a} {b}");
        assert_eq!(a < b, comes_before(a, b));
    }
    assert!(!comes_before("same", "same"));
    assert_eq!(Some(Primitive::U128), primitive("u128"));
    assert_eq!(Some(Primitive::String), primitive("string"));
    assert_eq!(Some(Primitive::F32), primitive("f32"));
    assert_eq!(None, primitive("String"));
    assert_eq!(None, primitive("u256"));
}

#[test]
fn definitions_are_kept_in_the_order_of_their_names() {
    let mut definitions = vec![];
    for name in ["m", "a", "z", "b"] {
        place(&mut definitions, text(name), Definition::Sequence { elements: text("u8") });
    }
    place(&mut definitions, text("m"), Definition::Sequence { elements: text("bool") });
    let names = definitions.iter().map(|(n, _)| n.as_str()).collect::<Vec<_>>();
    assert_eq!(vec!["a", "b", "m", "z"], names);
    assert_eq!(Definition::Sequence { elements: text("bool") }, definitions[2].1);
    let s = Schema { declaration: text("m"), definitions };
    assert_eq!(Some(&Definition::Sequence { elements: text("bool") }), s.get("m"));
    assert_eq!(None, s.get("q"));
}

#[test]
fn a_schema_read_is_brought_into_order() {
    let unordered = schema(
        "Outer",
        vec![
            ("Outer", named(&[("integer", "u32"), ("child", "Inner")])),
            ("Inner", named(&[("s", "string"), ("b", "bool")])),
            ("Inner", variants(&[("X", "u8")])),
        ],
    );
    assert!(fits(&unordered));
    let mut bytes = vec![];
    assert!(serialize_schema(&mut bytes, &unordered));
    bytes.extend([1u8, 2, 3]);
    let (read, used) = deserialize_schema(&bytes, 0).unwrap();
    assert_eq!(bytes.len() - 3, used);
    assert_eq!(
        schema(
            "Outer",
            vec![
                ("Inner", variants(&[("X", "u8")])),
                ("Outer", named(&[("integer", "u32"), ("child", "Inner")])),
            ],
        ),
        read
    );
    let container = <borsh::schema::BorshSchemaContainer as borsh::BorshDeserialize>::deserialize(
        &mut &bytes[..],
    )
    .unwrap();
    let mut again = vec![];
    assert!(serialize_schema(&mut again, &read));
    assert_eq!(borsh::to_vec(&container).unwrap(), again);
    let expected: HashMap<String, borsh::schema::Definition> = [
        (
            text("Inner"),
            borsh::schema::Definition::Enum { variants: vec![(text("X"), text("u8"))] },
        ),
        (
            text("Outer"),
            borsh::schema::Definition::Struct {
                fields: borsh::schema::Fields::NamedFields(vec![
                    (text("integer"), text("u32")),
                    (text("child"), text("Inner")),
                ]),
            },
        ),
    ]
    .into_iter()
    .collect();
    assert_eq!(expected, container.definitions);
}

#[test]
fn every_kind_of_definition_is_written_as_borsh_writes_it() {
    let ours = schema(
        "Root",
        vec![
            ("A", Definition::Array { length: 3, elements: text("u8") }),
            ("E", variants(&[("One", "U"), ("Two", "T")])),
            ("N", named(&[("a", "A"), ("e", "E")])),
            ("Root", unnamed(&["N", "S"])),
            ("S", Definition::Sequence { elements: text("string") }),
            ("T", Definition::Tuple { elements: vec![text("bool"), text("i128")] }),
            ("U", Definition::Struct { fields: Fields::Empty }),
        ],
    );
    let theirs = BorshSchemaContainer {
        declaration: text("Root"),
        definitions: [
            (text("A"), D::Array { length: 3, elements: text("u8") }),
            (
                text("E"),
                D::Enum { variants: vec![(text("One"), text("U")), (text("Two"), text("T"))] },
            ),
            (
                text("N"),
                D::Struct {
                    fields: F::NamedFields(vec![(text("a"), text("A")), (text("e"), text("E"))]),
                },
            ),
            (text("Root"), D::Struct { fields: F::UnnamedFields(vec![text("N"), text("S")]) }),
            (text("S"), D::Sequence { elements: text("string") }),
            (text("T"), D::Tuple { elements: vec![text("bool"), text("i128")] }),
            (text("U"), D::Struct { fields: F::Empty }),
        ]
        .into_iter()
        .collect(),
    };
    let mut bytes = vec![];
    assert!(serialize_schema(&mut bytes, &ours));
    assert_eq!(borsh::to_vec(&theirs).unwrap(), bytes);
    assert_eq!(Some((ours, bytes.len())), deserialize_schema(&bytes, 0));
    for cut in 0..bytes.len() {
        assert_eq!(None, deserialize_schema(&bytes[..cut], 0), "{cut}");
    }
    assert_eq!(None, deserialize_schema(&[1, 0, 0, 0, b'R', 1, 0, 0, 0, 1, 0, 0, 0, b'R', 9], 0));
}

#[test]
fn a_variant_beyond_the_256th_cannot_be_written() {
    let names = (0..257).map(|i| format!("V{i}")).collect::<Vec<_>>();
    let s = Schema {
        declaration: text("E"),
        definitions: vec![(
            text("E"),
            Definition::Enum {
                variants: names.iter().map(|n| (n.clone(), text("bool"))).collect(),
            },
        )],
    };
    assert_eq!(vec![255u8, 1], encode(&object(&[("V255", Json::Bool(true))]), &s).unwrap());
    assert_eq!(
        Err(EncodeError::VariantOutOfRange(text("V256"))),
        encode(&object(&[("V256", Json::Bool(true))]), &s)
    );
    assert_eq!(Ok(object(&[("V255", Json::Bool(false))])), decode(&[255, 0], &s));
}

#[test]
fn bytes_read_the_same_under_a_schema_and_under_its_compressed_form() {
    let s = schema(
        "Root",
        vec![
            ("A", Definition::Array { length: 2, elements: text("E") }),
            ("E", variants(&[("One", "U"), ("Two", "T")])),
            ("N", named(&[("a", "A"), ("gone", "Gone")])),
            ("Root", unnamed(&["S", "N"])),
            ("S", Definition::Sequence { elements: text("string") }),
            ("T", Definition::Tuple { elements: vec![text("bool"), text("i128")] }),
            ("U", Definition::Struct { fields: Fields::Empty }),
        ],
    );
    let compressed = compress_schema(&s).unwrap();
    let mut bytes = borsh::to_vec(&(vec![text("x"), text("yz")], (0u8, 1u8, true, -5i128))).unwrap();
    let under = decode(&bytes, &s);
    assert_eq!(Err(DecodeError::UnknownDeclaration(text("Gone"))), under);
    let renamed = match decode(&bytes, &compressed) {
        Err(DecodeError::UnknownDeclaration(name)) => name,
        other => panic!("{other:?}"),
    };
    assert_eq!(1, renamed.chars().count());

    let whole_schema = Schema {
        declaration: text("Root"),
        definitions: s
            .definitions
            .iter()
            .map(|(n, d)| {
                if n == "N" {
                    (n.clone(), named(&[("a", "A")]))
                } else {
                    (n.clone(), d.clone())
                }
            })
            .collect(),
    };
    let compressed = compress_schema(&whole_schema).unwrap();
    let value = decode(&bytes, &whole_schema).unwrap();
    assert_eq!(Ok(value), decode(&bytes, &compressed));
    bytes.pop();
    assert_eq!(decode(&bytes, &whole_schema), decode(&bytes, &compressed));
    assert!(decode(&bytes, &compressed).is_err());
}

#[test]
fn a_new_schema_has_its_definitions_in_the_order_of_their_names() {
    let s = Schema::new(
        text("Outer"),
        vec![
            (text("Outer"), named(&[("integer", "u32"), ("child", "Inner")])),
            (text("Inner"), variants(&[("X", "u8")])),
            (text("Inner"), named(&[("s", "string"), ("b", "bool")])),
        ],
    );
    assert_eq!(nested(), s);
    let mut bytes = vec![];
    assert!(serialize_schema(&mut bytes, &s));
    assert_eq!(Some((s, bytes.len())), deserialize_schema(&bytes, 0));
}

#[test]
fn a_compressed_schema_is_written_and_read_as_it_is() {
    let s = schema(
        "Root",
        vec![
            ("A", Definition::Array { length: 3, elements: text("u8") }),
            ("E", variants(&[("One", "U"), ("Two", "T")])),
            ("N", named(&[("a", "A"), ("e", "E")])),
            ("Root", unnamed(&["N", "S"])),
            ("S", Definition::Sequence { elements: text("string") }),
            ("T", Definition::Tuple { elements: vec![text("bool"), text("i128")] }),
            ("U", Definition::Struct { fields: Fields::Empty }),
        ],
    );
    let compressed = compress_schema(&s).unwrap();
    assert_eq!(7, compressed.definitions.len());
    let mut bytes = vec![];
    assert!(serialize_schema(&mut bytes, &compressed));
    let mut plain = vec![];
    assert!(serialize_schema(&mut plain, &s));
    assert!(bytes.len() < plain.len());
    assert_eq!(Some((compressed, bytes.len())), deserialize_schema(&bytes, 0));
}

#[test]
fn failures_of_the_walks_have_messages() {
    assert_eq!(
        "Specified variant D does not exist in schema",
        EncodeError::UnknownVariant(text("D")).message()
    );
    assert_eq!("Expected property child", EncodeError::MissingProperty(text("child")).message());
    assert_eq!(
        "Unknown declaration to serialize: Gone",
        EncodeError::UnknownDeclaration(text("Gone")).message()
    );
    assert_eq!(
        "Expected boolean",
        EncodeError::Expectation(ExpectationError::Boolean).message()
    );
    assert_eq!("Expected number", ExpectationError::Number.message());
    assert_eq!("Expected string", ExpectationError::String.message());
    assert_eq!("Expected array", ExpectationError::Array.message());
    assert_eq!(
        "Variant V256 stands beyond the 256th place of its enum",
        EncodeError::VariantOutOfRange(text("V256")).message()
    );
    assert_eq!("Too long for its length to be written", EncodeError::TooLong.message());
    assert_eq!(
        "Definitions lead without end back to A",
        EncodeError::Endless(text("A")).message()
    );
    assert_eq!("Failed to deserialize u32", DecodeError::Malformed(text("u32")).message());
    assert_eq!(
        "Unknown type to deserialize: Gone",
        DecodeError::UnknownDeclaration(text("Gone")).message()
    );
    assert_eq!("No variant at place 200", DecodeError::VariantOutOfRange(200).message());
    assert_eq!(
        "Definitions lead without end back to A",
        DecodeError::Endless(text("A")).message()
    );
}
