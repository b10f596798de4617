//! What was written under a schema reads back under it.

use crate::decimal::{
    decimal, lemma_parse_decimal, lemma_parse_signed_decimal, parse_signed, parse_unsigned,
    signed_decimal,
};
use crate::dynamic_schema::decoding::{
    decode, decode_items, decode_named, decode_positional, decode_primitive, decode_under,
    decode_value, integer, with_entry,
};
use crate::dynamic_schema::errors::{DecodeErrorView, EncodeErrorView};
use crate::dynamic_schema::encoding::{
    encode, encode_fuel, encode_items, encode_named, encode_positional, encode_primitive,
    encode_under, encode_value, variant_input,
};
use crate::dynamic_schema::reads_end::lemma_decode_ends;
use crate::float::{
    double_of_number, double_of_single, is_finite_single, lemma_narrow_widened, single_of_double,
};
use crate::json::{JsonView, Number};
use crate::primitives::{le_bytes, lemma_le_bytes_len, lemma_pow256_values, pow256, to_unsigned};
use crate::schema::{
    lemma_position_of, position_of, primitive_of, DefinitionView, FieldsView, Primitive,
    SchemaView,
};
use crate::wire::{
    fits_signed, length_bytes, lemma_skip_front, lemma_parse_length_bytes, lemma_parse_signed_bytes, lemma_parse_string_bytes,
    lemma_parse_unsigned_bytes,
};
use vstd::prelude::*;

verus! {

/// How a value that was written as the primitive `p` reads back: an
/// integer as the number that it is, an integer of 128 bits as its decimal
/// digits without a sign that is not needed, a binary64 number as the
/// number that the JSON number was read as, a binary32 number as the number
/// nearest to that, a string and a truth value as they were.
pub open spec fn shown_primitive(p: Primitive, value: JsonView) -> JsonView {
    match p {
        Primitive::U8 | Primitive::U16 | Primitive::U32 | Primitive::U64 => match value.as_unsigned(
        ) {
            Some(n) => integer(n as int),
            None => value,
        },
        Primitive::I8 | Primitive::I16 | Primitive::I32 | Primitive::I64 => match value.as_signed() {
            Some(v) => integer(v),
            None => value,
        },
        Primitive::U128 => match value {
            JsonView::String(s) => match parse_unsigned(s) {
                Some(n) => JsonView::String(decimal(n)),
                None => value,
            },
            _ => value,
        },
        Primitive::I128 => match value {
            JsonView::String(s) => match parse_signed(s) {
                Some(v) => JsonView::String(signed_decimal(v)),
                None => value,
            },
            _ => value,
        },
        Primitive::F32 => match value {
            JsonView::Number(n) => JsonView::Number(
                Number::Float(double_of_single(single_of_double(double_of_number(n)))),
            ),
            _ => value,
        },
        Primitive::F64 => match value {
            JsonView::Number(n) => JsonView::Number(Number::Float(double_of_number(n))),
            _ => value,
        },
        Primitive::String | Primitive::Bool => value,
    }
}

/// How a value that was written under `declaration` reads back.
pub open spec fn shown_value(
    schema: SchemaView,
    declaration: Seq<char>,
    value: JsonView,
    fuel: nat,
) -> JsonView
    decreases fuel, 0nat, 0nat,
{
    match primitive_of(declaration) {
        Some(p) => shown_primitive(p, value),
        None => match schema.lookup(declaration) {
            None => value,
            Some(definition) => if fuel == 0 {
                value
            } else {
                shown_under(schema, definition, value, (fuel - 1) as nat)
            },
        },
    }
}

/// How a value that was written under `definition` reads back: a variant
/// as an object with one entry, the fields of a struct as an object in the
/// order of the fields or as an array, a struct without fields as an empty
/// array.
pub open spec fn shown_under(
    schema: SchemaView,
    definition: DefinitionView,
    value: JsonView,
    fuel: nat,
) -> JsonView
    decreases fuel, 2nat, 0nat,
{
    match definition {
        DefinitionView::Array { length, elements } => match value {
            JsonView::Array(items) => JsonView::Array(
                shown_items(schema, elements, items, items.len(), fuel),
            ),
            _ => value,
        },
        DefinitionView::Sequence { elements } => match value {
            JsonView::Array(items) => JsonView::Array(
                shown_items(schema, elements, items, items.len(), fuel),
            ),
            _ => value,
        },
        DefinitionView::Tuple { elements } => match value {
            JsonView::Array(items) => JsonView::Array(
                shown_positional(schema, elements, items, items.len(), fuel),
            ),
            _ => value,
        },
        DefinitionView::Enum { variants } => match variant_input(value) {
            None => value,
            Some((name, payload)) => match position_of(variants, name) {
                None => value,
                Some(i) => JsonView::Object(
                    seq![(variants[i].0, shown_value(schema, variants[i].1, payload, fuel))],
                ),
            },
        },
        DefinitionView::Struct { fields } => match fields {
            FieldsView::NamedFields(named) => match value {
                JsonView::Object(entries) => JsonView::Object(
                    shown_named(schema, named, entries, named.len(), fuel),
                ),
                _ => value,
            },
            FieldsView::UnnamedFields(unnamed) => if unnamed.len() == 1 {
                JsonView::Array(seq![shown_value(schema, unnamed[0], value, fuel)])
            } else {
                match value {
                    JsonView::Array(items) => JsonView::Array(
                        shown_positional(schema, unnamed, items, items.len(), fuel),
                    ),
                    _ => value,
                }
            },
            FieldsView::Empty => JsonView::Array(Seq::empty()),
        },
    }
}

/// How the first `n` of `items`, written under `declaration`, read back.
pub open spec fn shown_items(
    schema: SchemaView,
    declaration: Seq<char>,
    items: Seq<JsonView>,
    n: nat,
    fuel: nat,
) -> Seq<JsonView>
    decreases fuel, 1nat, n,
{
    if n == 0 || n > items.len() {
        Seq::empty()
    } else {
        shown_items(schema, declaration, items, (n - 1) as nat, fuel).push(
            shown_value(schema, declaration, items[n - 1], fuel),
        )
    }
}

/// How the first `n` of `items`, each written under the declaration at its
/// place, read back.
pub open spec fn shown_positional(
    schema: SchemaView,
    declarations: Seq<Seq<char>>,
    items: Seq<JsonView>,
    n: nat,
    fuel: nat,
) -> Seq<JsonView>
    decreases fuel, 1nat, n,
{
    if n == 0 || n > items.len() || n > declarations.len() {
        Seq::empty()
    } else {
        shown_positional(schema, declarations, items, (n - 1) as nat, fuel).push(
            shown_value(schema, declarations[n - 1], items[n - 1], fuel),
        )
    }
}

/// How the first `n` of `fields`, each taken from `entries` by its name and
/// written, read back.
pub open spec fn shown_named(
    schema: SchemaView,
    fields: Seq<(Seq<char>, Seq<char>)>,
    entries: Seq<(Seq<char>, JsonView)>,
    n: nat,
    fuel: nat,
) -> Seq<(Seq<char>, JsonView)>
    decreases fuel, 1nat, n,
{
    if n == 0 || n > fields.len() {
        Seq::empty()
    } else {
        let front = shown_named(schema, fields, entries, (n - 1) as nat, fuel);
        match position_of(entries, fields[n - 1].0) {
            Some(i) => with_entry(
                front,
                fields[n - 1].0,
                shown_value(schema, fields[n - 1].1, entries[i].1, fuel),
            ),
            None => front,
        }
    }
}

/// A primitive that was written reads back, whatever follows it.
pub proof fn lemma_primitive_reads_back(p: Primitive, value: JsonView, tail: Seq<u8>)
    requires
        encode_primitive(p, value) is Ok,
    ensures
        decode_primitive(p, encode_primitive(p, value)->Ok_0 + tail) == Ok::<
            (JsonView, nat),
            DecodeErrorView,
        >((shown_primitive(p, value), encode_primitive(p, value)->Ok_0.len())),
{
    let bytes = encode_primitive(p, value)->Ok_0;
    lemma_pow256_values();
    match p {
        Primitive::U8 => {
            lemma_le_bytes_len(value.as_unsigned()->0, 1);
            lemma_parse_unsigned_bytes(value.as_unsigned()->0, 1, tail);
        },
        Primitive::U16 => {
            lemma_le_bytes_len(value.as_unsigned()->0, 2);
            lemma_parse_unsigned_bytes(value.as_unsigned()->0, 2, tail);
        },
        Primitive::U32 => {
            lemma_le_bytes_len(value.as_unsigned()->0, 4);
            lemma_parse_unsigned_bytes(value.as_unsigned()->0, 4, tail);
        },
        Primitive::U64 => {
            lemma_le_bytes_len(value.as_unsigned()->0, 8);
            lemma_parse_unsigned_bytes(value.as_unsigned()->0, 8, tail);
        },
        Primitive::U128 => {
            let n = parse_unsigned(value->String_0)->0;
            lemma_le_bytes_len(n, 16);
            lemma_parse_unsigned_bytes(n, 16, tail);
        },
        Primitive::I8 => {
            lemma_le_bytes_len(to_unsigned(value.as_signed()->0, 1), 1);
            lemma_parse_signed_bytes(value.as_signed()->0, 1, tail);
        },
        Primitive::I16 => {
            lemma_le_bytes_len(to_unsigned(value.as_signed()->0, 2), 2);
            lemma_parse_signed_bytes(value.as_signed()->0, 2, tail);
        },
        Primitive::I32 => {
            lemma_le_bytes_len(to_unsigned(value.as_signed()->0, 4), 4);
            lemma_parse_signed_bytes(value.as_signed()->0, 4, tail);
        },
        Primitive::I64 => {
            lemma_le_bytes_len(to_unsigned(value.as_signed()->0, 8), 8);
            lemma_parse_signed_bytes(value.as_signed()->0, 8, tail);
        },
        Primitive::I128 => {
            let v = parse_signed(value->String_0)->0;
            lemma_le_bytes_len(to_unsigned(v, 16), 16);
            lemma_parse_signed_bytes(v, 16, tail);
        },
        Primitive::F32 => {
            let single = single_of_double(double_of_number(value->Number_0));
            lemma_le_bytes_len(single as nat, 4);
            lemma_parse_unsigned_bytes(single as nat, 4, tail);
        },
        Primitive::F64 => {
            let double = double_of_number(value->Number_0);
            lemma_le_bytes_len(double as nat, 8);
            lemma_parse_unsigned_bytes(double as nat, 8, tail);
        },
        Primitive::String => {
            lemma_parse_string_bytes(value->String_0, tail);
        },
        Primitive::Bool => {
            assert((bytes + tail)[0] == bytes[0]);
        },
    }
}

/// The first `n` items that were written read back, whatever follows them.
pub proof fn lemma_items_read_back(
    schema: SchemaView,
    declaration: Seq<char>,
    items: Seq<JsonView>,
    n: nat,
    fuel: nat,
    tail: Seq<u8>,
)
    requires
        n <= items.len(),
        encode_items(schema, declaration, items, n, fuel) is Ok,
    ensures
        decode_items(
            schema,
            declaration,
            encode_items(schema, declaration, items, n, fuel)->Ok_0 + tail,
            n,
            fuel,
        ) == Ok::<(Seq<JsonView>, nat), DecodeErrorView>(
            (
                shown_items(schema, declaration, items, n, fuel),
                encode_items(schema, declaration, items, n, fuel)->Ok_0.len(),
            ),
        ),
    decreases fuel, 1nat, n,
{
    if n > 0 {
        let front = encode_items(schema, declaration, items, (n - 1) as nat, fuel)->Ok_0;
        let last = encode_value(schema, declaration, items[n - 1], fuel)->Ok_0;
        let all = encode_items(schema, declaration, items, n, fuel)->Ok_0 + tail;
        assert(all =~= front + (last + tail));
        lemma_items_read_back(schema, declaration, items, (n - 1) as nat, fuel, last + tail);
        lemma_skip_front(front, last + tail);
        lemma_value_reads_back(schema, declaration, items[n - 1], fuel, tail);
    }
}

/// The first `n` items that were written, each under the declaration at
/// its place, read back, whatever follows them.
pub proof fn lemma_positional_read_back(
    schema: SchemaView,
    declarations: Seq<Seq<char>>,
    items: Seq<JsonView>,
    n: nat,
    fuel: nat,
    tail: Seq<u8>,
)
    requires
        n <= items.len(),
        n <= declarations.len(),
        encode_positional(schema, declarations, items, n, fuel) is Ok,
    ensures
        decode_positional(
            schema,
            declarations,
            encode_positional(schema, declarations, items, n, fuel)->Ok_0 + tail,
            n,
            fuel,
        ) == Ok::<(Seq<JsonView>, nat), DecodeErrorView>(
            (
                shown_positional(schema, declarations, items, n, fuel),
                encode_positional(schema, declarations, items, n, fuel)->Ok_0.len(),
            ),
        ),
    decreases fuel, 1nat, n,
{
    if n > 0 {
        let front = encode_positional(schema, declarations, items, (n - 1) as nat, fuel)->Ok_0;
        let last = encode_value(schema, declarations[n - 1], items[n - 1], fuel)->Ok_0;
        let all = encode_positional(schema, declarations, items, n, fuel)->Ok_0 + tail;
        assert(all =~= front + (last + tail));
        lemma_positional_read_back(
            schema,
            declarations,
            items,
            (n - 1) as nat,
            fuel,
            last + tail,
        );
        lemma_skip_front(front, last + tail);
        lemma_value_reads_back(schema, declarations[n - 1], items[n - 1], fuel, tail);
    }
}

/// The first `n` fields that were written read back, whatever follows
/// them.
pub proof fn lemma_named_read_back(
    schema: SchemaView,
    fields: Seq<(Seq<char>, Seq<char>)>,
    entries: Seq<(Seq<char>, JsonView)>,
    n: nat,
    fuel: nat,
    tail: Seq<u8>,
)
    requires
        n <= fields.len(),
        encode_named(schema, fields, entries, n, fuel) is Ok,
    ensures
        decode_named(
            schema,
            fields,
            encode_named(schema, fields, entries, n, fuel)->Ok_0 + tail,
            n,
            fuel,
        ) == Ok::<(Seq<(Seq<char>, JsonView)>, nat), DecodeErrorView>(
            (
                shown_named(schema, fields, entries, n, fuel),
                encode_named(schema, fields, entries, n, fuel)->Ok_0.len(),
            ),
        ),
    decreases fuel, 1nat, n,
{
    if n > 0 {
        let at = position_of(entries, fields[n - 1].0)->0;
        let front = encode_named(schema, fields, entries, (n - 1) as nat, fuel)->Ok_0;
        let last = encode_value(schema, fields[n - 1].1, entries[at].1, fuel)->Ok_0;
        let all = encode_named(schema, fields, entries, n, fuel)->Ok_0 + tail;
        assert(all =~= front + (last + tail));
        lemma_named_read_back(schema, fields, entries, (n - 1) as nat, fuel, last + tail);
        lemma_skip_front(front, last + tail);
        lemma_value_reads_back(schema, fields[n - 1].1, entries[at].1, fuel, tail);
    }
}

/// A sequence that was written reads back, whatever follows it.
proof fn lemma_sequence_reads_back(
    schema: SchemaView,
    elements: Seq<char>,
    value: JsonView,
    fuel: nat,
    tail: Seq<u8>,
)
    requires
        encode_under(schema, DefinitionView::Sequence { elements }, value, fuel) is Ok,
    ensures
        decode_under(
            schema,
            DefinitionView::Sequence { elements },
            encode_under(schema, DefinitionView::Sequence { elements }, value, fuel)->Ok_0 + tail,
            fuel,
        ) == Ok::<(JsonView, nat), DecodeErrorView>(
            (
                shown_under(schema, DefinitionView::Sequence { elements }, value, fuel),
                encode_under(schema, DefinitionView::Sequence { elements }, value, fuel)->Ok_0.len(),
            ),
        ),
    decreases fuel, 2nat, 0nat,
{
    let items = value->Array_0;
    let body = encode_items(schema, elements, items, items.len(), fuel)->Ok_0;
    let head = length_bytes(items.len());
    let all = encode_under(schema, DefinitionView::Sequence { elements }, value, fuel)->Ok_0 + tail;
    assert(all =~= head + (body + tail));
    lemma_parse_length_bytes(items.len(), body + tail);
    lemma_le_bytes_len(items.len(), 4);
    lemma_skip_front(head, body + tail);
    lemma_items_read_back(schema, elements, items, items.len(), fuel, tail);
}

/// A variant that was written reads back, whatever follows it.
proof fn lemma_variant_reads_back(
    schema: SchemaView,
    variants: Seq<(Seq<char>, Seq<char>)>,
    value: JsonView,
    fuel: nat,
    tail: Seq<u8>,
)
    requires
        encode_under(schema, DefinitionView::Enum { variants }, value, fuel) is Ok,
    ensures
        decode_under(
            schema,
            DefinitionView::Enum { variants },
            encode_under(schema, DefinitionView::Enum { variants }, value, fuel)->Ok_0 + tail,
            fuel,
        ) == Ok::<(JsonView, nat), DecodeErrorView>(
            (
                shown_under(schema, DefinitionView::Enum { variants }, value, fuel),
                encode_under(schema, DefinitionView::Enum { variants }, value, fuel)->Ok_0.len(),
            ),
        ),
    decreases fuel, 2nat, 0nat,
{
    let (name, payload) = variant_input(value)->0;
    let at = position_of(variants, name)->0;
    lemma_position_of(variants, name);
    let body = encode_value(schema, variants[at].1, payload, fuel)->Ok_0;
    let all = encode_under(schema, DefinitionView::Enum { variants }, value, fuel)->Ok_0 + tail;
    assert(all =~= seq![at as u8] + (body + tail));
    assert(all[0] == at as u8);
    lemma_skip_front(seq![at as u8], body + tail);
    lemma_value_reads_back(schema, variants[at].1, payload, fuel, tail);
}

/// A struct that was written reads back, whatever follows it.
proof fn lemma_fields_read_back(
    schema: SchemaView,
    fields: FieldsView,
    value: JsonView,
    fuel: nat,
    tail: Seq<u8>,
)
    requires
        encode_under(schema, DefinitionView::Struct { fields }, value, fuel) is Ok,
    ensures
        decode_under(
            schema,
            DefinitionView::Struct { fields },
            encode_under(schema, DefinitionView::Struct { fields }, value, fuel)->Ok_0 + tail,
            fuel,
        ) == Ok::<(JsonView, nat), DecodeErrorView>(
            (
                shown_under(schema, DefinitionView::Struct { fields }, value, fuel),
                encode_under(schema, DefinitionView::Struct { fields }, value, fuel)->Ok_0.len(),
            ),
        ),
    decreases fuel, 2nat, 0nat,
{
    match fields {
        FieldsView::NamedFields(named) => {
            lemma_named_read_back(schema, named, value->Object_0, named.len(), fuel, tail);
        },
        FieldsView::UnnamedFields(unnamed) => {
            if unnamed.len() == 1 {
                let bytes = encode_value(schema, unnamed[0], value, fuel)->Ok_0;
                lemma_value_reads_back(schema, unnamed[0], value, fuel, tail);
                assert((bytes + tail).skip(0) =~= bytes + tail);
                assert(Seq::<JsonView>::empty().push(shown_value(schema, unnamed[0], value, fuel))
                    =~= seq![shown_value(schema, unnamed[0], value, fuel)]);
                assert(decode_positional(schema, unnamed, bytes + tail, 0, fuel) == Ok::<
                    (Seq<JsonView>, nat),
                    DecodeErrorView,
                >((Seq::empty(), 0)));
            } else {
                let items = value->Array_0;
                lemma_positional_read_back(schema, unnamed, items, items.len(), fuel, tail);
            }
        },
        FieldsView::Empty => {
            assert(Seq::<u8>::empty() + tail =~= tail);
        },
    }
}

/// A value that was written under `definition` reads back under it,
/// whatever follows it.
pub proof fn lemma_under_reads_back(
    schema: SchemaView,
    definition: DefinitionView,
    value: JsonView,
    fuel: nat,
    tail: Seq<u8>,
)
    requires
        encode_under(schema, definition, value, fuel) is Ok,
    ensures
        decode_under(
            schema,
            definition,
            encode_under(schema, definition, value, fuel)->Ok_0 + tail,
            fuel,
        ) == Ok::<(JsonView, nat), DecodeErrorView>(
            (
                shown_under(schema, definition, value, fuel),
                encode_under(schema, definition, value, fuel)->Ok_0.len(),
            ),
        ),
    decreases fuel, 3nat, 0nat,
{
    match definition {
        DefinitionView::Array { length, elements } => {
            let items = value->Array_0;
            lemma_items_read_back(schema, elements, items, items.len(), fuel, tail);
        },
        DefinitionView::Sequence { elements } => {
            lemma_sequence_reads_back(schema, elements, value, fuel, tail);
        },
        DefinitionView::Tuple { elements } => {
            let items = value->Array_0;
            lemma_positional_read_back(schema, elements, items, items.len(), fuel, tail);
        },
        DefinitionView::Enum { variants } => {
            lemma_variant_reads_back(schema, variants, value, fuel, tail);
        },
        DefinitionView::Struct { fields } => {
            lemma_fields_read_back(schema, fields, value, fuel, tail);
        },
    }
}

/// A value that was written under `declaration` reads back under it: the
/// read takes exactly the bytes that were written, whatever follows them,
/// and gives the value as `shown_value` describes it. Both walks may enter
/// the same number of definitions one inside the other.
pub proof fn lemma_value_reads_back(
    schema: SchemaView,
    declaration: Seq<char>,
    value: JsonView,
    fuel: nat,
    tail: Seq<u8>,
)
    requires
        encode_value(schema, declaration, value, fuel) is Ok,
    ensures
        decode_value(
            schema,
            declaration,
            encode_value(schema, declaration, value, fuel)->Ok_0 + tail,
            fuel,
        ) == Ok::<(JsonView, nat), DecodeErrorView>(
            (
                shown_value(schema, declaration, value, fuel),
                encode_value(schema, declaration, value, fuel)->Ok_0.len(),
            ),
        ),
    decreases fuel, 0nat, 0nat,
{
    match primitive_of(declaration) {
        Some(p) => {
            lemma_primitive_reads_back(p, value, tail);
        },
        None => {
            let definition = schema.lookup(declaration)->0;
            lemma_under_reads_back(schema, definition, value, (fuel - 1) as nat, tail);
        },
    }
}

/// What `serialize_with_schema` wrote, `deserialize_from_schema` reads
/// back: the read takes exactly the bytes that were written, whatever
/// follows them, and gives the value as `shown_value` describes it. The
/// bytes are so few that the bound of the read can be counted.
pub proof fn lemma_reads_back(schema: SchemaView, value: JsonView, tail: Seq<u8>)
    requires
        encode(schema, value) is Ok,
        ((encode(schema, value)->Ok_0 + tail).len() + 1) * (schema.definitions.len() + 1)
            <= usize::MAX,
    ensures
        decode(schema, encode(schema, value)->Ok_0 + tail) == Ok::<
            (JsonView, nat),
            DecodeErrorView,
        >(
            (
                shown_value(schema, schema.declaration, value, encode_fuel(schema, value)),
                encode(schema, value)->Ok_0.len(),
            ),
        ),
{
    let bytes = encode(schema, value)->Ok_0;
    let written = encode_fuel(schema, value);
    lemma_value_reads_back(schema, schema.declaration, value, written, tail);
    lemma_decode_ends(schema, bytes + tail, written);
}

/// An integer of 128 bits without sign, given by its decimal digits, reads
/// back as the same digits.
pub proof fn lemma_wide_unsigned_travels(n: nat, tail: Seq<u8>)
    requires
        n < pow256(16),
    ensures
        encode_primitive(Primitive::U128, JsonView::String(decimal(n))) is Ok,
        decode_primitive(
            Primitive::U128,
            encode_primitive(Primitive::U128, JsonView::String(decimal(n)))->Ok_0 + tail,
        ) == Ok::<(JsonView, nat), DecodeErrorView>((JsonView::String(decimal(n)), 16)),
{
    lemma_parse_decimal(n);
    lemma_le_bytes_len(n, 16);
    lemma_primitive_reads_back(Primitive::U128, JsonView::String(decimal(n)), tail);
}

/// An integer of 128 bits with sign, given by its decimal digits, reads
/// back as the same digits.
pub proof fn lemma_wide_signed_travels(v: int, tail: Seq<u8>)
    requires
        fits_signed(v, 16),
    ensures
        encode_primitive(Primitive::I128, JsonView::String(signed_decimal(v))) is Ok,
        decode_primitive(
            Primitive::I128,
            encode_primitive(Primitive::I128, JsonView::String(signed_decimal(v)))->Ok_0 + tail,
        ) == Ok::<(JsonView, nat), DecodeErrorView>((JsonView::String(signed_decimal(v)), 16)),
{
    lemma_parse_signed_decimal(v);
    lemma_le_bytes_len(to_unsigned(v, 16), 16);
    lemma_primitive_reads_back(Primitive::I128, JsonView::String(signed_decimal(v)), tail);
}

/// A binary32 number that was read is written with the bytes that it was
/// read from, and reads back as it is: nothing of it is lost on the way
/// through the binary64 number that stands for it in JSON.
pub proof fn lemma_single_travels(bits: u32)
    requires
        is_finite_single(bits),
    ensures
        encode_primitive(
            Primitive::F32,
            JsonView::Number(Number::Float(double_of_single(bits))),
        ) == Ok::<Seq<u8>, EncodeErrorView>(le_bytes(bits as nat, 4)),
        shown_primitive(Primitive::F32, JsonView::Number(Number::Float(double_of_single(bits))))
            == JsonView::Number(Number::Float(double_of_single(bits))),
{
    lemma_narrow_widened(bits);
}

} // verus!
