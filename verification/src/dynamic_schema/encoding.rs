//! From a JSON value to its bytes under a schema.

use crate::decimal::{parse_i128, parse_signed, parse_u128, parse_unsigned};
use crate::dynamic_schema::errors::{EncodeError, EncodeErrorView, ExpectationError};
use crate::float::{
    double_is_finite, double_of_number, is_finite_double, is_finite_single, narrow,
    number_to_double, single_is_finite, single_of_double,
};
use crate::json::{
    entries_view, items_view, lemma_array_view, lemma_object_view, Json, JsonView, Number,
};
use crate::primitives::{le_bytes, lemma_pow256_values, pow256, write_le};
use crate::schema::{
    find, lemma_position_is_first, lemma_position_is_none, names_view, pairs_view, position_of,
    primitive, primitive_of, Definition, DefinitionView, Fields, FieldsView, Primitive, Schema,
    SchemaView,
};
use crate::text::owned;
use crate::wire::{
    bool_bytes, fits_signed, length_bytes, lemma_starts_append, lemma_starts_transitive,
    signed_bytes, starts, string_bytes, write_bool, write_length, write_signed, write_string,
};
use vstd::prelude::*;
use vstd::utf8::encode_utf8;

verus! {

/// `n`, or the largest number of 32 bits where `n` is larger.
pub open spec fn clipped(n: nat) -> u32 {
    if n > u32::MAX {
        u32::MAX
    } else {
        n as u32
    }
}

/// The encoding of an unsigned integer of `width` bytes.
pub open spec fn encode_unsigned(value: JsonView, width: nat) -> Result<Seq<u8>, EncodeErrorView> {
    match value.as_unsigned() {
        Some(n) => if n < pow256(width) {
            Ok(le_bytes(n, width))
        } else {
            Err(EncodeErrorView::Expectation(ExpectationError::Number))
        },
        None => Err(EncodeErrorView::Expectation(ExpectationError::Number)),
    }
}

/// The encoding of a signed integer of `width` bytes.
pub open spec fn encode_signed(value: JsonView, width: nat) -> Result<Seq<u8>, EncodeErrorView> {
    match value.as_signed() {
        Some(v) => if fits_signed(v, width) {
            Ok(signed_bytes(v, width))
        } else {
            Err(EncodeErrorView::Expectation(ExpectationError::Number))
        },
        None => Err(EncodeErrorView::Expectation(ExpectationError::Number)),
    }
}

/// The encoding of a binary64 number: the eight bytes of the number that
/// the JSON number is read as, which has to be finite.
pub open spec fn encode_double(value: JsonView) -> Result<Seq<u8>, EncodeErrorView> {
    match value {
        JsonView::Number(n) => if is_finite_double(double_of_number(n)) {
            Ok(le_bytes(double_of_number(n) as nat, 8))
        } else {
            Err(EncodeErrorView::Expectation(ExpectationError::Number))
        },
        _ => Err(EncodeErrorView::Expectation(ExpectationError::Number)),
    }
}

/// The encoding of a binary32 number: the four bytes of the number
/// nearest to the one that the JSON number is read as, which has to be
/// finite.
pub open spec fn encode_single(value: JsonView) -> Result<Seq<u8>, EncodeErrorView> {
    match value {
        JsonView::Number(n) => if is_finite_double(double_of_number(n)) && is_finite_single(
            single_of_double(double_of_number(n)),
        ) {
            Ok(le_bytes(single_of_double(double_of_number(n)) as nat, 4))
        } else {
            Err(EncodeErrorView::Expectation(ExpectationError::Number))
        },
        _ => Err(EncodeErrorView::Expectation(ExpectationError::Number)),
    }
}

/// The encoding of `value` as the primitive `p`.
pub open spec fn encode_primitive(p: Primitive, value: JsonView) -> Result<
    Seq<u8>,
    EncodeErrorView,
> {
    match p {
        Primitive::U8 => encode_unsigned(value, 1),
        Primitive::U16 => encode_unsigned(value, 2),
        Primitive::U32 => encode_unsigned(value, 4),
        Primitive::U64 => encode_unsigned(value, 8),
        Primitive::U128 => match value {
            JsonView::String(s) => match parse_unsigned(s) {
                Some(n) => if n < pow256(16) {
                    Ok(le_bytes(n, 16))
                } else {
                    Err(EncodeErrorView::Expectation(ExpectationError::String))
                },
                None => Err(EncodeErrorView::Expectation(ExpectationError::String)),
            },
            _ => Err(EncodeErrorView::Expectation(ExpectationError::String)),
        },
        Primitive::I8 => encode_signed(value, 1),
        Primitive::I16 => encode_signed(value, 2),
        Primitive::I32 => encode_signed(value, 4),
        Primitive::I64 => encode_signed(value, 8),
        Primitive::I128 => match value {
            JsonView::String(s) => match parse_signed(s) {
                Some(v) => if fits_signed(v, 16) {
                    Ok(signed_bytes(v, 16))
                } else {
                    Err(EncodeErrorView::Expectation(ExpectationError::String))
                },
                None => Err(EncodeErrorView::Expectation(ExpectationError::String)),
            },
            _ => Err(EncodeErrorView::Expectation(ExpectationError::String)),
        },
        Primitive::F32 => encode_single(value),
        Primitive::F64 => encode_double(value),
        Primitive::String => match value {
            JsonView::String(s) => if encode_utf8(s).len() <= u32::MAX {
                Ok(string_bytes(s))
            } else {
                Err(EncodeErrorView::TooLong)
            },
            _ => Err(EncodeErrorView::Expectation(ExpectationError::String)),
        },
        Primitive::Bool => match value {
            JsonView::Bool(b) => Ok(bool_bytes(b)),
            _ => Err(EncodeErrorView::Expectation(ExpectationError::Boolean)),
        },
    }
}

/// The variant that `value` names, with its payload: the one entry of an
/// object, or a bare string, which stands for a variant with an empty object
/// as its payload.
pub open spec fn variant_input(value: JsonView) -> Option<(Seq<char>, JsonView)> {
    match value {
        JsonView::Object(entries) => if entries.len() == 1 {
            Some(entries[0])
        } else {
            None
        },
        JsonView::String(s) => Some((s, JsonView::Object(Seq::empty()))),
        _ => None,
    }
}

/// The bytes of `value` under `declaration`. `fuel` bounds how many
/// definitions may be entered one inside the other.
pub open spec fn encode_value(
    schema: SchemaView,
    declaration: Seq<char>,
    value: JsonView,
    fuel: nat,
) -> Result<Seq<u8>, EncodeErrorView>
    decreases fuel, 0nat, 0nat,
{
    match primitive_of(declaration) {
        Some(p) => encode_primitive(p, value),
        None => match schema.lookup(declaration) {
            None => Err(EncodeErrorView::UnknownDeclaration(declaration)),
            Some(definition) => if fuel == 0 {
                Err(EncodeErrorView::Endless(declaration))
            } else {
                encode_under(schema, definition, value, (fuel - 1) as nat)
            },
        },
    }
}

/// The bytes of `value` under `definition`.
pub open spec fn encode_under(
    schema: SchemaView,
    definition: DefinitionView,
    value: JsonView,
    fuel: nat,
) -> Result<Seq<u8>, EncodeErrorView>
    decreases fuel, 2nat, 0nat,
{
    match definition {
        DefinitionView::Array { length, elements } => match value {
            JsonView::Array(items) => if items.len() != length {
                Err(EncodeErrorView::Expectation(ExpectationError::ArrayOfLength(length)))
            } else {
                encode_items(schema, elements, items, items.len(), fuel)
            },
            _ => Err(EncodeErrorView::Expectation(ExpectationError::Array)),
        },
        DefinitionView::Sequence { elements } => match value {
            JsonView::Array(items) => if items.len() > u32::MAX {
                Err(EncodeErrorView::TooLong)
            } else {
                match encode_items(schema, elements, items, items.len(), fuel) {
                    Ok(bytes) => Ok(length_bytes(items.len()) + bytes),
                    Err(e) => Err(e),
                }
            },
            _ => Err(EncodeErrorView::Expectation(ExpectationError::Array)),
        },
        DefinitionView::Tuple { elements } => match value {
            JsonView::Array(items) => if items.len() != elements.len() {
                Err(
                    EncodeErrorView::Expectation(
                        ExpectationError::ArrayOfLength(clipped(elements.len())),
                    ),
                )
            } else {
                encode_positional(schema, elements, items, items.len(), fuel)
            },
            _ => Err(EncodeErrorView::Expectation(ExpectationError::Array)),
        },
        DefinitionView::Enum { variants } => match variant_input(value) {
            None => Err(EncodeErrorView::Expectation(ExpectationError::Object)),
            Some((name, payload)) => match position_of(variants, name) {
                None => Err(EncodeErrorView::UnknownVariant(name)),
                Some(i) => if i > 255 {
                    Err(EncodeErrorView::VariantOutOfRange(name))
                } else {
                    match encode_value(schema, variants[i].1, payload, fuel) {
                        Ok(bytes) => Ok(seq![i as u8] + bytes),
                        Err(e) => Err(e),
                    }
                },
            },
        },
        DefinitionView::Struct { fields } => match fields {
            FieldsView::NamedFields(named) => match value {
                JsonView::Object(entries) => encode_named(
                    schema,
                    named,
                    entries,
                    named.len(),
                    fuel,
                ),
                _ => Err(EncodeErrorView::Expectation(ExpectationError::Object)),
            },
            FieldsView::UnnamedFields(unnamed) => if unnamed.len() == 1 {
                encode_value(schema, unnamed[0], value, fuel)
            } else {
                match value {
                    JsonView::Array(items) => if items.len() != unnamed.len() {
                        Err(
                            EncodeErrorView::Expectation(
                                ExpectationError::ArrayOfLength(clipped(unnamed.len())),
                            ),
                        )
                    } else {
                        encode_positional(schema, unnamed, items, items.len(), fuel)
                    },
                    _ => Err(EncodeErrorView::Expectation(ExpectationError::Array)),
                }
            },
            FieldsView::Empty => Ok(Seq::empty()),
        },
    }
}

/// The bytes of the first `n` of `items`, each under `declaration`.
pub open spec fn encode_items(
    schema: SchemaView,
    declaration: Seq<char>,
    items: Seq<JsonView>,
    n: nat,
    fuel: nat,
) -> Result<Seq<u8>, EncodeErrorView>
    decreases fuel, 1nat, n,
{
    if n == 0 || n > items.len() {
        Ok(Seq::empty())
    } else {
        match encode_items(schema, declaration, items, (n - 1) as nat, fuel) {
            Err(e) => Err(e),
            Ok(front) => match encode_value(schema, declaration, items[n - 1], fuel) {
                Ok(bytes) => Ok(front + bytes),
                Err(e) => Err(e),
            },
        }
    }
}

/// The bytes of the first `n` of `items`, each under the declaration at its
/// place.
pub open spec fn encode_positional(
    schema: SchemaView,
    declarations: Seq<Seq<char>>,
    items: Seq<JsonView>,
    n: nat,
    fuel: nat,
) -> Result<Seq<u8>, EncodeErrorView>
    decreases fuel, 1nat, n,
{
    if n == 0 || n > items.len() || n > declarations.len() {
        Ok(Seq::empty())
    } else {
        match encode_positional(schema, declarations, items, (n - 1) as nat, fuel) {
            Err(e) => Err(e),
            Ok(front) => match encode_value(schema, declarations[n - 1], items[n - 1], fuel) {
                Ok(bytes) => Ok(front + bytes),
                Err(e) => Err(e),
            },
        }
    }
}

/// The bytes of the first `n` of `fields`, each taken from `entries` by its
/// name.
pub open spec fn encode_named(
    schema: SchemaView,
    fields: Seq<(Seq<char>, Seq<char>)>,
    entries: Seq<(Seq<char>, JsonView)>,
    n: nat,
    fuel: nat,
) -> Result<Seq<u8>, EncodeErrorView>
    decreases fuel, 1nat, n,
{
    if n == 0 || n > fields.len() {
        Ok(Seq::empty())
    } else {
        match encode_named(schema, fields, entries, (n - 1) as nat, fuel) {
            Err(e) => Err(e),
            Ok(front) => match position_of(entries, fields[n - 1].0) {
                None => Err(EncodeErrorView::MissingProperty(fields[n - 1].0)),
                Some(i) => match encode_value(schema, fields[n - 1].1, entries[i].1, fuel) {
                    Ok(bytes) => Ok(front + bytes),
                    Err(e) => Err(e),
                },
            },
        }
    }
}

/// How many definitions a walk over `value` may enter one inside the other:
/// two more than the value is deep, for each definition and one more. Where
/// that can be counted it is enough for every walk that comes to an end
/// (`writes_end::lemma_encode_ends`).
pub open spec fn encode_fuel(schema: SchemaView, value: JsonView) -> nat {
    let depth = if value.depth() <= usize::MAX {
        value.depth()
    } else {
        usize::MAX as nat
    };
    let fuel = (depth + 2) * (schema.definitions.len() + 1);
    if fuel <= usize::MAX {
        fuel
    } else {
        usize::MAX as nat
    }
}

/// The bytes of `value` under the root declaration of `schema`.
pub open spec fn encode(schema: SchemaView, value: JsonView) -> Result<Seq<u8>, EncodeErrorView> {
    encode_value(schema, schema.declaration, value, encode_fuel(schema, value))
}

/// Whether a sink that held `before` holds `after` once a write has ended
/// in `r`, where `expected` was to be written.
pub open spec fn written(
    before: Seq<u8>,
    after: Seq<u8>,
    r: Result<(), EncodeError>,
    expected: Result<Seq<u8>, EncodeErrorView>,
) -> bool {
    match r {
        Ok(()) => match expected {
            Ok(bytes) => after == before + bytes,
            Err(_) => false,
        },
        Err(e) => expected == Err::<Seq<u8>, EncodeErrorView>(e@) && starts(after, before),
    }
}

fn number_expected() -> (r: Result<(), EncodeError>)
    ensures
        r == Err::<(), EncodeError>(EncodeError::Expectation(ExpectationError::Number)),
{
    Err(EncodeError::Expectation(ExpectationError::Number))
}

fn string_expected() -> (r: Result<(), EncodeError>)
    ensures
        r == Err::<(), EncodeError>(EncodeError::Expectation(ExpectationError::String)),
{
    Err(EncodeError::Expectation(ExpectationError::String))
}

/// Appends `value` as an unsigned integer of `width` bytes.
fn serialize_unsigned(writer: &mut Vec<u8>, value: &Json, width: usize) -> (r: Result<
    (),
    EncodeError,
>)
    requires
        width == 1 || width == 2 || width == 4 || width == 8,
    ensures
        written(old(writer)@, final(writer)@, r, encode_unsigned(value@, width as nat)),
{
    proof {
        lemma_pow256_values();
        lemma_starts_append(writer@, Seq::empty());
        assert(writer@ + Seq::<u8>::empty() =~= writer@);
    }
    match value {
        Json::Number(Number::PosInt(n)) => {
            let limit: u64 = if width == 1 {
                0xff
            } else if width == 2 {
                0xffff
            } else if width == 4 {
                0xffff_ffff
            } else {
                u64::MAX
            };
            if *n <= limit {
                write_le(writer, *n as u128, width);
                Ok(())
            } else {
                number_expected()
            }
        },
        _ => number_expected(),
    }
}

/// Appends `value` as a signed integer of `width` bytes.
fn serialize_signed(writer: &mut Vec<u8>, value: &Json, width: usize) -> (r: Result<
    (),
    EncodeError,
>)
    requires
        width == 1 || width == 2 || width == 4 || width == 8,
    ensures
        written(old(writer)@, final(writer)@, r, encode_signed(value@, width as nat)),
{
    proof {
        lemma_pow256_values();
        lemma_starts_append(writer@, Seq::empty());
        assert(writer@ + Seq::<u8>::empty() =~= writer@);
    }
    let v: i128 = match value {
        Json::Number(Number::PosInt(n)) => {
            if *n > i64::MAX as u64 {
                return number_expected();
            }
            *n as i128
        },
        Json::Number(Number::NegInt(n)) => *n as i128,
        _ => {
            return number_expected();
        },
    };
    let (low, high): (i128, i128) = if width == 1 {
        (-0x80, 0x7f)
    } else if width == 2 {
        (-0x8000, 0x7fff)
    } else if width == 4 {
        (-0x8000_0000, 0x7fff_ffff)
    } else {
        (-0x8000_0000_0000_0000, 0x7fff_ffff_ffff_ffff)
    };
    if low <= v && v <= high {
        write_signed(writer, v, width);
        Ok(())
    } else {
        number_expected()
    }
}

/// Appends `value` as the primitive `p`.
fn serialize_primitive(writer: &mut Vec<u8>, p: Primitive, value: &Json) -> (r: Result<
    (),
    EncodeError,
>)
    ensures
        written(old(writer)@, final(writer)@, r, encode_primitive(p, value@)),
{
    proof {
        lemma_pow256_values();
        lemma_starts_append(writer@, Seq::empty());
        assert(writer@ + Seq::<u8>::empty() =~= writer@);
    }
    match p {
        Primitive::U8 => serialize_unsigned(writer, value, 1),
        Primitive::U16 => serialize_unsigned(writer, value, 2),
        Primitive::U32 => serialize_unsigned(writer, value, 4),
        Primitive::U64 => serialize_unsigned(writer, value, 8),
        Primitive::U128 => match value {
            Json::String(s) => match parse_u128(s.as_str()) {
                Some(n) => {
                    write_le(writer, n, 16);
                    Ok(())
                },
                None => string_expected(),
            },
            _ => string_expected(),
        },
        Primitive::I8 => serialize_signed(writer, value, 1),
        Primitive::I16 => serialize_signed(writer, value, 2),
        Primitive::I32 => serialize_signed(writer, value, 4),
        Primitive::I64 => serialize_signed(writer, value, 8),
        Primitive::I128 => match value {
            Json::String(s) => match parse_i128(s.as_str()) {
                Some(v) => {
                    write_signed(writer, v, 16);
                    Ok(())
                },
                None => string_expected(),
            },
            _ => string_expected(),
        },
        Primitive::F32 => match value {
            Json::Number(n) => {
                let double = number_to_double(n);
                if !double_is_finite(double) {
                    return number_expected();
                }
                let single = narrow(double);
                if single_is_finite(single) {
                    write_le(writer, single as u128, 4);
                    Ok(())
                } else {
                    number_expected()
                }
            },
            _ => number_expected(),
        },
        Primitive::F64 => match value {
            Json::Number(n) => {
                let double = number_to_double(n);
                if double_is_finite(double) {
                    write_le(writer, double as u128, 8);
                    Ok(())
                } else {
                    number_expected()
                }
            },
            _ => number_expected(),
        },
        Primitive::String => match value {
            Json::String(s) => {
                if write_string(writer, s.as_str()) {
                    Ok(())
                } else {
                    Err(EncodeError::TooLong)
                }
            },
            _ => string_expected(),
        },
        Primitive::Bool => match value {
            Json::Bool(b) => {
                write_bool(writer, *b);
                Ok(())
            },
            _ => Err(EncodeError::Expectation(ExpectationError::Boolean)),
        },
    }
}

/// A failure among the first `n` items is the failure of any longer run.
pub proof fn lemma_items_failure(
    schema: SchemaView,
    declaration: Seq<char>,
    items: Seq<JsonView>,
    n: nat,
    m: nat,
    fuel: nat,
)
    requires
        n <= m <= items.len(),
        encode_items(schema, declaration, items, n, fuel) is Err,
    ensures
        encode_items(schema, declaration, items, m, fuel) == encode_items(
            schema,
            declaration,
            items,
            n,
            fuel,
        ),
    decreases m - n,
{
    if n < m {
        lemma_items_failure(schema, declaration, items, n, (m - 1) as nat, fuel);
    }
}

/// A failure among the first `n` places is the failure of any longer run.
pub proof fn lemma_positional_failure(
    schema: SchemaView,
    declarations: Seq<Seq<char>>,
    items: Seq<JsonView>,
    n: nat,
    m: nat,
    fuel: nat,
)
    requires
        n <= m <= items.len(),
        m <= declarations.len(),
        encode_positional(schema, declarations, items, n, fuel) is Err,
    ensures
        encode_positional(schema, declarations, items, m, fuel) == encode_positional(
            schema,
            declarations,
            items,
            n,
            fuel,
        ),
    decreases m - n,
{
    if n < m {
        lemma_positional_failure(schema, declarations, items, n, (m - 1) as nat, fuel);
    }
}

/// A failure among the first `n` fields is the failure of any longer run.
pub proof fn lemma_named_failure(
    schema: SchemaView,
    fields: Seq<(Seq<char>, Seq<char>)>,
    entries: Seq<(Seq<char>, JsonView)>,
    n: nat,
    m: nat,
    fuel: nat,
)
    requires
        n <= m <= fields.len(),
        encode_named(schema, fields, entries, n, fuel) is Err,
    ensures
        encode_named(schema, fields, entries, m, fuel) == encode_named(
            schema,
            fields,
            entries,
            n,
            fuel,
        ),
    decreases m - n,
{
    if n < m {
        lemma_named_failure(schema, fields, entries, n, (m - 1) as nat, fuel);
    }
}

/// Appends each of `items` under `declaration`.
fn serialize_items(
    writer: &mut Vec<u8>,
    items: &Vec<Json>,
    schema: &Schema,
    declaration: &str,
    fuel: usize,
) -> (r: Result<(), EncodeError>)
    ensures
        written(
            old(writer)@,
            final(writer)@,
            r,
            encode_items(schema@, declaration@, items_view(items@), items@.len(), fuel as nat),
        ),
    decreases fuel, 1nat,
{
    let ghost views = items_view(items@);
    let ghost mut done: Seq<u8> = Seq::empty();
    assert(writer@ + done =~= writer@);
    let mut i: usize = 0;
    while i < items.len()
        invariant
            i <= items.len(),
            views == items_view(items@),
            encode_items(schema@, declaration@, views, i as nat, fuel as nat) == Ok::<
                Seq<u8>,
                EncodeErrorView,
            >(done),
            writer@ == old(writer)@ + done,
        decreases items.len() - i,
    {
        let ghost before = writer@;
        let ghost step = encode_value(schema@, declaration@, views[i as int], fuel as nat);
        match serialize_declaration_with_schema(writer, &items[i], schema, declaration, fuel) {
            Ok(()) => {
                proof {
                    done = done + step->Ok_0;
                    assert(writer@ =~= old(writer)@ + done);
                }
            },
            Err(e) => {
                proof {
                    lemma_items_failure(
                        schema@,
                        declaration@,
                        views,
                        (i + 1) as nat,
                        items@.len(),
                        fuel as nat,
                    );
                    lemma_starts_append(old(writer)@, before.skip(old(writer)@.len() as int));
                    assert(old(writer)@ + before.skip(old(writer)@.len() as int) =~= before);
                    lemma_starts_transitive(old(writer)@, before, writer@);
                }
                return Err(e);
            },
        }
        i += 1;
    }
    Ok(())
}

/// Appends each of `items` under the declaration at its place.
fn serialize_positional(
    writer: &mut Vec<u8>,
    items: &Vec<Json>,
    schema: &Schema,
    declarations: &Vec<String>,
    fuel: usize,
) -> (r: Result<(), EncodeError>)
    requires
        items@.len() == declarations@.len(),
    ensures
        written(
            old(writer)@,
            final(writer)@,
            r,
            encode_positional(
                schema@,
                names_view(declarations@),
                items_view(items@),
                items@.len(),
                fuel as nat,
            ),
        ),
    decreases fuel, 1nat,
{
    let ghost views = items_view(items@);
    let ghost names = names_view(declarations@);
    let ghost mut done: Seq<u8> = Seq::empty();
    assert(writer@ + done =~= writer@);
    let mut i: usize = 0;
    while i < items.len()
        invariant
            i <= items.len(),
            items@.len() == declarations@.len(),
            views == items_view(items@),
            names == names_view(declarations@),
            encode_positional(schema@, names, views, i as nat, fuel as nat) == Ok::<
                Seq<u8>,
                EncodeErrorView,
            >(done),
            writer@ == old(writer)@ + done,
        decreases items.len() - i,
    {
        let ghost before = writer@;
        let ghost step = encode_value(schema@, names[i as int], views[i as int], fuel as nat);
        match serialize_declaration_with_schema(
            writer,
            &items[i],
            schema,
            declarations[i].as_str(),
            fuel,
        ) {
            Ok(()) => {
                proof {
                    done = done + step->Ok_0;
                    assert(writer@ =~= old(writer)@ + done);
                }
            },
            Err(e) => {
                proof {
                    lemma_positional_failure(
                        schema@,
                        names,
                        views,
                        (i + 1) as nat,
                        items@.len(),
                        fuel as nat,
                    );
                    lemma_starts_append(old(writer)@, before.skip(old(writer)@.len() as int));
                    assert(old(writer)@ + before.skip(old(writer)@.len() as int) =~= before);
                    lemma_starts_transitive(old(writer)@, before, writer@);
                }
                return Err(e);
            },
        }
        i += 1;
    }
    Ok(())
}

/// Appends, for each of `fields`, the value that `entries` hold under its
/// name.
fn serialize_named(
    writer: &mut Vec<u8>,
    entries: &Vec<(String, Json)>,
    schema: &Schema,
    fields: &Vec<(String, String)>,
    fuel: usize,
) -> (r: Result<(), EncodeError>)
    ensures
        written(
            old(writer)@,
            final(writer)@,
            r,
            encode_named(
                schema@,
                pairs_view(fields@),
                entries_view(entries@),
                fields@.len(),
                fuel as nat,
            ),
        ),
    decreases fuel, 1nat,
{
    let ghost views = entries_view(entries@);
    let ghost names = pairs_view(fields@);
    let ghost mut done: Seq<u8> = Seq::empty();
    assert(writer@ + done =~= writer@);
    let mut i: usize = 0;
    while i < fields.len()
        invariant
            i <= fields.len(),
            views == entries_view(entries@),
            names == pairs_view(fields@),
            encode_named(schema@, names, views, i as nat, fuel as nat) == Ok::<
                Seq<u8>,
                EncodeErrorView,
            >(done),
            writer@ == old(writer)@ + done,
        decreases fields.len() - i,
    {
        let ghost before = writer@;
        proof {
            lemma_starts_append(old(writer)@, done);
        }
        let key = fields[i].0.as_str();
        match find(entries, key) {
            None => {
                proof {
                    lemma_position_is_none(views, key@);
                    lemma_named_failure(
                        schema@,
                        names,
                        views,
                        (i + 1) as nat,
                        fields@.len(),
                        fuel as nat,
                    );
                }
                return Err(EncodeError::MissingProperty(owned(key)));
            },
            Some(at) => {
                proof {
                    lemma_position_is_first(views, key@, at as int);
                }
                let ghost step = encode_value(
                    schema@,
                    names[i as int].1,
                    views[at as int].1,
                    fuel as nat,
                );
                match serialize_declaration_with_schema(
                    writer,
                    &entries[at].1,
                    schema,
                    fields[i].1.as_str(),
                    fuel,
                ) {
                    Ok(()) => {
                        proof {
                            done = done + step->Ok_0;
                            assert(writer@ =~= old(writer)@ + done);
                        }
                    },
                    Err(e) => {
                        proof {
                            lemma_named_failure(
                                schema@,
                                names,
                                views,
                                (i + 1) as nat,
                                fields@.len(),
                                fuel as nat,
                            );
                            lemma_starts_transitive(old(writer)@, before, writer@);
                        }
                        return Err(e);
                    },
                }
            },
        }
        i += 1;
    }
    Ok(())
}

fn array_expected() -> (r: Result<(), EncodeError>)
    ensures
        r == Err::<(), EncodeError>(EncodeError::Expectation(ExpectationError::Array)),
{
    Err(EncodeError::Expectation(ExpectationError::Array))
}

fn object_expected() -> (r: Result<(), EncodeError>)
    ensures
        r == Err::<(), EncodeError>(EncodeError::Expectation(ExpectationError::Object)),
{
    Err(EncodeError::Expectation(ExpectationError::Object))
}

fn length_expected(n: usize) -> (r: Result<(), EncodeError>)
    ensures
        r == Err::<(), EncodeError>(
            EncodeError::Expectation(ExpectationError::ArrayOfLength(clipped(n as nat))),
        ),
{
    let shown: u32 = if n > u32::MAX as usize {
        u32::MAX
    } else {
        n as u32
    };
    Err(EncodeError::Expectation(ExpectationError::ArrayOfLength(shown)))
}

/// Appends to `writer` the bytes of `value` under `declaration`, entering
/// at most `fuel` definitions one inside the other.
pub fn serialize_declaration_with_schema(
    writer: &mut Vec<u8>,
    value: &Json,
    schema: &Schema,
    declaration: &str,
    fuel: usize,
) -> (r: Result<(), EncodeError>)
    ensures
        written(
            old(writer)@,
            final(writer)@,
            r,
            encode_value(schema@, declaration@, value@, fuel as nat),
        ),
    decreases fuel, 0nat,
{
    proof {
        lemma_starts_append(writer@, Seq::empty());
        assert(writer@ + Seq::<u8>::empty() =~= writer@);
    }
    match primitive(declaration) {
        Some(p) => {
            return serialize_primitive(writer, p, value);
        },
        None => {},
    }
    let definition = match schema.get(declaration) {
        Some(definition) => definition,
        None => {
            return Err(EncodeError::UnknownDeclaration(owned(declaration)));
        },
    };
    if fuel == 0 {
        return Err(EncodeError::Endless(owned(declaration)));
    }
    let ghost expected = encode_under(schema@, definition@, value@, (fuel - 1) as nat);
    match definition {
        Definition::Array { length, elements } => match value {
            Json::Array(items) => {
                proof {
                    lemma_array_view(*items);
                }
                if items.len() != *length as usize {
                    Err(EncodeError::Expectation(ExpectationError::ArrayOfLength(*length)))
                } else {
                    serialize_items(writer, items, schema, elements.as_str(), fuel - 1)
                }
            },
            _ => array_expected(),
        },
        Definition::Sequence { elements } => match value {
            Json::Array(items) => {
                proof {
                    lemma_array_view(*items);
                }
                if items.len() > u32::MAX as usize {
                    Err(EncodeError::TooLong)
                } else {
                    write_length(writer, items.len() as u32);
                    let ghost before = writer@;
                    let r = serialize_items(writer, items, schema, elements.as_str(), fuel - 1);
                    proof {
                        lemma_starts_append(old(writer)@, length_bytes(items@.len()));
                        match r {
                            Ok(()) => {
                                assert(writer@ =~= old(writer)@ + expected->Ok_0);
                            },
                            Err(_) => {
                                lemma_starts_transitive(old(writer)@, before, writer@);
                            },
                        }
                    }
                    r
                }
            },
            _ => array_expected(),
        },
        Definition::Tuple { elements } => match value {
            Json::Array(items) => {
                proof {
                    lemma_array_view(*items);
                }
                if items.len() != elements.len() {
                    length_expected(elements.len())
                } else {
                    serialize_positional(writer, items, schema, elements, fuel - 1)
                }
            },
            _ => array_expected(),
        },
        Definition::Enum { variants } => {
            let nothing: Vec<(String, Json)> = Vec::new();
            proof {
                lemma_object_view(nothing);
                assert(entries_view(nothing@) =~= Seq::empty());
            }
            let empty = Json::Object(nothing);
            let (name, payload): (&str, &Json) = match value {
                Json::Object(entries) => {
                    proof {
                        lemma_object_view(*entries);
                    }
                    if entries.len() == 1 {
                        (entries[0].0.as_str(), &entries[0].1)
                    } else {
                        return object_expected();
                    }
                },
                Json::String(s) => (s.as_str(), &empty),
                _ => {
                    return object_expected();
                },
            };
            assert(variant_input(value@) == Some((name@, payload@)));
            match find(variants, name) {
                None => {
                    proof {
                        lemma_position_is_none(pairs_view(variants@), name@);
                    }
                    Err(EncodeError::UnknownVariant(owned(name)))
                },
                Some(at) => {
                    proof {
                        lemma_position_is_first(pairs_view(variants@), name@, at as int);
                    }
                    if at > 255 {
                        Err(EncodeError::VariantOutOfRange(owned(name)))
                    } else {
                        writer.push(at as u8);
                        let ghost before = writer@;
                        let r = serialize_declaration_with_schema(
                            writer,
                            payload,
                            schema,
                            variants[at].1.as_str(),
                            fuel - 1,
                        );
                        proof {
                            assert(before =~= old(writer)@ + seq![at as u8]);
                            lemma_starts_append(old(writer)@, seq![at as u8]);
                            match r {
                                Ok(()) => {
                                    assert(writer@ =~= old(writer)@ + expected->Ok_0);
                                },
                                Err(_) => {
                                    lemma_starts_transitive(old(writer)@, before, writer@);
                                },
                            }
                        }
                        r
                    }
                },
            }
        },
        Definition::Struct { fields } => match fields {
            Fields::NamedFields(named) => match value {
                Json::Object(entries) => {
                    proof {
                        lemma_object_view(*entries);
                    }
                    serialize_named(writer, entries, schema, named, fuel - 1)
                },
                _ => object_expected(),
            },
            Fields::UnnamedFields(unnamed) => {
                if unnamed.len() == 1 {
                    serialize_declaration_with_schema(
                        writer,
                        value,
                        schema,
                        unnamed[0].as_str(),
                        fuel - 1,
                    )
                } else {
                    match value {
                        Json::Array(items) => {
                            proof {
                                lemma_array_view(*items);
                            }
                            if items.len() != unnamed.len() {
                                length_expected(unnamed.len())
                            } else {
                                serialize_positional(writer, items, schema, unnamed, fuel - 1)
                            }
                        },
                        _ => array_expected(),
                    }
                }
            },
            Fields::Empty => Ok(()),
        },
    }
}

/// How many definitions a walk over `value` may enter one inside the other.
fn fuel_to_encode(schema: &Schema, value: &Json) -> (fuel: usize)
    ensures
        fuel == encode_fuel(schema@, value@),
{
    let depth = value.depth();
    let count = schema.definitions.len();
    assert(schema@.definitions.len() == count);
    assert((depth + 2) * (count + 1) >= depth + 2 && (depth + 2) * (count + 1) >= count + 1)
        by (nonlinear_arith);
    let levels = match depth.checked_add(2) {
        Some(levels) => levels,
        None => {
            return usize::MAX;
        },
    };
    let names = match count.checked_add(1) {
        Some(names) => names,
        None => {
            return usize::MAX;
        },
    };
    match levels.checked_mul(names) {
        Some(fuel) => fuel,
        None => usize::MAX,
    }
}

/// Appends to `writer` the bytes of `value` under the root declaration of
/// `schema`. Where the value does not fit the schema, `writer` stays as it
/// was.
pub fn serialize_with_schema(writer: &mut Vec<u8>, value: &Json, schema: &Schema) -> (r: Result<
    (),
    EncodeError,
>)
    ensures
        match r {
            Ok(()) => {
                &&& encode(schema@, value@) is Ok
                &&& final(writer)@ == old(writer)@ + encode(schema@, value@)->Ok_0
            },
            Err(e) => {
                &&& encode(schema@, value@) == Err::<Seq<u8>, EncodeErrorView>(e@)
                &&& final(writer)@ == old(writer)@
            },
        },
{
    let fuel = fuel_to_encode(schema, value);
    let start = writer.len();
    let r = serialize_declaration_with_schema(
        writer,
        value,
        schema,
        schema.declaration.as_str(),
        fuel,
    );
    if r.is_err() {
        writer.truncate(start);
        assert(writer@ =~= old(writer)@);
    }
    r
}

/// A value given as an object with one entry, under the name of a variant,
/// is written as the place of that variant among the variants of its enum,
/// one byte, and then the entry's value under the variant's declaration.
pub proof fn lemma_variant_encoding(
    schema: SchemaView,
    variants: Seq<(Seq<char>, Seq<char>)>,
    at: int,
    payload: JsonView,
    fuel: nat,
)
    requires
        0 <= at < variants.len(),
        at <= 255,
        forall|k: int| 0 <= k < at ==> variants[k].0 != variants[at].0,
    ensures
        encode_under(
            schema,
            DefinitionView::Enum { variants },
            JsonView::Object(seq![(variants[at].0, payload)]),
            fuel,
        ) == match encode_value(schema, variants[at].1, payload, fuel) {
            Ok(bytes) => Ok::<Seq<u8>, EncodeErrorView>(seq![at as u8] + bytes),
            Err(e) => Err(e),
        },
{
    lemma_position_is_first(variants, variants[at].0, at);
}

} // verus!
