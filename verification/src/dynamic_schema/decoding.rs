//! From bytes to the JSON value that they hold under a schema.

use crate::decimal::{decimal, signed_decimal, signed_to_decimal, unsigned_to_decimal};
use crate::dynamic_schema::errors::{DecodeError, DecodeErrorView};
use crate::float::{
    double_is_finite, double_of_single, is_finite_double, is_finite_single, single_is_finite,
    widen,
};
use crate::json::{
    entries_view, items_view, lemma_array_view, lemma_object_view, Json, JsonView, Number,
};
use crate::primitives::lemma_pow256_values;
use crate::schema::{
    find, lemma_position_is_first, lemma_position_is_none, names_view, pairs_view, position_of,
    primitive, primitive_of, Definition, DefinitionView, Fields, FieldsView, Primitive, Schema,
    SchemaView,
};
use crate::text::owned;
use crate::wire::{
    lemma_skip_twice, parse_bool, parse_length, parse_signed_int, parse_string, parse_unsigned_int, read_bool,
    read_length, read_signed, read_string, read_unsigned,
};
use vstd::prelude::*;

verus! {

/// The name under which a schema declares the primitive `p`.
pub open spec fn primitive_name(p: Primitive) -> Seq<char> {
    match p {
        Primitive::U8 => "u8"@,
        Primitive::U16 => "u16"@,
        Primitive::U32 => "u32"@,
        Primitive::U64 => "u64"@,
        Primitive::U128 => "u128"@,
        Primitive::I8 => "i8"@,
        Primitive::I16 => "i16"@,
        Primitive::I32 => "i32"@,
        Primitive::I64 => "i64"@,
        Primitive::I128 => "i128"@,
        Primitive::F32 => "f32"@,
        Primitive::F64 => "f64"@,
        Primitive::String => "string"@,
        Primitive::Bool => "bool"@,
    }
}

/// The JSON number that stands for the integer `v`.
pub open spec fn integer(v: int) -> JsonView {
    if v < 0 {
        JsonView::Number(Number::NegInt(v as i64))
    } else {
        JsonView::Number(Number::PosInt(v as u64))
    }
}

/// The unsigned integer of `width` bytes at the head of `s`, as a JSON
/// number.
pub open spec fn decode_unsigned(s: Seq<u8>, width: nat, name: Seq<char>) -> Result<
    (JsonView, nat),
    DecodeErrorView,
> {
    match parse_unsigned_int(s, width) {
        Some((n, used)) => Ok((integer(n as int), used)),
        None => Err(DecodeErrorView::Malformed(name)),
    }
}

/// The signed integer of `width` bytes at the head of `s`, as a JSON number.
pub open spec fn decode_signed(s: Seq<u8>, width: nat, name: Seq<char>) -> Result<
    (JsonView, nat),
    DecodeErrorView,
> {
    match parse_signed_int(s, width) {
        Some((v, used)) => Ok((integer(v), used)),
        None => Err(DecodeErrorView::Malformed(name)),
    }
}

/// The value of the primitive `p` at the head of `s`, with the number of
/// bytes that it takes. Integers of 128 bits come as decimal strings.
pub open spec fn decode_primitive(p: Primitive, s: Seq<u8>) -> Result<
    (JsonView, nat),
    DecodeErrorView,
> {
    match p {
        Primitive::U8 => decode_unsigned(s, 1, primitive_name(p)),
        Primitive::U16 => decode_unsigned(s, 2, primitive_name(p)),
        Primitive::U32 => decode_unsigned(s, 4, primitive_name(p)),
        Primitive::U64 => decode_unsigned(s, 8, primitive_name(p)),
        Primitive::U128 => match parse_unsigned_int(s, 16) {
            Some((n, used)) => Ok((JsonView::String(decimal(n)), used)),
            None => Err(DecodeErrorView::Malformed(primitive_name(p))),
        },
        Primitive::I8 => decode_signed(s, 1, primitive_name(p)),
        Primitive::I16 => decode_signed(s, 2, primitive_name(p)),
        Primitive::I32 => decode_signed(s, 4, primitive_name(p)),
        Primitive::I64 => decode_signed(s, 8, primitive_name(p)),
        Primitive::I128 => match parse_signed_int(s, 16) {
            Some((v, used)) => Ok((JsonView::String(signed_decimal(v)), used)),
            None => Err(DecodeErrorView::Malformed(primitive_name(p))),
        },
        Primitive::F32 => match parse_unsigned_int(s, 4) {
            Some((n, used)) => if is_finite_single(n as u32) {
                Ok((JsonView::Number(Number::Float(double_of_single(n as u32))), used))
            } else {
                Err(DecodeErrorView::Malformed(primitive_name(p)))
            },
            None => Err(DecodeErrorView::Malformed(primitive_name(p))),
        },
        Primitive::F64 => match parse_unsigned_int(s, 8) {
            Some((n, used)) => if is_finite_double(n as u64) {
                Ok((JsonView::Number(Number::Float(n as u64)), used))
            } else {
                Err(DecodeErrorView::Malformed(primitive_name(p)))
            },
            None => Err(DecodeErrorView::Malformed(primitive_name(p))),
        },
        Primitive::String => match parse_string(s) {
            Some((text, used)) => Ok((JsonView::String(text), used)),
            None => Err(DecodeErrorView::Malformed(primitive_name(p))),
        },
        Primitive::Bool => match parse_bool(s) {
            Some((b, used)) => Ok((JsonView::Bool(b), used)),
            None => Err(DecodeErrorView::Malformed(primitive_name(p))),
        },
    }
}

/// `entries` with `value` under `key`: in the place of the entry that stood
/// under `key`, or at the end.
pub open spec fn with_entry(
    entries: Seq<(Seq<char>, JsonView)>,
    key: Seq<char>,
    value: JsonView,
) -> Seq<(Seq<char>, JsonView)> {
    match position_of(entries, key) {
        Some(i) => entries.update(i, (key, value)),
        None => entries.push((key, value)),
    }
}

/// The value under `declaration` at the head of `s`, with the number of
/// bytes that it takes. `fuel` bounds how many definitions may be entered
/// one inside the other.
pub open spec fn decode_value(
    schema: SchemaView,
    declaration: Seq<char>,
    s: Seq<u8>,
    fuel: nat,
) -> Result<(JsonView, nat), DecodeErrorView>
    decreases fuel, 0nat, 0nat,
{
    match primitive_of(declaration) {
        Some(p) => decode_primitive(p, s),
        None => match schema.lookup(declaration) {
            None => Err(DecodeErrorView::UnknownDeclaration(declaration)),
            Some(definition) => if fuel == 0 {
                Err(DecodeErrorView::Endless(declaration))
            } else {
                decode_under(schema, definition, s, (fuel - 1) as nat)
            },
        },
    }
}

/// The value under `definition` at the head of `s`.
pub open spec fn decode_under(
    schema: SchemaView,
    definition: DefinitionView,
    s: Seq<u8>,
    fuel: nat,
) -> Result<(JsonView, nat), DecodeErrorView>
    decreases fuel, 2nat, 0nat,
{
    match definition {
        DefinitionView::Array { length, elements } => match decode_items(
            schema,
            elements,
            s,
            length as nat,
            fuel,
        ) {
            Ok((items, used)) => Ok((JsonView::Array(items), used)),
            Err(e) => Err(e),
        },
        DefinitionView::Sequence { elements } => match parse_length(s) {
            None => Err(DecodeErrorView::Malformed("u32"@)),
            Some((count, _)) => match decode_items(schema, elements, s.skip(4), count, fuel) {
                Ok((items, used)) => Ok((JsonView::Array(items), 4 + used)),
                Err(e) => Err(e),
            },
        },
        DefinitionView::Tuple { elements } => match decode_positional(
            schema,
            elements,
            s,
            elements.len(),
            fuel,
        ) {
            Ok((items, used)) => Ok((JsonView::Array(items), used)),
            Err(e) => Err(e),
        },
        DefinitionView::Enum { variants } => if s.len() == 0 {
            Err(DecodeErrorView::Malformed("u8"@))
        } else if s[0] >= variants.len() {
            Err(DecodeErrorView::VariantOutOfRange(s[0]))
        } else {
            match decode_value(schema, variants[s[0] as int].1, s.skip(1), fuel) {
                Ok((payload, used)) => Ok(
                    (JsonView::Object(seq![(variants[s[0] as int].0, payload)]), 1 + used),
                ),
                Err(e) => Err(e),
            }
        },
        DefinitionView::Struct { fields } => match fields {
            FieldsView::NamedFields(named) => match decode_named(
                schema,
                named,
                s,
                named.len(),
                fuel,
            ) {
                Ok((entries, used)) => Ok((JsonView::Object(entries), used)),
                Err(e) => Err(e),
            },
            FieldsView::UnnamedFields(unnamed) => match decode_positional(
                schema,
                unnamed,
                s,
                unnamed.len(),
                fuel,
            ) {
                Ok((items, used)) => Ok((JsonView::Array(items), used)),
                Err(e) => Err(e),
            },
            FieldsView::Empty => Ok((JsonView::Array(Seq::empty()), 0)),
        },
    }
}

/// `n` values under `declaration`, one after the other from the head of `s`.
pub open spec fn decode_items(
    schema: SchemaView,
    declaration: Seq<char>,
    s: Seq<u8>,
    n: nat,
    fuel: nat,
) -> Result<(Seq<JsonView>, nat), DecodeErrorView>
    decreases fuel, 1nat, n,
{
    if n == 0 {
        Ok((Seq::empty(), 0))
    } else {
        match decode_items(schema, declaration, s, (n - 1) as nat, fuel) {
            Err(e) => Err(e),
            Ok((front, used)) => match decode_value(schema, declaration, s.skip(used as int), fuel) {
                Ok((value, more)) => Ok((front.push(value), used + more)),
                Err(e) => Err(e),
            },
        }
    }
}

/// The values under the first `n` of `declarations`, one after the other
/// from the head of `s`.
pub open spec fn decode_positional(
    schema: SchemaView,
    declarations: Seq<Seq<char>>,
    s: Seq<u8>,
    n: nat,
    fuel: nat,
) -> Result<(Seq<JsonView>, nat), DecodeErrorView>
    decreases fuel, 1nat, n,
{
    if n == 0 || n > declarations.len() {
        Ok((Seq::empty(), 0))
    } else {
        match decode_positional(schema, declarations, s, (n - 1) as nat, fuel) {
            Err(e) => Err(e),
            Ok((front, used)) => match decode_value(
                schema,
                declarations[n - 1],
                s.skip(used as int),
                fuel,
            ) {
                Ok((value, more)) => Ok((front.push(value), used + more)),
                Err(e) => Err(e),
            },
        }
    }
}

/// The values of the first `n` of `fields`, one after the other from the
/// head of `s`, each under the name of its field.
pub open spec fn decode_named(
    schema: SchemaView,
    fields: Seq<(Seq<char>, Seq<char>)>,
    s: Seq<u8>,
    n: nat,
    fuel: nat,
) -> Result<(Seq<(Seq<char>, JsonView)>, nat), DecodeErrorView>
    decreases fuel, 1nat, n,
{
    if n == 0 || n > fields.len() {
        Ok((Seq::empty(), 0))
    } else {
        match decode_named(schema, fields, s, (n - 1) as nat, fuel) {
            Err(e) => Err(e),
            Ok((front, used)) => match decode_value(
                schema,
                fields[n - 1].1,
                s.skip(used as int),
                fuel,
            ) {
                Ok((value, more)) => Ok((with_entry(front, fields[n - 1].0, value), used + more)),
                Err(e) => Err(e),
            },
        }
    }
}

/// How many definitions a walk over `len` bytes may enter one inside the
/// other: one more than there are bytes, for each definition and one more.
/// Where that can be counted it is enough for every walk that comes to an
/// end (`reads_end::lemma_decode_ends`).
pub open spec fn decode_fuel(schema: SchemaView, len: nat) -> nat {
    let fuel = (len + 1) * (schema.definitions.len() + 1);
    if fuel <= usize::MAX {
        fuel
    } else {
        usize::MAX as nat
    }
}

/// The value under the root declaration of `schema` at the head of `s`,
/// with the number of bytes that it takes.
pub open spec fn decode(schema: SchemaView, s: Seq<u8>) -> Result<
    (JsonView, nat),
    DecodeErrorView,
> {
    decode_value(schema, schema.declaration, s, decode_fuel(schema, s.len()))
}

/// Whether a read at `pos` that ended in `r` is the read that was
/// `expected` of the bytes from `pos` on, with `len` bytes in all.
pub open spec fn read_as(
    r: Result<(Json, usize), DecodeError>,
    pos: usize,
    len: usize,
    expected: Result<(JsonView, nat), DecodeErrorView>,
) -> bool {
    match r {
        Ok((value, next)) => pos <= next <= len && expected == Ok::<
            (JsonView, nat),
            DecodeErrorView,
        >((value@, (next - pos) as nat)),
        Err(e) => expected == Err::<(JsonView, nat), DecodeErrorView>(e@),
    }
}

/// The name under which a schema declares the primitive `p`.
pub fn name_of(p: Primitive) -> (r: String)
    ensures
        r@ == primitive_name(p),
{
    match p {
        Primitive::U8 => owned("u8"),
        Primitive::U16 => owned("u16"),
        Primitive::U32 => owned("u32"),
        Primitive::U64 => owned("u64"),
        Primitive::U128 => owned("u128"),
        Primitive::I8 => owned("i8"),
        Primitive::I16 => owned("i16"),
        Primitive::I32 => owned("i32"),
        Primitive::I64 => owned("i64"),
        Primitive::I128 => owned("i128"),
        Primitive::F32 => owned("f32"),
        Primitive::F64 => owned("f64"),
        Primitive::String => owned("string"),
        Primitive::Bool => owned("bool"),
    }
}

/// The JSON number that stands for `v`.
fn integer_value(v: i128) -> (r: Json)
    requires
        i64::MIN <= v <= u64::MAX,
    ensures
        r@ == integer(v as int),
{
    if v < 0 {
        Json::Number(Number::NegInt(v as i64))
    } else {
        Json::Number(Number::PosInt(v as u64))
    }
}

fn malformed(p: Primitive) -> (r: Result<(Json, usize), DecodeError>)
    ensures
        r matches Err(e) && e@ == DecodeErrorView::Malformed(primitive_name(p)),
{
    Err(DecodeError::Malformed(name_of(p)))
}

/// Reads at `pos` an unsigned integer of `width` bytes.
fn deserialize_unsigned(buf: &[u8], pos: usize, width: usize, p: Primitive) -> (r: Result<
    (Json, usize),
    DecodeError,
>)
    requires
        pos <= buf.len(),
        width == 1 || width == 2 || width == 4 || width == 8,
    ensures
        read_as(
            r,
            pos,
            buf.len(),
            decode_unsigned(buf@.skip(pos as int), width as nat, primitive_name(p)),
        ),
{
    proof {
        lemma_pow256_values();
    }
    match read_unsigned(buf, pos, width) {
        Some((n, next)) => Ok((integer_value(n as i128), next)),
        None => malformed(p),
    }
}

/// Reads at `pos` a signed integer of `width` bytes.
fn deserialize_signed(buf: &[u8], pos: usize, width: usize, p: Primitive) -> (r: Result<
    (Json, usize),
    DecodeError,
>)
    requires
        pos <= buf.len(),
        width == 1 || width == 2 || width == 4 || width == 8,
    ensures
        read_as(
            r,
            pos,
            buf.len(),
            decode_signed(buf@.skip(pos as int), width as nat, primitive_name(p)),
        ),
{
    proof {
        lemma_pow256_values();
    }
    match read_signed(buf, pos, width) {
        Some((v, next)) => Ok((integer_value(v), next)),
        None => malformed(p),
    }
}

/// Reads the primitive `p` at `pos`; gives its value with the position
/// behind it.
pub fn deserialize_primitive(buf: &[u8], pos: usize, p: Primitive) -> (r: Result<
    (Json, usize),
    DecodeError,
>)
    requires
        pos <= buf.len(),
    ensures
        read_as(r, pos, buf.len(), decode_primitive(p, buf@.skip(pos as int))),
{
    proof {
        lemma_pow256_values();
    }
    match p {
        Primitive::U8 => deserialize_unsigned(buf, pos, 1, p),
        Primitive::U16 => deserialize_unsigned(buf, pos, 2, p),
        Primitive::U32 => deserialize_unsigned(buf, pos, 4, p),
        Primitive::U64 => deserialize_unsigned(buf, pos, 8, p),
        Primitive::U128 => match read_unsigned(buf, pos, 16) {
            Some((n, next)) => Ok((Json::String(unsigned_to_decimal(n)), next)),
            None => malformed(p),
        },
        Primitive::I8 => deserialize_signed(buf, pos, 1, p),
        Primitive::I16 => deserialize_signed(buf, pos, 2, p),
        Primitive::I32 => deserialize_signed(buf, pos, 4, p),
        Primitive::I64 => deserialize_signed(buf, pos, 8, p),
        Primitive::I128 => match read_signed(buf, pos, 16) {
            Some((v, next)) => Ok((Json::String(signed_to_decimal(v)), next)),
            None => malformed(p),
        },
        Primitive::F32 => match read_unsigned(buf, pos, 4) {
            Some((n, next)) => {
                let bits = n as u32;
                if single_is_finite(bits) {
                    Ok((Json::Number(Number::Float(widen(bits))), next))
                } else {
                    malformed(p)
                }
            },
            None => malformed(p),
        },
        Primitive::F64 => match read_unsigned(buf, pos, 8) {
            Some((n, next)) => {
                let bits = n as u64;
                if double_is_finite(bits) {
                    Ok((Json::Number(Number::Float(bits)), next))
                } else {
                    malformed(p)
                }
            },
            None => malformed(p),
        },
        Primitive::String => match read_string(buf, pos) {
            Some((text, next)) => Ok((Json::String(text), next)),
            None => malformed(p),
        },
        Primitive::Bool => match read_bool(buf, pos) {
            Some((b, next)) => Ok((Json::Bool(b), next)),
            None => malformed(p),
        },
    }
}

/// A failure among the first `n` items is the failure of any longer run.
pub proof fn lemma_items_failure(
    schema: SchemaView,
    declaration: Seq<char>,
    s: Seq<u8>,
    n: nat,
    m: nat,
    fuel: nat,
)
    requires
        n <= m,
        decode_items(schema, declaration, s, n, fuel) is Err,
    ensures
        decode_items(schema, declaration, s, m, fuel) == decode_items(
            schema,
            declaration,
            s,
            n,
            fuel,
        ),
    decreases m - n,
{
    if n < m {
        lemma_items_failure(schema, declaration, s, n, (m - 1) as nat, fuel);
    }
}

/// A failure among the first `n` places is the failure of any longer run.
pub proof fn lemma_positional_failure(
    schema: SchemaView,
    declarations: Seq<Seq<char>>,
    s: Seq<u8>,
    n: nat,
    m: nat,
    fuel: nat,
)
    requires
        n <= m <= declarations.len(),
        decode_positional(schema, declarations, s, n, fuel) is Err,
    ensures
        decode_positional(schema, declarations, s, m, fuel) == decode_positional(
            schema,
            declarations,
            s,
            n,
            fuel,
        ),
    decreases m - n,
{
    if n < m {
        lemma_positional_failure(schema, declarations, s, n, (m - 1) as nat, fuel);
    }
}

/// A failure among the first `n` fields is the failure of any longer run.
pub proof fn lemma_named_failure(
    schema: SchemaView,
    fields: Seq<(Seq<char>, Seq<char>)>,
    s: Seq<u8>,
    n: nat,
    m: nat,
    fuel: nat,
)
    requires
        n <= m <= fields.len(),
        decode_named(schema, fields, s, n, fuel) is Err,
    ensures
        decode_named(schema, fields, s, m, fuel) == decode_named(schema, fields, s, n, fuel),
    decreases m - n,
{
    if n < m {
        lemma_named_failure(schema, fields, s, n, (m - 1) as nat, fuel);
    }
}

/// Puts `value` under `key`: in the place of the entry that stood under
/// `key`, or at the end.
pub fn insert_entry(entries: &mut Vec<(String, Json)>, key: String, value: Json)
    ensures
        entries_view(final(entries)@) == with_entry(entries_view(old(entries)@), key@, value@),
{
    let ghost before = entries_view(entries@);
    match find(entries, key.as_str()) {
        Some(at) => {
            proof {
                lemma_position_is_first(before, key@, at as int);
            }
            entries.set(at, (key, value));
            assert(entries_view(entries@) =~= before.update(at as int, (key@, value@)));
        },
        None => {
            proof {
                lemma_position_is_none(before, key@);
            }
            entries.push((key, value));
            assert(entries_view(entries@) =~= before.push((key@, value@)));
        },
    }
}

/// Reads at `pos` `n` values under `declaration`, one after the other.
fn deserialize_items(
    buf: &[u8],
    pos: usize,
    schema: &Schema,
    declaration: &str,
    n: usize,
    fuel: usize,
) -> (r: Result<(Vec<Json>, usize), DecodeError>)
    requires
        pos <= buf.len(),
    ensures
        match r {
            Ok((items, next)) => pos <= next <= buf.len() && decode_items(
                schema@,
                declaration@,
                buf@.skip(pos as int),
                n as nat,
                fuel as nat,
            ) == Ok::<(Seq<JsonView>, nat), DecodeErrorView>(
                (items_view(items@), (next - pos) as nat),
            ),
            Err(e) => decode_items(
                schema@,
                declaration@,
                buf@.skip(pos as int),
                n as nat,
                fuel as nat,
            ) == Err::<(Seq<JsonView>, nat), DecodeErrorView>(e@),
        },
    decreases fuel, 1nat,
{
    let ghost s = buf@.skip(pos as int);
    let mut items: Vec<Json> = Vec::new();
    let mut at: usize = pos;
    let mut i: usize = 0;
    assert(items_view(items@) =~= Seq::empty());
    while i < n
        invariant
            i <= n,
            pos <= at <= buf.len(),
            s == buf@.skip(pos as int),
            decode_items(schema@, declaration@, s, i as nat, fuel as nat) == Ok::<
                (Seq<JsonView>, nat),
                DecodeErrorView,
            >((items_view(items@), (at - pos) as nat)),
        decreases n - i,
    {
        proof {
            lemma_skip_twice(buf@, pos as int, at - pos);
        }
        match deserialize_declaration_from_schema(buf, at, schema, declaration, fuel) {
            Ok((value, next)) => {
                let ghost before = items_view(items@);
                items.push(value);
                assert(items_view(items@) =~= before.push(value@));
                at = next;
            },
            Err(e) => {
                proof {
                    lemma_items_failure(
                        schema@,
                        declaration@,
                        s,
                        (i + 1) as nat,
                        n as nat,
                        fuel as nat,
                    );
                }
                return Err(e);
            },
        }
        i += 1;
    }
    Ok((items, at))
}

/// Reads at `pos` one value under each of `declarations`, one after the
/// other.
fn deserialize_positional(
    buf: &[u8],
    pos: usize,
    schema: &Schema,
    declarations: &Vec<String>,
    fuel: usize,
) -> (r: Result<(Vec<Json>, usize), DecodeError>)
    requires
        pos <= buf.len(),
    ensures
        match r {
            Ok((items, next)) => pos <= next <= buf.len() && decode_positional(
                schema@,
                names_view(declarations@),
                buf@.skip(pos as int),
                declarations@.len(),
                fuel as nat,
            ) == Ok::<(Seq<JsonView>, nat), DecodeErrorView>(
                (items_view(items@), (next - pos) as nat),
            ),
            Err(e) => decode_positional(
                schema@,
                names_view(declarations@),
                buf@.skip(pos as int),
                declarations@.len(),
                fuel as nat,
            ) == Err::<(Seq<JsonView>, nat), DecodeErrorView>(e@),
        },
    decreases fuel, 1nat,
{
    let ghost s = buf@.skip(pos as int);
    let ghost names = names_view(declarations@);
    let mut items: Vec<Json> = Vec::new();
    let mut at: usize = pos;
    let mut i: usize = 0;
    assert(items_view(items@) =~= Seq::empty());
    while i < declarations.len()
        invariant
            i <= declarations.len(),
            pos <= at <= buf.len(),
            s == buf@.skip(pos as int),
            names == names_view(declarations@),
            decode_positional(schema@, names, s, i as nat, fuel as nat) == Ok::<
                (Seq<JsonView>, nat),
                DecodeErrorView,
            >((items_view(items@), (at - pos) as nat)),
        decreases declarations.len() - i,
    {
        proof {
            lemma_skip_twice(buf@, pos as int, at - pos);
        }
        match deserialize_declaration_from_schema(
            buf,
            at,
            schema,
            declarations[i].as_str(),
            fuel,
        ) {
            Ok((value, next)) => {
                let ghost before = items_view(items@);
                items.push(value);
                assert(items_view(items@) =~= before.push(value@));
                at = next;
            },
            Err(e) => {
                proof {
                    lemma_positional_failure(
                        schema@,
                        names,
                        s,
                        (i + 1) as nat,
                        declarations@.len(),
                        fuel as nat,
                    );
                }
                return Err(e);
            },
        }
        i += 1;
    }
    Ok((items, at))
}

/// Reads at `pos` one value for each of `fields`, one after the other, and
/// puts each under the name of its field.
fn deserialize_named(
    buf: &[u8],
    pos: usize,
    schema: &Schema,
    fields: &Vec<(String, String)>,
    fuel: usize,
) -> (r: Result<(Vec<(String, Json)>, usize), DecodeError>)
    requires
        pos <= buf.len(),
    ensures
        match r {
            Ok((entries, next)) => pos <= next <= buf.len() && decode_named(
                schema@,
                pairs_view(fields@),
                buf@.skip(pos as int),
                fields@.len(),
                fuel as nat,
            ) == Ok::<(Seq<(Seq<char>, JsonView)>, nat), DecodeErrorView>(
                (entries_view(entries@), (next - pos) as nat),
            ),
            Err(e) => decode_named(
                schema@,
                pairs_view(fields@),
                buf@.skip(pos as int),
                fields@.len(),
                fuel as nat,
            ) == Err::<(Seq<(Seq<char>, JsonView)>, nat), DecodeErrorView>(e@),
        },
    decreases fuel, 1nat,
{
    let ghost s = buf@.skip(pos as int);
    let ghost names = pairs_view(fields@);
    let mut entries: Vec<(String, Json)> = Vec::new();
    let mut at: usize = pos;
    let mut i: usize = 0;
    assert(entries_view(entries@) =~= Seq::empty());
    while i < fields.len()
        invariant
            i <= fields.len(),
            pos <= at <= buf.len(),
            s == buf@.skip(pos as int),
            names == pairs_view(fields@),
            decode_named(schema@, names, s, i as nat, fuel as nat) == Ok::<
                (Seq<(Seq<char>, JsonView)>, nat),
                DecodeErrorView,
            >((entries_view(entries@), (at - pos) as nat)),
        decreases fields.len() - i,
    {
        proof {
            lemma_skip_twice(buf@, pos as int, at - pos);
        }
        match deserialize_declaration_from_schema(buf, at, schema, fields[i].1.as_str(), fuel) {
            Ok((value, next)) => {
                insert_entry(&mut entries, fields[i].0.clone(), value);
                at = next;
            },
            Err(e) => {
                proof {
                    lemma_named_failure(
                        schema@,
                        names,
                        s,
                        (i + 1) as nat,
                        fields@.len(),
                        fuel as nat,
                    );
                }
                return Err(e);
            },
        }
        i += 1;
    }
    Ok((entries, at))
}

/// Reads at `pos` the value under `declaration`, entering at most `fuel`
/// definitions one inside the other; gives the value with the position
/// behind it.
pub fn deserialize_declaration_from_schema(
    buf: &[u8],
    pos: usize,
    schema: &Schema,
    declaration: &str,
    fuel: usize,
) -> (r: Result<(Json, usize), DecodeError>)
    requires
        pos <= buf.len(),
    ensures
        read_as(
            r,
            pos,
            buf.len(),
            decode_value(schema@, declaration@, buf@.skip(pos as int), fuel as nat),
        ),
    decreases fuel, 0nat,
{
    match primitive(declaration) {
        Some(p) => {
            return deserialize_primitive(buf, pos, p);
        },
        None => {},
    }
    let definition = match schema.get(declaration) {
        Some(definition) => definition,
        None => {
            return Err(DecodeError::UnknownDeclaration(owned(declaration)));
        },
    };
    if fuel == 0 {
        return Err(DecodeError::Endless(owned(declaration)));
    }
    let ghost s = buf@.skip(pos as int);
    match definition {
        Definition::Array { length, elements } => {
            match deserialize_items(
                buf,
                pos,
                schema,
                elements.as_str(),
                *length as usize,
                fuel - 1,
            ) {
                Ok((items, next)) => {
                    proof {
                        lemma_array_view(items);
                    }
                    Ok((Json::Array(items), next))
                },
                Err(e) => Err(e),
            }
        },
        Definition::Sequence { elements } => {
            match read_length(buf, pos) {
                None => Err(DecodeError::Malformed(owned("u32"))),
                Some((count, start)) => {
                    proof {
                        lemma_skip_twice(buf@, pos as int, 4);
                    }
                    match deserialize_items(
                        buf,
                        start,
                        schema,
                        elements.as_str(),
                        count as usize,
                        fuel - 1,
                    ) {
                        Ok((items, next)) => {
                            proof {
                                lemma_array_view(items);
                            }
                            Ok((Json::Array(items), next))
                        },
                        Err(e) => Err(e),
                    }
                },
            }
        },
        Definition::Tuple { elements } => {
            match deserialize_positional(buf, pos, schema, elements, fuel - 1) {
                Ok((items, next)) => {
                    proof {
                        lemma_array_view(items);
                    }
                    Ok((Json::Array(items), next))
                },
                Err(e) => Err(e),
            }
        },
        Definition::Enum { variants } => {
            if pos == buf.len() {
                return Err(DecodeError::Malformed(owned("u8")));
            }
            let index = buf[pos];
            assert(s[0] == index);
            if index as usize >= variants.len() {
                return Err(DecodeError::VariantOutOfRange(index));
            }
            proof {
                lemma_skip_twice(buf@, pos as int, 1);
            }
            match deserialize_declaration_from_schema(
                buf,
                pos + 1,
                schema,
                variants[index as usize].1.as_str(),
                fuel - 1,
            ) {
                Ok((payload, next)) => {
                    let mut entries: Vec<(String, Json)> = Vec::new();
                    entries.push((variants[index as usize].0.clone(), payload));
                    proof {
                        lemma_object_view(entries);
                        assert(entries_view(entries@) =~= seq![
                            (pairs_view(variants@)[index as int].0, payload@),
                        ]);
                    }
                    Ok((Json::Object(entries), next))
                },
                Err(e) => Err(e),
            }
        },
        Definition::Struct { fields } => match fields {
            Fields::NamedFields(named) => {
                match deserialize_named(buf, pos, schema, named, fuel - 1) {
                    Ok((entries, next)) => {
                        proof {
                            lemma_object_view(entries);
                        }
                        Ok((Json::Object(entries), next))
                    },
                    Err(e) => Err(e),
                }
            },
            Fields::UnnamedFields(unnamed) => {
                match deserialize_positional(buf, pos, schema, unnamed, fuel - 1) {
                    Ok((items, next)) => {
                        proof {
                            lemma_array_view(items);
                        }
                        Ok((Json::Array(items), next))
                    },
                    Err(e) => Err(e),
                }
            },
            Fields::Empty => {
                let items: Vec<Json> = Vec::new();
                proof {
                    lemma_array_view(items);
                    assert(items_view(items@) =~= Seq::empty());
                }
                Ok((Json::Array(items), pos))
            },
        },
    }
}

/// How many definitions a walk over `len` bytes may enter one inside the
/// other.
fn fuel_to_decode(schema: &Schema, len: usize) -> (fuel: usize)
    ensures
        fuel == decode_fuel(schema@, len as nat),
{
    let count = schema.definitions.len();
    assert(schema@.definitions.len() == count);
    assert((len + 1) * (count + 1) >= len + 1 && (len + 1) * (count + 1) >= count + 1)
        by (nonlinear_arith);
    let bytes = match len.checked_add(1) {
        Some(bytes) => bytes,
        None => {
            return usize::MAX;
        },
    };
    let names = match count.checked_add(1) {
        Some(names) => names,
        None => {
            return usize::MAX;
        },
    };
    match bytes.checked_mul(names) {
        Some(fuel) => fuel,
        None => usize::MAX,
    }
}

/// Reads from the head of `buf` the value under the root declaration of
/// `schema`, and leaves in `buf` what follows it. Where the bytes hold no
/// such value, `buf` stays as it was.
pub fn deserialize_from_schema(buf: &mut &[u8], schema: &Schema) -> (r: Result<Json, DecodeError>)
    ensures
        match r {
            Ok(value) => {
                &&& decode(schema@, old(buf)@) matches Ok((v, used))
                &&& v == value@
                &&& used <= old(buf)@.len()
                &&& final(buf)@ == old(buf)@.skip(used as int)
            },
            Err(e) => {
                &&& decode(schema@, old(buf)@) == Err::<(JsonView, nat), DecodeErrorView>(e@)
                &&& final(buf)@ == old(buf)@
            },
        },
{
    let all: &[u8] = *buf;
    let fuel = fuel_to_decode(schema, all.len());
    assert(all@.skip(0) =~= all@);
    match deserialize_declaration_from_schema(all, 0, schema, schema.declaration.as_str(), fuel) {
        Ok((value, next)) => {
            *buf = vstd::slice::slice_subrange(all, next, all.len());
            Ok(value)
        },
        Err(e) => Err(e),
    }
}

} // verus!
