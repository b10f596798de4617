//! The binary form of a schema.
//!
//! A schema is written as its root declaration, a string, and then its
//! definitions: their number and, for each, its name and the definition. A
//! definition begins with one byte that tells its kind; the fields of a
//! struct begin with one byte that tells theirs. Lists are written as
//! their length and their items.

use crate::primitives::{lemma_le_bytes_len, lemma_le_value_bound, lemma_pow256_values};
use crate::schema::{
    arranged, definitions_view, lemma_canonical, lemma_placed_rises, lemma_slot, names_view,
    pairs_view, place, placed, rising, slot, Definition, DefinitionView, Fields, FieldsView,
    Schema, SchemaView,
};
use crate::wire::{
    length_bytes, lemma_parse_length_bytes, lemma_parse_string_bytes, lemma_skip_front,
    lemma_skip_twice, parse_length, parse_string, read_length, read_string, string_bytes,
    write_length, write_string,
};
use vstd::prelude::*;
use vstd::utf8::{decode_utf8_encode_utf8, encode_utf8};

verus! {

/// Whether the length of the UTF-8 bytes of `s` can be written.
pub open spec fn text_fits(s: Seq<char>) -> bool {
    encode_utf8(s).len() <= u32::MAX
}

/// Whether `names` can be written as a list.
pub open spec fn names_fit(names: Seq<Seq<char>>) -> bool {
    names.len() <= u32::MAX && forall|i: int| 0 <= i < names.len() ==> text_fits(#[trigger] names[i])
}

/// Whether `pairs` can be written as a list.
pub open spec fn pairs_fit(pairs: Seq<(Seq<char>, Seq<char>)>) -> bool {
    pairs.len() <= u32::MAX && forall|i: int|
        0 <= i < pairs.len() ==> text_fits((#[trigger] pairs[i]).0) && text_fits(pairs[i].1)
}

/// Whether `definition` can be written.
#[verifier::opaque]
pub open spec fn definition_fits(definition: DefinitionView) -> bool {
    match definition {
        DefinitionView::Array { length, elements } => text_fits(elements),
        DefinitionView::Sequence { elements } => text_fits(elements),
        DefinitionView::Tuple { elements } => names_fit(elements),
        DefinitionView::Enum { variants } => pairs_fit(variants),
        DefinitionView::Struct { fields } => match fields {
            FieldsView::NamedFields(named) => pairs_fit(named),
            FieldsView::UnnamedFields(unnamed) => names_fit(unnamed),
            FieldsView::Empty => true,
        },
    }
}

/// Whether `schema` can be written: no text in it and no list is too long
/// for its length to be written in four bytes.
pub open spec fn schema_fits(schema: SchemaView) -> bool {
    &&& text_fits(schema.declaration)
    &&& schema.definitions.len() <= u32::MAX
    &&& forall|i: int|
        0 <= i < schema.definitions.len() ==> text_fits((#[trigger] schema.definitions[i]).0)
            && definition_fits(schema.definitions[i].1)
}

/// The bytes of the first `n` of `names`, one after the other.
pub open spec fn names_bytes(names: Seq<Seq<char>>, n: nat) -> Seq<u8>
    decreases n,
{
    if n == 0 || n > names.len() {
        Seq::empty()
    } else {
        names_bytes(names, (n - 1) as nat) + string_bytes(names[n - 1])
    }
}

/// The bytes of the first `n` of `pairs`, one after the other.
pub open spec fn pairs_bytes(pairs: Seq<(Seq<char>, Seq<char>)>, n: nat) -> Seq<u8>
    decreases n,
{
    if n == 0 || n > pairs.len() {
        Seq::empty()
    } else {
        pairs_bytes(pairs, (n - 1) as nat) + string_bytes(pairs[n - 1].0) + string_bytes(
            pairs[n - 1].1,
        )
    }
}

/// The bytes of a list of names.
pub open spec fn name_list_bytes(names: Seq<Seq<char>>) -> Seq<u8> {
    length_bytes(names.len()) + names_bytes(names, names.len())
}

/// The bytes of a list of pairs.
pub open spec fn pair_list_bytes(pairs: Seq<(Seq<char>, Seq<char>)>) -> Seq<u8> {
    length_bytes(pairs.len()) + pairs_bytes(pairs, pairs.len())
}

/// The bytes of the fields of a struct.
pub open spec fn fields_bytes(fields: FieldsView) -> Seq<u8> {
    match fields {
        FieldsView::NamedFields(named) => seq![0u8] + pair_list_bytes(named),
        FieldsView::UnnamedFields(unnamed) => seq![1u8] + name_list_bytes(unnamed),
        FieldsView::Empty => seq![2u8],
    }
}

/// The bytes of a definition.
#[verifier::opaque]
pub open spec fn definition_bytes(definition: DefinitionView) -> Seq<u8> {
    match definition {
        DefinitionView::Array { length, elements } => seq![0u8] + length_bytes(length as nat)
            + string_bytes(elements),
        DefinitionView::Sequence { elements } => seq![1u8] + string_bytes(elements),
        DefinitionView::Tuple { elements } => seq![2u8] + name_list_bytes(elements),
        DefinitionView::Enum { variants } => seq![3u8] + pair_list_bytes(variants),
        DefinitionView::Struct { fields } => seq![4u8] + fields_bytes(fields),
    }
}

/// The bytes of the first `n` of `definitions`, each after its name.
pub open spec fn definitions_bytes(definitions: Seq<(Seq<char>, DefinitionView)>, n: nat) -> Seq<
    u8,
>
    decreases n,
{
    if n == 0 || n > definitions.len() {
        Seq::empty()
    } else {
        definitions_bytes(definitions, (n - 1) as nat) + string_bytes(definitions[n - 1].0)
            + definition_bytes(definitions[n - 1].1)
    }
}

/// The bytes of a schema.
pub open spec fn schema_bytes(schema: SchemaView) -> Seq<u8> {
    string_bytes(schema.declaration) + length_bytes(schema.definitions.len()) + definitions_bytes(
        schema.definitions,
        schema.definitions.len(),
    )
}

/// Whether the length of the UTF-8 bytes of `s` can be written.
fn fits_text(s: &str) -> (r: bool)
    ensures
        r == text_fits(s@),
{
    s.as_bytes().len() <= u32::MAX as usize
}

/// Whether `names` can be written as a list.
fn fits_names(names: &Vec<String>) -> (r: bool)
    ensures
        r == names_fit(names_view(names@)),
{
    if names.len() > u32::MAX as usize {
        return false;
    }
    let mut i: usize = 0;
    while i < names.len()
        invariant
            i <= names.len(),
            forall|k: int| 0 <= k < i ==> text_fits(#[trigger] names_view(names@)[k]),
        decreases names.len() - i,
    {
        if !fits_text(names[i].as_str()) {
            assert(!text_fits(names_view(names@)[i as int]));
            return false;
        }
        i += 1;
    }
    true
}

/// Whether `pairs` can be written as a list.
fn fits_pairs(pairs: &Vec<(String, String)>) -> (r: bool)
    ensures
        r == pairs_fit(pairs_view(pairs@)),
{
    if pairs.len() > u32::MAX as usize {
        return false;
    }
    let mut i: usize = 0;
    while i < pairs.len()
        invariant
            i <= pairs.len(),
            forall|k: int|
                0 <= k < i ==> text_fits((#[trigger] pairs_view(pairs@)[k]).0) && text_fits(
                    pairs_view(pairs@)[k].1,
                ),
        decreases pairs.len() - i,
    {
        if !fits_text(pairs[i].0.as_str()) || !fits_text(pairs[i].1.as_str()) {
            assert(!(text_fits(pairs_view(pairs@)[i as int].0) && text_fits(
                pairs_view(pairs@)[i as int].1,
            )));
            return false;
        }
        i += 1;
    }
    true
}

/// Whether `definition` can be written.
fn fits_definition(definition: &Definition) -> (r: bool)
    ensures
        r == definition_fits(definition@),
{
    proof {
        reveal(definition_fits);
    }
    match definition {
        Definition::Array { length, elements } => fits_text(elements.as_str()),
        Definition::Sequence { elements } => fits_text(elements.as_str()),
        Definition::Tuple { elements } => fits_names(elements),
        Definition::Enum { variants } => fits_pairs(variants),
        Definition::Struct { fields } => match fields {
            Fields::NamedFields(named) => fits_pairs(named),
            Fields::UnnamedFields(unnamed) => fits_names(unnamed),
            Fields::Empty => true,
        },
    }
}

/// Whether `schema` can be written.
pub fn fits(schema: &Schema) -> (r: bool)
    ensures
        r == schema_fits(schema@),
{
    if !fits_text(schema.declaration.as_str()) {
        return false;
    }
    if schema.definitions.len() > u32::MAX as usize {
        return false;
    }
    let mut i: usize = 0;
    while i < schema.definitions.len()
        invariant
            i <= schema.definitions.len(),
            forall|k: int|
                0 <= k < i ==> text_fits((#[trigger] schema@.definitions[k]).0)
                    && definition_fits(schema@.definitions[k].1),
        decreases schema.definitions.len() - i,
    {
        if !fits_text(schema.definitions[i].0.as_str()) || !fits_definition(
            &schema.definitions[i].1,
        ) {
            assert(!(text_fits(schema@.definitions[i as int].0) && definition_fits(
                schema@.definitions[i as int].1,
            )));
            return false;
        }
        i += 1;
    }
    true
}

/// Appends the bytes of a text.
fn put_text(writer: &mut Vec<u8>, s: &str)
    requires
        text_fits(s@),
    ensures
        final(writer)@ == old(writer)@ + string_bytes(s@),
{
    let done = write_string(writer, s);
    assert(done);
}

/// Appends the bytes of a list of names.
fn put_names(writer: &mut Vec<u8>, names: &Vec<String>)
    requires
        names_fit(names_view(names@)),
    ensures
        final(writer)@ == old(writer)@ + name_list_bytes(names_view(names@)),
{
    let ghost views = names_view(names@);
    write_length(writer, names.len() as u32);
    let ghost head = writer@;
    assert(head + names_bytes(views, 0) =~= head);
    let mut i: usize = 0;
    while i < names.len()
        invariant
            i <= names.len(),
            views == names_view(names@),
            names_fit(views),
            writer@ == head + names_bytes(views, i as nat),
        decreases names.len() - i,
    {
        assert(text_fits(views[i as int]));
        put_text(writer, names[i].as_str());
        i += 1;
        assert(writer@ =~= head + names_bytes(views, i as nat));
    }
    assert(writer@ =~= old(writer)@ + name_list_bytes(views));
}

/// Appends the bytes of a list of pairs.
fn put_pairs(writer: &mut Vec<u8>, pairs: &Vec<(String, String)>)
    requires
        pairs_fit(pairs_view(pairs@)),
    ensures
        final(writer)@ == old(writer)@ + pair_list_bytes(pairs_view(pairs@)),
{
    let ghost views = pairs_view(pairs@);
    write_length(writer, pairs.len() as u32);
    let ghost head = writer@;
    assert(head + pairs_bytes(views, 0) =~= head);
    let mut i: usize = 0;
    while i < pairs.len()
        invariant
            i <= pairs.len(),
            views == pairs_view(pairs@),
            pairs_fit(views),
            writer@ == head + pairs_bytes(views, i as nat),
        decreases pairs.len() - i,
    {
        assert(text_fits(views[i as int].0) && text_fits(views[i as int].1));
        put_text(writer, pairs[i].0.as_str());
        put_text(writer, pairs[i].1.as_str());
        i += 1;
        assert(writer@ =~= head + pairs_bytes(views, i as nat));
    }
    assert(writer@ =~= old(writer)@ + pair_list_bytes(views));
}

/// Appends the bytes of a definition.
fn put_definition(writer: &mut Vec<u8>, definition: &Definition)
    requires
        definition_fits(definition@),
    ensures
        final(writer)@ == old(writer)@ + definition_bytes(definition@),
{
    proof {
        reveal(definition_fits);
        reveal(definition_bytes);
    }
    match definition {
        Definition::Array { length, elements } => {
            writer.push(0u8);
            write_length(writer, *length);
            put_text(writer, elements.as_str());
        },
        Definition::Sequence { elements } => {
            writer.push(1u8);
            put_text(writer, elements.as_str());
        },
        Definition::Tuple { elements } => {
            writer.push(2u8);
            put_names(writer, elements);
        },
        Definition::Enum { variants } => {
            writer.push(3u8);
            put_pairs(writer, variants);
        },
        Definition::Struct { fields } => {
            writer.push(4u8);
            match fields {
                Fields::NamedFields(named) => {
                    writer.push(0u8);
                    put_pairs(writer, named);
                },
                Fields::UnnamedFields(unnamed) => {
                    writer.push(1u8);
                    put_names(writer, unnamed);
                },
                Fields::Empty => {
                    writer.push(2u8);
                },
            }
        },
    }
    assert(writer@ =~= old(writer)@ + definition_bytes(definition@));
}

/// Appends the bytes of `schema` to `writer`, where it can be written;
/// else `writer` stays as it is.
pub fn serialize_schema(writer: &mut Vec<u8>, schema: &Schema) -> (done: bool)
    ensures
        done == schema_fits(schema@),
        done ==> final(writer)@ == old(writer)@ + schema_bytes(schema@),
        !done ==> final(writer)@ == old(writer)@,
{
    if !fits(schema) {
        return false;
    }
    put_text(writer, schema.declaration.as_str());
    write_length(writer, schema.definitions.len() as u32);
    let ghost head = writer@;
    let ghost views = schema@.definitions;
    assert(head + definitions_bytes(views, 0) =~= head);
    let mut i: usize = 0;
    while i < schema.definitions.len()
        invariant
            i <= schema.definitions.len(),
            views == schema@.definitions,
            schema_fits(schema@),
            writer@ == head + definitions_bytes(views, i as nat),
        decreases schema.definitions.len() - i,
    {
        assert(text_fits(views[i as int].0) && definition_fits(views[i as int].1));
        put_text(writer, schema.definitions[i].0.as_str());
        put_definition(writer, &schema.definitions[i].1);
        i += 1;
        assert(writer@ =~= head + definitions_bytes(views, i as nat));
    }
    assert(writer@ =~= old(writer)@ + schema_bytes(schema@));
    true
}

/// `n` names, one after the other from the head of `s`, with the number of
/// bytes that they take.
pub open spec fn parse_names(s: Seq<u8>, n: nat) -> Option<(Seq<Seq<char>>, nat)>
    decreases n,
{
    if n == 0 {
        Some((Seq::empty(), 0))
    } else {
        match parse_names(s, (n - 1) as nat) {
            None => None,
            Some((front, used)) => match parse_string(s.skip(used as int)) {
                Some((name, more)) => Some((front.push(name), used + more)),
                None => None,
            },
        }
    }
}

/// `n` pairs, one after the other from the head of `s`, with the number of
/// bytes that they take.
pub open spec fn parse_pairs(s: Seq<u8>, n: nat) -> Option<(Seq<(Seq<char>, Seq<char>)>, nat)>
    decreases n,
{
    if n == 0 {
        Some((Seq::empty(), 0))
    } else {
        match parse_pairs(s, (n - 1) as nat) {
            None => None,
            Some((front, used)) => match parse_string(s.skip(used as int)) {
                None => None,
                Some((first, more)) => match parse_string(s.skip((used + more) as int)) {
                    Some((second, last)) => Some(
                        (front.push((first, second)), used + more + last),
                    ),
                    None => None,
                },
            },
        }
    }
}

/// The list of names at the head of `s`.
pub open spec fn parse_name_list(s: Seq<u8>) -> Option<(Seq<Seq<char>>, nat)> {
    match parse_length(s) {
        None => None,
        Some((n, _)) => match parse_names(s.skip(4), n) {
            Some((names, used)) => Some((names, 4 + used)),
            None => None,
        },
    }
}

/// The list of pairs at the head of `s`.
pub open spec fn parse_pair_list(s: Seq<u8>) -> Option<(Seq<(Seq<char>, Seq<char>)>, nat)> {
    match parse_length(s) {
        None => None,
        Some((n, _)) => match parse_pairs(s.skip(4), n) {
            Some((pairs, used)) => Some((pairs, 4 + used)),
            None => None,
        },
    }
}

/// The fields of a struct at the head of `s`.
pub open spec fn parse_fields(s: Seq<u8>) -> Option<(FieldsView, nat)> {
    if s.len() == 0 {
        None
    } else if s[0] == 0 {
        match parse_pair_list(s.skip(1)) {
            Some((named, used)) => Some((FieldsView::NamedFields(named), 1 + used)),
            None => None,
        }
    } else if s[0] == 1 {
        match parse_name_list(s.skip(1)) {
            Some((unnamed, used)) => Some((FieldsView::UnnamedFields(unnamed), 1 + used)),
            None => None,
        }
    } else if s[0] == 2 {
        Some((FieldsView::Empty, 1))
    } else {
        None
    }
}

/// The definition at the head of `s`.
#[verifier::opaque]
pub open spec fn parse_definition(s: Seq<u8>) -> Option<(DefinitionView, nat)> {
    if s.len() == 0 {
        None
    } else if s[0] == 0 {
        match parse_length(s.skip(1)) {
            None => None,
            Some((length, _)) => match parse_string(s.skip(5)) {
                Some((elements, used)) => Some(
                    (DefinitionView::Array { length: length as u32, elements }, 5 + used),
                ),
                None => None,
            },
        }
    } else if s[0] == 1 {
        match parse_string(s.skip(1)) {
            Some((elements, used)) => Some((DefinitionView::Sequence { elements }, 1 + used)),
            None => None,
        }
    } else if s[0] == 2 {
        match parse_name_list(s.skip(1)) {
            Some((elements, used)) => Some((DefinitionView::Tuple { elements }, 1 + used)),
            None => None,
        }
    } else if s[0] == 3 {
        match parse_pair_list(s.skip(1)) {
            Some((variants, used)) => Some((DefinitionView::Enum { variants }, 1 + used)),
            None => None,
        }
    } else if s[0] == 4 {
        match parse_fields(s.skip(1)) {
            Some((fields, used)) => Some((DefinitionView::Struct { fields }, 1 + used)),
            None => None,
        }
    } else {
        None
    }
}

/// A name and the definition behind it at the head of `s`.
pub open spec fn parse_entry(s: Seq<u8>) -> Option<(Seq<char>, DefinitionView, nat)> {
    match parse_string(s) {
        None => None,
        Some((name, used)) => match parse_definition(s.skip(used as int)) {
            Some((definition, more)) => Some((name, definition, used + more)),
            None => None,
        },
    }
}

/// `n` definitions with their names, one after the other from the head of
/// `s`, brought into the order of their names; of two under one name the
/// later stays.
pub open spec fn parse_definitions(s: Seq<u8>, n: nat) -> Option<
    (Seq<(Seq<char>, DefinitionView)>, nat),
>
    decreases n,
{
    if n == 0 {
        Some((Seq::empty(), 0))
    } else {
        match parse_definitions(s, (n - 1) as nat) {
            None => None,
            Some((front, used)) => match parse_entry(s.skip(used as int)) {
                Some((name, definition, more)) => Some(
                    (placed(front, name, definition), used + more),
                ),
                None => None,
            },
        }
    }
}

/// The schema at the head of `s`, with the number of bytes that it takes.
pub open spec fn parse_schema(s: Seq<u8>) -> Option<(SchemaView, nat)> {
    match parse_string(s) {
        None => None,
        Some((declaration, used)) => match parse_length(s.skip(used as int)) {
            None => None,
            Some((n, _)) => match parse_definitions(s.skip((used + 4) as int), n) {
                Some((definitions, more)) => Some(
                    (SchemaView { declaration, definitions }, used + 4 + more),
                ),
                None => None,
            },
        },
    }
}

/// A run of names that fails fails however far it goes.
pub proof fn lemma_names_failure(s: Seq<u8>, n: nat, m: nat)
    requires
        n <= m,
        parse_names(s, n) is None,
    ensures
        parse_names(s, m) is None,
    decreases m - n,
{
    if n < m {
        lemma_names_failure(s, n, (m - 1) as nat);
    }
}

/// A run of pairs that fails fails however far it goes.
pub proof fn lemma_pairs_failure(s: Seq<u8>, n: nat, m: nat)
    requires
        n <= m,
        parse_pairs(s, n) is None,
    ensures
        parse_pairs(s, m) is None,
    decreases m - n,
{
    if n < m {
        lemma_pairs_failure(s, n, (m - 1) as nat);
    }
}

/// A run of definitions that fails fails however far it goes.
pub proof fn lemma_definitions_failure(s: Seq<u8>, n: nat, m: nat)
    requires
        n <= m,
        parse_definitions(s, n) is None,
    ensures
        parse_definitions(s, m) is None,
    decreases m - n,
{
    if n < m {
        lemma_definitions_failure(s, n, (m - 1) as nat);
    }
}

/// Reads the list of names at `pos`.
fn take_names(buf: &[u8], pos: usize) -> (r: Option<(Vec<String>, usize)>)
    requires
        pos <= buf.len(),
    ensures
        match r {
            Some((names, next)) => pos <= next <= buf.len() && parse_name_list(
                buf@.skip(pos as int),
            ) == Some((names_view(names@), (next - pos) as nat)),
            None => parse_name_list(buf@.skip(pos as int)) is None,
        },
{
    let ghost s = buf@.skip(pos as int);
    let (n, start) = match read_length(buf, pos) {
        Some(found) => found,
        None => {
            return None;
        },
    };
    let ghost body = s.skip(4);
    proof {
        lemma_skip_twice(buf@, pos as int, 4);
    }
    let mut names: Vec<String> = Vec::new();
    let mut at: usize = start;
    let mut i: u32 = 0;
    assert(names_view(names@) =~= Seq::empty());
    while i < n
        invariant
            i <= n,
            start <= at <= buf.len(),
            body == buf@.skip(start as int),
            s == buf@.skip(pos as int),
            body == s.skip(4),
            parse_length(s) == Some((n as nat, 4nat)),
            parse_names(body, i as nat) == Some((names_view(names@), (at - start) as nat)),
        decreases n - i,
    {
        proof {
            lemma_skip_twice(buf@, start as int, at - start);
        }
        match read_string(buf, at) {
            Some((name, next)) => {
                let ghost before = names_view(names@);
                names.push(name);
                assert(names_view(names@) =~= before.push(name@));
                at = next;
            },
            None => {
                proof {
                    lemma_names_failure(body, (i + 1) as nat, n as nat);
                }
                return None;
            },
        }
        i += 1;
    }
    Some((names, at))
}

/// Reads the list of pairs at `pos`.
fn take_pairs(buf: &[u8], pos: usize) -> (r: Option<(Vec<(String, String)>, usize)>)
    requires
        pos <= buf.len(),
    ensures
        match r {
            Some((pairs, next)) => pos <= next <= buf.len() && parse_pair_list(
                buf@.skip(pos as int),
            ) == Some((pairs_view(pairs@), (next - pos) as nat)),
            None => parse_pair_list(buf@.skip(pos as int)) is None,
        },
{
    let ghost s = buf@.skip(pos as int);
    let (n, start) = match read_length(buf, pos) {
        Some(found) => found,
        None => {
            return None;
        },
    };
    let ghost body = s.skip(4);
    proof {
        lemma_skip_twice(buf@, pos as int, 4);
    }
    let mut pairs: Vec<(String, String)> = Vec::new();
    let mut at: usize = start;
    let mut i: u32 = 0;
    assert(pairs_view(pairs@) =~= Seq::empty());
    while i < n
        invariant
            i <= n,
            start <= at <= buf.len(),
            body == buf@.skip(start as int),
            s == buf@.skip(pos as int),
            body == s.skip(4),
            parse_length(s) == Some((n as nat, 4nat)),
            parse_pairs(body, i as nat) == Some((pairs_view(pairs@), (at - start) as nat)),
        decreases n - i,
    {
        proof {
            lemma_skip_twice(buf@, start as int, at - start);
        }
        let (first, middle) = match read_string(buf, at) {
            Some(found) => found,
            None => {
                proof {
                    lemma_pairs_failure(body, (i + 1) as nat, n as nat);
                }
                return None;
            },
        };
        proof {
            lemma_skip_twice(buf@, start as int, middle - start);
        }
        let (second, next) = match read_string(buf, middle) {
            Some(found) => found,
            None => {
                proof {
                    lemma_pairs_failure(body, (i + 1) as nat, n as nat);
                }
                return None;
            },
        };
        let ghost before = pairs_view(pairs@);
        pairs.push((first, second));
        assert(pairs_view(pairs@) =~= before.push((first@, second@)));
        at = next;
        i += 1;
    }
    Some((pairs, at))
}

/// Reads the fields of a struct at `pos`.
fn take_fields(buf: &[u8], pos: usize) -> (r: Option<(Fields, usize)>)
    requires
        pos <= buf.len(),
    ensures
        match r {
            Some((fields, next)) => pos <= next <= buf.len() && parse_fields(
                buf@.skip(pos as int),
            ) == Some((fields@, (next - pos) as nat)),
            None => parse_fields(buf@.skip(pos as int)) is None,
        },
{
    if pos == buf.len() {
        return None;
    }
    let tag = buf[pos];
    assert(buf@.skip(pos as int)[0] == tag);
    proof {
        lemma_skip_twice(buf@, pos as int, 1);
    }
    if tag == 0 {
        match take_pairs(buf, pos + 1) {
            Some((named, next)) => Some((Fields::NamedFields(named), next)),
            None => None,
        }
    } else if tag == 1 {
        match take_names(buf, pos + 1) {
            Some((unnamed, next)) => Some((Fields::UnnamedFields(unnamed), next)),
            None => None,
        }
    } else if tag == 2 {
        Some((Fields::Empty, pos + 1))
    } else {
        None
    }
}

/// Reads the definition at `pos`.
fn take_definition(buf: &[u8], pos: usize) -> (r: Option<(Definition, usize)>)
    requires
        pos <= buf.len(),
    ensures
        match r {
            Some((definition, next)) => pos <= next <= buf.len() && parse_definition(
                buf@.skip(pos as int),
            ) == Some((definition@, (next - pos) as nat)),
            None => parse_definition(buf@.skip(pos as int)) is None,
        },
{
    proof {
        reveal(parse_definition);
    }
    if pos == buf.len() {
        return None;
    }
    let tag = buf[pos];
    assert(buf@.skip(pos as int)[0] == tag);
    proof {
        lemma_skip_twice(buf@, pos as int, 1);
    }
    if tag == 0 {
        let (length, start) = match read_length(buf, pos + 1) {
            Some(found) => found,
            None => {
                return None;
            },
        };
        proof {
            lemma_skip_twice(buf@, pos as int, 5);
        }
        match read_string(buf, start) {
            Some((elements, next)) => Some((Definition::Array { length, elements }, next)),
            None => None,
        }
    } else if tag == 1 {
        match read_string(buf, pos + 1) {
            Some((elements, next)) => Some((Definition::Sequence { elements }, next)),
            None => None,
        }
    } else if tag == 2 {
        match take_names(buf, pos + 1) {
            Some((elements, next)) => Some((Definition::Tuple { elements }, next)),
            None => None,
        }
    } else if tag == 3 {
        match take_pairs(buf, pos + 1) {
            Some((variants, next)) => Some((Definition::Enum { variants }, next)),
            None => None,
        }
    } else if tag == 4 {
        match take_fields(buf, pos + 1) {
            Some((fields, next)) => Some((Definition::Struct { fields }, next)),
            None => None,
        }
    } else {
        None
    }
}

/// Reads the name at `pos` and the definition behind it.
fn take_entry(buf: &[u8], pos: usize) -> (r: Option<(String, Definition, usize)>)
    requires
        pos <= buf.len(),
    ensures
        match r {
            Some((name, definition, next)) => pos <= next <= buf.len() && parse_entry(
                buf@.skip(pos as int),
            ) == Some((name@, definition@, (next - pos) as nat)),
            None => parse_entry(buf@.skip(pos as int)) is None,
        },
{
    let (name, inner) = match read_string(buf, pos) {
        Some(found) => found,
        None => {
            return None;
        },
    };
    proof {
        lemma_skip_twice(buf@, pos as int, inner - pos);
    }
    match take_definition(buf, inner) {
        Some((definition, next)) => Some((name, definition, next)),
        None => None,
    }
}

/// Reads at `start` `n` definitions with their names and brings them into
/// the order of their names.
fn take_definitions(buf: &[u8], start: usize, n: u32) -> (r: Option<
    (Vec<(String, Definition)>, usize),
>)
    requires
        start <= buf.len(),
    ensures
        match r {
            Some((definitions, next)) => start <= next <= buf.len() && parse_definitions(
                buf@.skip(start as int),
                n as nat,
            ) == Some((definitions_view(definitions@), (next - start) as nat)),
            None => parse_definitions(buf@.skip(start as int), n as nat) is None,
        },
{
    let ghost body = buf@.skip(start as int);
    let mut definitions: Vec<(String, Definition)> = Vec::new();
    let mut at: usize = start;
    let mut i: u32 = 0;
    assert(definitions_view(definitions@) =~= Seq::empty());
    while i < n
        invariant
            i <= n,
            start <= at <= buf.len(),
            body == buf@.skip(start as int),
            parse_definitions(body, i as nat) == Some(
                (definitions_view(definitions@), (at - start) as nat),
            ),
        decreases n - i,
    {
        proof {
            lemma_skip_twice(buf@, start as int, at - start);
        }
        match take_entry(buf, at) {
            Some((name, definition, next)) => {
                place(&mut definitions, name, definition);
                at = next;
            },
            None => {
                proof {
                    lemma_definitions_failure(body, (i + 1) as nat, n as nat);
                }
                return None;
            },
        }
        i += 1;
    }
    Some((definitions, at))
}

/// Reads the schema at `pos`; gives it with the position behind it, or
/// nothing where the bytes hold no schema. The definitions come in the
/// order of their names; of two under one name the later stays.
pub fn deserialize_schema(buf: &[u8], pos: usize) -> (r: Option<(Schema, usize)>)
    requires
        pos <= buf.len(),
    ensures
        match r {
            Some((schema, next)) => {
                &&& pos <= next <= buf.len()
                &&& parse_schema(buf@.skip(pos as int)) == Some((schema@, (next - pos) as nat))
                &&& schema@.is_canonical()
                &&& schema_fits(schema@)
            },
            None => parse_schema(buf@.skip(pos as int)) is None,
        },
{
    proof {
        if parse_schema(buf@.skip(pos as int)) is Some {
            lemma_parsed_schema(buf@.skip(pos as int));
        }
    }
    let (declaration, middle) = match read_string(buf, pos) {
        Some(found) => found,
        None => {
            return None;
        },
    };
    proof {
        lemma_skip_twice(buf@, pos as int, middle - pos);
    }
    let (n, start) = match read_length(buf, middle) {
        Some(found) => found,
        None => {
            return None;
        },
    };
    proof {
        lemma_skip_twice(buf@, pos as int, start - pos);
    }
    match take_definitions(buf, start, n) {
        Some((definitions, next)) => Some((Schema { declaration, definitions }, next)),
        None => None,
    }
}

/// Names that were written read back as the same names, whatever follows.
pub proof fn lemma_parse_names_bytes(names: Seq<Seq<char>>, n: nat, tail: Seq<u8>)
    requires
        names_fit(names),
        n <= names.len(),
    ensures
        parse_names(names_bytes(names, n) + tail, n) == Some(
            (names.take(n as int), names_bytes(names, n).len()),
        ),
    decreases n,
{
    if n == 0 {
        assert(names.take(0) =~= Seq::empty());
    } else {
        let front = names_bytes(names, (n - 1) as nat);
        let last = string_bytes(names[n - 1]);
        let all = names_bytes(names, n) + tail;
        assert(all =~= front + (last + tail));
        lemma_parse_names_bytes(names, (n - 1) as nat, last + tail);
        lemma_skip_front(front, last + tail);
        assert(text_fits(names[n - 1]));
        lemma_parse_string_bytes(names[n - 1], tail);
        assert(names.take(n as int) =~= names.take(n - 1).push(names[n - 1]));
    }
}

/// Pairs that were written read back as the same pairs, whatever follows.
pub proof fn lemma_parse_pairs_bytes(pairs: Seq<(Seq<char>, Seq<char>)>, n: nat, tail: Seq<u8>)
    requires
        pairs_fit(pairs),
        n <= pairs.len(),
    ensures
        parse_pairs(pairs_bytes(pairs, n) + tail, n) == Some(
            (pairs.take(n as int), pairs_bytes(pairs, n).len()),
        ),
    decreases n,
{
    if n == 0 {
        assert(pairs.take(0) =~= Seq::empty());
    } else {
        let front = pairs_bytes(pairs, (n - 1) as nat);
        let first = string_bytes(pairs[n - 1].0);
        let second = string_bytes(pairs[n - 1].1);
        let all = pairs_bytes(pairs, n) + tail;
        assert(all =~= front + (first + (second + tail)));
        lemma_parse_pairs_bytes(pairs, (n - 1) as nat, first + (second + tail));
        lemma_skip_front(front, first + (second + tail));
        assert(text_fits(pairs[n - 1].0) && text_fits(pairs[n - 1].1));
        lemma_parse_string_bytes(pairs[n - 1].0, second + tail);
        assert(all.skip((front.len() + first.len()) as int) =~= second + tail);
        lemma_parse_string_bytes(pairs[n - 1].1, tail);
        assert(pairs.take(n as int) =~= pairs.take(n - 1).push(pairs[n - 1]));
    }
}

/// A list of names that was written reads back as the same list.
pub proof fn lemma_parse_name_list_bytes(names: Seq<Seq<char>>, tail: Seq<u8>)
    requires
        names_fit(names),
    ensures
        parse_name_list(name_list_bytes(names) + tail) == Some(
            (names, name_list_bytes(names).len()),
        ),
{
    let head = length_bytes(names.len());
    let body = names_bytes(names, names.len());
    let all = name_list_bytes(names) + tail;
    assert(all =~= head + (body + tail));
    lemma_parse_length_bytes(names.len(), body + tail);
    lemma_le_bytes_len(names.len(), 4);
    lemma_skip_front(head, body + tail);
    lemma_parse_names_bytes(names, names.len(), tail);
    assert(names.take(names.len() as int) =~= names);
}

/// A list of pairs that was written reads back as the same list.
pub proof fn lemma_parse_pair_list_bytes(pairs: Seq<(Seq<char>, Seq<char>)>, tail: Seq<u8>)
    requires
        pairs_fit(pairs),
    ensures
        parse_pair_list(pair_list_bytes(pairs) + tail) == Some(
            (pairs, pair_list_bytes(pairs).len()),
        ),
{
    let head = length_bytes(pairs.len());
    let body = pairs_bytes(pairs, pairs.len());
    let all = pair_list_bytes(pairs) + tail;
    assert(all =~= head + (body + tail));
    lemma_parse_length_bytes(pairs.len(), body + tail);
    lemma_le_bytes_len(pairs.len(), 4);
    lemma_skip_front(head, body + tail);
    lemma_parse_pairs_bytes(pairs, pairs.len(), tail);
    assert(pairs.take(pairs.len() as int) =~= pairs);
}

/// Fields that were written read back as the same fields.
pub proof fn lemma_parse_fields_bytes(fields: FieldsView, tail: Seq<u8>)
    requires
        definition_fits(DefinitionView::Struct { fields }),
    ensures
        parse_fields(fields_bytes(fields) + tail) == Some((fields, fields_bytes(fields).len())),
{
    reveal(definition_fits);
    let all = fields_bytes(fields) + tail;
    match fields {
        FieldsView::NamedFields(named) => {
            assert(all =~= seq![0u8] + (pair_list_bytes(named) + tail));
            lemma_skip_front(seq![0u8], pair_list_bytes(named) + tail);
            lemma_parse_pair_list_bytes(named, tail);
        },
        FieldsView::UnnamedFields(unnamed) => {
            assert(all =~= seq![1u8] + (name_list_bytes(unnamed) + tail));
            lemma_skip_front(seq![1u8], name_list_bytes(unnamed) + tail);
            lemma_parse_name_list_bytes(unnamed, tail);
        },
        FieldsView::Empty => {},
    }
}

/// An array definition that was written reads back as the same.
proof fn lemma_parse_array_bytes(length: u32, elements: Seq<char>, tail: Seq<u8>)
    requires
        text_fits(elements),
    ensures
        parse_definition(
            definition_bytes(DefinitionView::Array { length, elements }) + tail,
        ) == Some(
            (
                DefinitionView::Array { length, elements },
                definition_bytes(DefinitionView::Array { length, elements }).len(),
            ),
        ),
{
    reveal(parse_definition);
    reveal(definition_bytes);
    reveal(definition_fits);
    let all = definition_bytes(DefinitionView::Array { length, elements }) + tail;
    let head = length_bytes(length as nat);
    let body = string_bytes(elements);
    assert(all =~= seq![0u8] + (head + (body + tail)));
    lemma_skip_front(seq![0u8], head + (body + tail));
    lemma_parse_length_bytes(length as nat, body + tail);
    lemma_le_bytes_len(length as nat, 4);
    assert(all.skip(5) =~= body + tail);
    lemma_parse_string_bytes(elements, tail);
}

/// A sequence definition that was written reads back as the same.
proof fn lemma_parse_sequence_bytes(elements: Seq<char>, tail: Seq<u8>)
    requires
        text_fits(elements),
    ensures
        parse_definition(definition_bytes(DefinitionView::Sequence { elements }) + tail) == Some(
            (
                DefinitionView::Sequence { elements },
                definition_bytes(DefinitionView::Sequence { elements }).len(),
            ),
        ),
{
    reveal(parse_definition);
    reveal(definition_bytes);
    reveal(definition_fits);
    let all = definition_bytes(DefinitionView::Sequence { elements }) + tail;
    assert(all =~= seq![1u8] + (string_bytes(elements) + tail));
    lemma_skip_front(seq![1u8], string_bytes(elements) + tail);
    lemma_parse_string_bytes(elements, tail);
}

/// A tuple definition that was written reads back as the same.
proof fn lemma_parse_tuple_bytes(elements: Seq<Seq<char>>, tail: Seq<u8>)
    requires
        names_fit(elements),
    ensures
        parse_definition(definition_bytes(DefinitionView::Tuple { elements }) + tail) == Some(
            (
                DefinitionView::Tuple { elements },
                definition_bytes(DefinitionView::Tuple { elements }).len(),
            ),
        ),
{
    reveal(parse_definition);
    reveal(definition_bytes);
    reveal(definition_fits);
    let all = definition_bytes(DefinitionView::Tuple { elements }) + tail;
    assert(all =~= seq![2u8] + (name_list_bytes(elements) + tail));
    lemma_skip_front(seq![2u8], name_list_bytes(elements) + tail);
    lemma_parse_name_list_bytes(elements, tail);
}

/// An enum definition that was written reads back as the same.
proof fn lemma_parse_enum_bytes(variants: Seq<(Seq<char>, Seq<char>)>, tail: Seq<u8>)
    requires
        pairs_fit(variants),
    ensures
        parse_definition(definition_bytes(DefinitionView::Enum { variants }) + tail) == Some(
            (
                DefinitionView::Enum { variants },
                definition_bytes(DefinitionView::Enum { variants }).len(),
            ),
        ),
{
    reveal(parse_definition);
    reveal(definition_bytes);
    reveal(definition_fits);
    let all = definition_bytes(DefinitionView::Enum { variants }) + tail;
    assert(all =~= seq![3u8] + (pair_list_bytes(variants) + tail));
    lemma_skip_front(seq![3u8], pair_list_bytes(variants) + tail);
    lemma_parse_pair_list_bytes(variants, tail);
}

/// A struct definition that was written reads back as the same.
proof fn lemma_parse_struct_bytes(fields: FieldsView, tail: Seq<u8>)
    requires
        definition_fits(DefinitionView::Struct { fields }),
    ensures
        parse_definition(definition_bytes(DefinitionView::Struct { fields }) + tail) == Some(
            (
                DefinitionView::Struct { fields },
                definition_bytes(DefinitionView::Struct { fields }).len(),
            ),
        ),
{
    reveal(parse_definition);
    reveal(definition_bytes);
    reveal(definition_fits);
    let all = definition_bytes(DefinitionView::Struct { fields }) + tail;
    assert(all =~= seq![4u8] + (fields_bytes(fields) + tail));
    lemma_skip_front(seq![4u8], fields_bytes(fields) + tail);
    lemma_parse_fields_bytes(fields, tail);
}

/// A definition that was written reads back as the same definition.
pub proof fn lemma_parse_definition_bytes(definition: DefinitionView, tail: Seq<u8>)
    requires
        definition_fits(definition),
    ensures
        parse_definition(definition_bytes(definition) + tail) == Some(
            (definition, definition_bytes(definition).len()),
        ),
{
    reveal(definition_fits);
    match definition {
        DefinitionView::Array { length, elements } => {
            lemma_parse_array_bytes(length, elements, tail);
        },
        DefinitionView::Sequence { elements } => {
            lemma_parse_sequence_bytes(elements, tail);
        },
        DefinitionView::Tuple { elements } => {
            lemma_parse_tuple_bytes(elements, tail);
        },
        DefinitionView::Enum { variants } => {
            lemma_parse_enum_bytes(variants, tail);
        },
        DefinitionView::Struct { fields } => {
            lemma_parse_struct_bytes(fields, tail);
        },
    }
}

/// A name and its definition that were written read back as the same.
pub proof fn lemma_parse_entry_bytes(name: Seq<char>, definition: DefinitionView, tail: Seq<u8>)
    requires
        text_fits(name),
        definition_fits(definition),
    ensures
        parse_entry(string_bytes(name) + (definition_bytes(definition) + tail)) == Some(
            (
                name,
                definition,
                (string_bytes(name).len() + definition_bytes(definition).len()) as nat,
            ),
        ),
{
    lemma_parse_string_bytes(name, definition_bytes(definition) + tail);
    lemma_skip_front(string_bytes(name), definition_bytes(definition) + tail);
    lemma_parse_definition_bytes(definition, tail);
}

/// Whether each of `definitions` can be written with its name.
pub open spec fn entries_fit(definitions: Seq<(Seq<char>, DefinitionView)>) -> bool {
    forall|i: int|
        0 <= i < definitions.len() ==> text_fits((#[trigger] definitions[i]).0)
            && definition_fits(definitions[i].1)
}

/// Definitions that were written read back brought into the order of
/// their names.
pub proof fn lemma_parse_definitions_bytes(
    definitions: Seq<(Seq<char>, DefinitionView)>,
    n: nat,
    tail: Seq<u8>,
)
    requires
        n <= definitions.len(),
        entries_fit(definitions),
    ensures
        parse_definitions(definitions_bytes(definitions, n) + tail, n) == Some(
            (arranged(definitions, n), definitions_bytes(definitions, n).len()),
        ),
    decreases n,
{
    if n > 0 {
        let last = definitions[n - 1];
        let front = definitions_bytes(definitions, (n - 1) as nat);
        let entry = string_bytes(last.0) + (definition_bytes(last.1) + tail);
        let all = definitions_bytes(definitions, n) + tail;
        assert(all == front + entry) by {
            assert(all =~= front + entry);
        }
        assert(parse_definitions(all, (n - 1) as nat) == Some(
            (arranged(definitions, (n - 1) as nat), front.len()),
        )) by {
            lemma_parse_definitions_bytes(definitions, (n - 1) as nat, entry);
        }
        assert(all.skip(front.len() as int) == entry) by {
            lemma_skip_front(front, entry);
        }
        assert(parse_entry(entry) == Some(
            (last.0, last.1, (string_bytes(last.0).len() + definition_bytes(last.1).len()) as nat),
        )) by {
            assert(text_fits(last.0) && definition_fits(last.1));
            lemma_parse_entry_bytes(last.0, last.1, tail);
        }
        assert(definitions_bytes(definitions, n).len() == front.len() + string_bytes(last.0).len()
            + definition_bytes(last.1).len());
    }
}

/// A schema that was written reads back in its canonical form, its
/// definitions brought into the order of their names, whatever follows it.
pub proof fn lemma_parse_written_schema(schema: SchemaView, tail: Seq<u8>)
    requires
        schema_fits(schema),
    ensures
        parse_schema(schema_bytes(schema) + tail) == Some(
            (schema.canonical(), schema_bytes(schema).len()),
        ),
{
    let root = string_bytes(schema.declaration);
    let count = length_bytes(schema.definitions.len());
    let body = definitions_bytes(schema.definitions, schema.definitions.len());
    let all = schema_bytes(schema) + tail;
    assert(all == root + (count + (body + tail))) by {
        assert(all =~= root + (count + (body + tail)));
    }
    assert(parse_string(all) == Some((schema.declaration, root.len()))) by {
        lemma_parse_string_bytes(schema.declaration, count + (body + tail));
    }
    assert(all.skip(root.len() as int) == count + (body + tail)) by {
        lemma_skip_front(root, count + (body + tail));
    }
    assert(parse_length(count + (body + tail)) == Some((schema.definitions.len(), 4nat))) by {
        lemma_parse_length_bytes(schema.definitions.len(), body + tail);
    }
    assert(count.len() == 4) by {
        lemma_le_bytes_len(schema.definitions.len(), 4);
    }
    assert(all.skip((root.len() + 4) as int) == body + tail) by {
        assert(all.skip((root.len() + 4) as int) =~= body + tail);
    }
    assert(parse_definitions(body + tail, schema.definitions.len()) == Some(
        (arranged(schema.definitions, schema.definitions.len()), body.len()),
    )) by {
        assert(entries_fit(schema.definitions));
        lemma_parse_definitions_bytes(schema.definitions, schema.definitions.len(), tail);
    }
    assert(schema_bytes(schema).len() == root.len() + 4 + body.len());
}

/// A schema that was written with its definitions in the order of their
/// names reads back as the same schema, whatever follows it.
pub proof fn lemma_parse_schema_bytes(schema: SchemaView, tail: Seq<u8>)
    requires
        schema_fits(schema),
        schema.is_canonical(),
    ensures
        parse_schema(schema_bytes(schema) + tail) == Some((schema, schema_bytes(schema).len())),
{
    lemma_parse_written_schema(schema, tail);
    lemma_canonical(schema);
}

/// A length that was read can be written.
pub proof fn lemma_parsed_length_fits(s: Seq<u8>)
    requires
        parse_length(s) is Some,
    ensures
        (parse_length(s)->0).0 <= u32::MAX,
{
    lemma_le_value_bound(s.take(4));
    lemma_pow256_values();
}

/// A text that was read can be written.
pub proof fn lemma_parsed_text_fits(s: Seq<u8>)
    requires
        parse_string(s) is Some,
    ensures
        text_fits((parse_string(s)->0).0),
{
    lemma_parsed_length_fits(s);
    let n = (parse_length(s)->0).0;
    decode_utf8_encode_utf8(s.subrange(4, 4 + n as int));
}

/// Names that were read can be written, and are as many as were asked for.
pub proof fn lemma_parsed_names_fit(s: Seq<u8>, n: nat)
    requires
        parse_names(s, n) is Some,
    ensures
        (parse_names(s, n)->0).0.len() == n,
        forall|i: int| 0 <= i < n ==> text_fits(#[trigger] (parse_names(s, n)->0).0[i]),
    decreases n,
{
    if n > 0 {
        lemma_parsed_names_fit(s, (n - 1) as nat);
        let (front, used) = parse_names(s, (n - 1) as nat)->0;
        lemma_parsed_text_fits(s.skip(used as int));
        let names = (parse_names(s, n)->0).0;
        assert forall|i: int| 0 <= i < n implies text_fits(#[trigger] names[i]) by {
            if i < n - 1 {
                assert(names[i] == front[i]);
            }
        }
    }
}

/// Pairs that were read can be written, and are as many as were asked for.
pub proof fn lemma_parsed_pairs_fit(s: Seq<u8>, n: nat)
    requires
        parse_pairs(s, n) is Some,
    ensures
        (parse_pairs(s, n)->0).0.len() == n,
        forall|i: int|
            0 <= i < n ==> text_fits((#[trigger] (parse_pairs(s, n)->0).0[i]).0) && text_fits(
                (parse_pairs(s, n)->0).0[i].1,
            ),
    decreases n,
{
    if n > 0 {
        lemma_parsed_pairs_fit(s, (n - 1) as nat);
        let (front, used) = parse_pairs(s, (n - 1) as nat)->0;
        lemma_parsed_text_fits(s.skip(used as int));
        let more = (parse_string(s.skip(used as int))->0).1;
        lemma_parsed_text_fits(s.skip((used + more) as int));
        let pairs = (parse_pairs(s, n)->0).0;
        assert forall|i: int| 0 <= i < n implies text_fits((#[trigger] pairs[i]).0) && text_fits(
            pairs[i].1,
        ) by {
            if i < n - 1 {
                assert(pairs[i] == front[i]);
            }
        }
    }
}

/// A definition that was read can be written.
pub proof fn lemma_parsed_definition_fits(s: Seq<u8>)
    requires
        parse_definition(s) is Some,
    ensures
        definition_fits((parse_definition(s)->0).0),
{
    reveal(parse_definition);
    reveal(definition_fits);
    let body = s.skip(1);
    if s[0] == 0 {
        lemma_parsed_text_fits(s.skip(5));
    } else if s[0] == 1 {
        lemma_parsed_text_fits(body);
    } else if s[0] == 2 {
        lemma_parsed_length_fits(body);
        lemma_parsed_names_fit(body.skip(4), (parse_length(body)->0).0);
    } else if s[0] == 3 {
        lemma_parsed_length_fits(body);
        lemma_parsed_pairs_fit(body.skip(4), (parse_length(body)->0).0);
    } else {
        let inner = body.skip(1);
        if body[0] == 0 {
            lemma_parsed_length_fits(inner);
            lemma_parsed_pairs_fit(inner.skip(4), (parse_length(inner)->0).0);
        } else if body[0] == 1 {
            lemma_parsed_length_fits(inner);
            lemma_parsed_names_fit(inner.skip(4), (parse_length(inner)->0).0);
        }
    }
}

/// Definitions that were read stand in the order of their names, none
/// twice, can be written, and are at most as many as were asked for.
pub proof fn lemma_parsed_definitions(s: Seq<u8>, n: nat)
    requires
        parse_definitions(s, n) is Some,
    ensures
        rising((parse_definitions(s, n)->0).0),
        entries_fit((parse_definitions(s, n)->0).0),
        (parse_definitions(s, n)->0).0.len() <= n,
    decreases n,
{
    if n > 0 {
        lemma_parsed_definitions(s, (n - 1) as nat);
        let (front, used) = parse_definitions(s, (n - 1) as nat)->0;
        let rest = s.skip(used as int);
        let (name, definition, _) = parse_entry(rest)->0;
        lemma_parsed_text_fits(rest);
        lemma_parsed_definition_fits(rest.skip((parse_string(rest)->0).1 as int));
        lemma_placed_rises(front, name, definition);
        lemma_slot(front, name);
        let at = slot(front, name);
        let after = placed(front, name, definition);
        assert forall|i: int| 0 <= i < after.len() implies text_fits((#[trigger] after[i]).0)
            && definition_fits(after[i].1) by {
            if at < front.len() && front[at].0 == name {
                if i != at {
                    assert(after[i] == front[i]);
                }
            } else if i < at {
                assert(after[i] == front[i]);
            } else if i > at {
                assert(after[i] == front[i - 1]);
            }
        }
    }
}

/// A schema that was read has its definitions in the order of their names,
/// none twice, and can be written.
pub proof fn lemma_parsed_schema(s: Seq<u8>)
    requires
        parse_schema(s) is Some,
    ensures
        (parse_schema(s)->0).0.is_canonical(),
        schema_fits((parse_schema(s)->0).0),
{
    let used = (parse_string(s)->0).1;
    lemma_parsed_text_fits(s);
    lemma_parsed_length_fits(s.skip(used as int));
    lemma_parsed_definitions(s.skip((used + 4) as int), (parse_length(s.skip(used as int))->0).0);
}

} // verus!
