//! Bytes read under a schema and under its compressed form give the same
//! value.

use crate::compress_schema::{
    compressed, inner_declarations, inner_of_fields, references, renamed, renamed_definitions,
    renamed_names, renamed_pairs, renames_of, rewritten, scalar_from, seconds, walk, LAST_SCALAR,
};
use crate::dynamic_schema::decoding::{
    decode, decode_fuel, decode_items, decode_named, decode_positional, decode_under,
    decode_value,
};
use crate::dynamic_schema::reads_end::{lemma_decode_ends, ran_out};
use crate::dynamic_schema::errors::DecodeErrorView;
use crate::schema::{
    lemma_position_of, position_of, primitive_of, DefinitionView, FieldsView, SchemaView,
};
use vstd::prelude::*;

verus! {

/// Whether `declaration` is a primitive or has a new name in `renames`.
pub open spec fn covered(renames: Seq<(Seq<char>, Seq<char>)>, declaration: Seq<char>) -> bool {
    primitive_of(declaration) is Some || position_of(renames, declaration) is Some
}

/// Whether all of `declarations` are covered.
pub open spec fn all_covered(
    renames: Seq<(Seq<char>, Seq<char>)>,
    declarations: Seq<Seq<char>>,
) -> bool {
    forall|k: int| 0 <= k < declarations.len() ==> covered(renames, #[trigger] declarations[k])
}

/// Whether `new` is `old` renamed by `renames`, faithfully: only user
/// types have new names, no new name is that of a primitive, a renamed type
/// has in `new`, under its new name, the definition that it has in `old`,
/// rewritten, and what a renamed type's definition names is covered in turn.
pub open spec fn faithful(
    old: SchemaView,
    new: SchemaView,
    renames: Seq<(Seq<char>, Seq<char>)>,
) -> bool {
    &&& forall|d: Seq<char>| #[trigger]
        position_of(renames, d) is Some ==> primitive_of(d) is None && primitive_of(
            renamed(renames, d),
        ) is None
    &&& forall|d: Seq<char>| #[trigger]
        position_of(renames, d) is Some ==> new.lookup(renamed(renames, d)) == match old.lookup(
            d,
        ) {
            Some(definition) => Some(rewritten(renames, definition)),
            None => None,
        }
    &&& forall|d: Seq<char>| #[trigger]
        position_of(renames, d) is Some && old.lookup(d) is Some ==> all_covered(
            renames,
            inner_declarations(old.lookup(d)->0),
        )
}

/// A failure with the declaration that it names renamed.
pub open spec fn renamed_error(
    renames: Seq<(Seq<char>, Seq<char>)>,
    e: DecodeErrorView,
) -> DecodeErrorView {
    match e {
        DecodeErrorView::UnknownDeclaration(d) => DecodeErrorView::UnknownDeclaration(
            renamed(renames, d),
        ),
        DecodeErrorView::Endless(d) => DecodeErrorView::Endless(renamed(renames, d)),
        DecodeErrorView::Malformed(name) => DecodeErrorView::Malformed(name),
        DecodeErrorView::VariantOutOfRange(i) => DecodeErrorView::VariantOutOfRange(i),
    }
}

/// What a read gives under the compressed schema, where it gives `r` under
/// the schema itself: the same value and length, or the same failure with
/// the declaration that it names renamed.
pub open spec fn renamed_outcome<T>(
    renames: Seq<(Seq<char>, Seq<char>)>,
    r: Result<(T, nat), DecodeErrorView>,
) -> Result<(T, nat), DecodeErrorView> {
    match r {
        Ok(found) => Ok(found),
        Err(e) => Err(renamed_error(renames, e)),
    }
}

/// Items read under a renamed declaration are the items read under the
/// declaration itself.
pub proof fn lemma_same_items(
    old: SchemaView,
    new: SchemaView,
    renames: Seq<(Seq<char>, Seq<char>)>,
    declaration: Seq<char>,
    s: Seq<u8>,
    n: nat,
    fuel: nat,
)
    requires
        faithful(old, new, renames),
        covered(renames, declaration),
    ensures
        decode_items(new, renamed(renames, declaration), s, n, fuel) == renamed_outcome(
            renames,
            decode_items(old, declaration, s, n, fuel),
        ),
    decreases fuel, 1nat, n,
{
    if n > 0 {
        lemma_same_items(old, new, renames, declaration, s, (n - 1) as nat, fuel);
        match decode_items(old, declaration, s, (n - 1) as nat, fuel) {
            Ok((front, used)) => {
                lemma_same_value(old, new, renames, declaration, s.skip(used as int), fuel);
            },
            Err(_) => {},
        }
    }
}

/// Values read under renamed declarations, each at its place, are the
/// values read under the declarations themselves.
pub proof fn lemma_same_positional(
    old: SchemaView,
    new: SchemaView,
    renames: Seq<(Seq<char>, Seq<char>)>,
    declarations: Seq<Seq<char>>,
    s: Seq<u8>,
    n: nat,
    fuel: nat,
)
    requires
        faithful(old, new, renames),
        all_covered(renames, declarations),
    ensures
        decode_positional(new, renamed_names(renames, declarations), s, n, fuel)
            == renamed_outcome(renames, decode_positional(old, declarations, s, n, fuel)),
    decreases fuel, 1nat, n,
{
    if n > 0 && n <= declarations.len() {
        lemma_same_positional(old, new, renames, declarations, s, (n - 1) as nat, fuel);
        match decode_positional(old, declarations, s, (n - 1) as nat, fuel) {
            Ok((front, used)) => {
                assert(covered(renames, declarations[n - 1]));
                lemma_same_value(
                    old,
                    new,
                    renames,
                    declarations[n - 1],
                    s.skip(used as int),
                    fuel,
                );
            },
            Err(_) => {},
        }
    }
}

/// Fields read under renamed declarations are the fields read under the
/// declarations themselves, under the same names.
pub proof fn lemma_same_named(
    old: SchemaView,
    new: SchemaView,
    renames: Seq<(Seq<char>, Seq<char>)>,
    fields: Seq<(Seq<char>, Seq<char>)>,
    s: Seq<u8>,
    n: nat,
    fuel: nat,
)
    requires
        faithful(old, new, renames),
        all_covered(renames, seconds(fields)),
    ensures
        decode_named(new, renamed_pairs(renames, fields), s, n, fuel) == renamed_outcome(
            renames,
            decode_named(old, fields, s, n, fuel),
        ),
    decreases fuel, 1nat, n,
{
    if n > 0 && n <= fields.len() {
        lemma_same_named(old, new, renames, fields, s, (n - 1) as nat, fuel);
        match decode_named(old, fields, s, (n - 1) as nat, fuel) {
            Ok((front, used)) => {
                assert(seconds(fields)[n - 1] == fields[n - 1].1);
                assert(covered(renames, seconds(fields)[n - 1]));
                lemma_same_value(old, new, renames, fields[n - 1].1, s.skip(used as int), fuel);
            },
            Err(_) => {},
        }
    }
}

/// A variant read under a rewritten enum is the variant read under the
/// enum itself.
proof fn lemma_same_variant(
    old: SchemaView,
    new: SchemaView,
    renames: Seq<(Seq<char>, Seq<char>)>,
    variants: Seq<(Seq<char>, Seq<char>)>,
    s: Seq<u8>,
    fuel: nat,
)
    requires
        faithful(old, new, renames),
        all_covered(renames, seconds(variants)),
    ensures
        decode_under(
            new,
            DefinitionView::Enum { variants: renamed_pairs(renames, variants) },
            s,
            fuel,
        ) == renamed_outcome(
            renames,
            decode_under(old, DefinitionView::Enum { variants }, s, fuel),
        ),
    decreases fuel, 2nat, 0nat,
{
    if s.len() > 0 && s[0] < variants.len() {
        let at = s[0] as int;
        assert(seconds(variants)[at] == variants[at].1);
        assert(covered(renames, seconds(variants)[at]));
        lemma_same_value(old, new, renames, variants[at].1, s.skip(1), fuel);
    }
}

/// A struct read under rewritten fields is the struct read under the
/// fields themselves.
proof fn lemma_same_fields(
    old: SchemaView,
    new: SchemaView,
    renames: Seq<(Seq<char>, Seq<char>)>,
    fields: FieldsView,
    s: Seq<u8>,
    fuel: nat,
)
    requires
        faithful(old, new, renames),
        all_covered(renames, inner_of_fields(fields)),
    ensures
        decode_under(
            new,
            rewritten(renames, DefinitionView::Struct { fields }),
            s,
            fuel,
        ) == renamed_outcome(
            renames,
            decode_under(old, DefinitionView::Struct { fields }, s, fuel),
        ),
    decreases fuel, 2nat, 0nat,
{
    match fields {
        FieldsView::NamedFields(named) => {
            lemma_same_named(old, new, renames, named, s, named.len(), fuel);
        },
        FieldsView::UnnamedFields(unnamed) => {
            lemma_same_positional(old, new, renames, unnamed, s, unnamed.len(), fuel);
        },
        FieldsView::Empty => {},
    }
}

/// A value read under a rewritten definition is the value read under the
/// definition itself.
pub proof fn lemma_same_under(
    old: SchemaView,
    new: SchemaView,
    renames: Seq<(Seq<char>, Seq<char>)>,
    definition: DefinitionView,
    s: Seq<u8>,
    fuel: nat,
)
    requires
        faithful(old, new, renames),
        all_covered(renames, inner_declarations(definition)),
    ensures
        decode_under(new, rewritten(renames, definition), s, fuel) == renamed_outcome(
            renames,
            decode_under(old, definition, s, fuel),
        ),
    decreases fuel, 3nat, 0nat,
{
    match definition {
        DefinitionView::Array { length, elements } => {
            assert(inner_declarations(definition)[0] == elements);
            lemma_same_items(old, new, renames, elements, s, length as nat, fuel);
        },
        DefinitionView::Sequence { elements } => {
            assert(inner_declarations(definition)[0] == elements);
            match crate::wire::parse_length(s) {
                Some((count, _)) => {
                    lemma_same_items(old, new, renames, elements, s.skip(4), count, fuel);
                },
                None => {},
            }
        },
        DefinitionView::Tuple { elements } => {
            lemma_same_positional(old, new, renames, elements, s, elements.len(), fuel);
        },
        DefinitionView::Enum { variants } => {
            lemma_same_variant(old, new, renames, variants, s, fuel);
        },
        DefinitionView::Struct { fields } => {
            lemma_same_fields(old, new, renames, fields, s, fuel);
        },
    }
}

/// A value read under a renamed declaration is the value read under the
/// declaration itself.
pub proof fn lemma_same_value(
    old: SchemaView,
    new: SchemaView,
    renames: Seq<(Seq<char>, Seq<char>)>,
    declaration: Seq<char>,
    s: Seq<u8>,
    fuel: nat,
)
    requires
        faithful(old, new, renames),
        covered(renames, declaration),
    ensures
        decode_value(new, renamed(renames, declaration), s, fuel) == renamed_outcome(
            renames,
            decode_value(old, declaration, s, fuel),
        ),
    decreases fuel, 0nat, 0nat,
{
    if position_of(renames, declaration) is Some {
        match old.lookup(declaration) {
            Some(definition) => {
                if fuel > 0 {
                    lemma_same_under(old, new, renames, definition, s, (fuel - 1) as nat);
                }
            },
            None => {},
        }
    }
}

/// Whether `d` stands on `stack`.
pub open spec fn on(stack: Seq<Seq<char>>, d: Seq<char>) -> bool {
    exists|i: int| 0 <= i < stack.len() && #[trigger] stack[i] == d
}

/// Whether `renames` gives new names as a walk does: to user types only,
/// to none twice, each new name one character, below `code` and above those
/// given before.
pub open spec fn tidy(renames: Seq<(Seq<char>, Seq<char>)>, code: u32) -> bool {
    &&& forall|i: int|
        0 <= i < renames.len() ==> primitive_of((#[trigger] renames[i]).0) is None
            && renames[i].1.len() == 1 && (renames[i].1[0] as u32) < code
    &&& forall|i: int, j: int|
        0 <= i < j < renames.len() ==> (#[trigger] renames[i]).0 != (#[trigger] renames[j]).0
            && (renames[i].1[0] as u32) < (renames[j].1[0] as u32)
}

/// Whether what the definitions of the renamed types name is covered or
/// still on `stack`.
pub open spec fn followed(
    schema: SchemaView,
    stack: Seq<Seq<char>>,
    renames: Seq<(Seq<char>, Seq<char>)>,
) -> bool {
    forall|i: int, k: int|
        0 <= i < renames.len() && schema.lookup((#[trigger] renames[i]).0) is Some && 0 <= k
            < inner_declarations(schema.lookup(renames[i].0)->0).len() ==> {
            let d = #[trigger] inner_declarations(schema.lookup(renames[i].0)->0)[k];
            covered(renames, d) || on(stack, d)
        }
}

/// How many declarations the first `n` definitions name whose types have no
/// new name yet.
pub open spec fn pending(
    definitions: Seq<(Seq<char>, DefinitionView)>,
    renames: Seq<(Seq<char>, Seq<char>)>,
    n: nat,
) -> nat
    decreases n,
{
    if n == 0 || n > definitions.len() {
        0
    } else {
        pending(definitions, renames, (n - 1) as nat) + if position_of(
            renames,
            definitions[n - 1].0,
        ) is None {
            inner_declarations(definitions[n - 1].1).len()
        } else {
            0
        }
    }
}

/// What one more pair does to `position_of`.
pub proof fn lemma_position_pushed<T>(
    entries: Seq<(Seq<char>, T)>,
    entry: (Seq<char>, T),
    name: Seq<char>,
)
    ensures
        position_of(entries.push(entry), name) == match position_of(entries, name) {
            Some(i) => Some(i),
            None => if entry.0 == name {
                Some(entries.len() as int)
            } else {
                None
            },
        },
{
    assert(entries.push(entry).drop_last() =~= entries);
}

/// Before any type is renamed, all references are pending.
pub proof fn lemma_all_pending(definitions: Seq<(Seq<char>, DefinitionView)>, n: nat)
    requires
        n <= definitions.len(),
    ensures
        references(definitions, n) == 1 + pending(definitions, Seq::empty(), n),
    decreases n,
{
    if n > 0 {
        lemma_all_pending(definitions, (n - 1) as nat);
    }
}

/// How many declarations the definition of `name` names, where it is
/// among the first `n` definitions.
pub open spec fn released(
    definitions: Seq<(Seq<char>, DefinitionView)>,
    name: Seq<char>,
    n: nat,
) -> nat {
    match position_of(definitions, name) {
        Some(j) => if 0 <= j < n && j < definitions.len() {
            inner_declarations(definitions[j].1).len()
        } else {
            0
        },
        None => 0,
    }
}

/// A type that gets a new name takes the references of its definition out
/// of the pending ones.
pub proof fn lemma_pending_shrinks(
    definitions: Seq<(Seq<char>, DefinitionView)>,
    renames: Seq<(Seq<char>, Seq<char>)>,
    name: Seq<char>,
    new_name: Seq<char>,
    n: nat,
)
    requires
        n <= definitions.len(),
        position_of(renames, name) is None,
    ensures
        pending(definitions, renames.push((name, new_name)), n) + released(definitions, name, n)
            <= pending(definitions, renames, n),
    decreases n,
{
    if n > 0 {
        let more = renames.push((name, new_name));
        let key = definitions[n - 1].0;
        let count = inner_declarations(definitions[n - 1].1).len();
        let before = (n - 1) as nat;
        lemma_pending_shrinks(definitions, renames, name, new_name, before);
        lemma_position_pushed(renames, (name, new_name), key);
        lemma_position_of(definitions, name);
        if key == name {
            assert(position_of(more, key) is Some);
            assert(pending(definitions, more, n) == pending(definitions, more, before));
            assert(pending(definitions, renames, n) == pending(definitions, renames, before)
                + count);
            let j = position_of(definitions, name)->0;
            assert(j <= n - 1);
            if j == n - 1 {
                assert(released(definitions, name, before) == 0);
                assert(released(definitions, name, n) == count);
            } else {
                assert(released(definitions, name, n) == released(definitions, name, before));
            }
        } else {
            assert(position_of(more, key) is None <==> position_of(renames, key) is None);
            assert(pending(definitions, more, n) - pending(definitions, more, before) == pending(
                definitions,
                renames,
                n,
            ) - pending(definitions, renames, before));
            if position_of(definitions, name) is Some {
                assert(position_of(definitions, name)->0 != n - 1);
            }
            assert(released(definitions, name, n) == released(definitions, name, before));
        }
    }
}

/// The name of a primitive has more than one character.
pub proof fn lemma_primitive_names(d: Seq<char>)
    requires
        primitive_of(d) is Some,
    ensures
        d.len() >= 2,
{
    reveal_strlit("u8");
    reveal_strlit("u16");
    reveal_strlit("u32");
    reveal_strlit("u64");
    reveal_strlit("u128");
    reveal_strlit("i8");
    reveal_strlit("i16");
    reveal_strlit("i32");
    reveal_strlit("i64");
    reveal_strlit("i128");
    reveal_strlit("f32");
    reveal_strlit("f64");
    reveal_strlit("string");
    reveal_strlit("bool");
}

/// A walk that starts tidy, with what it has renamed followed and with
/// fuel for all that is pending, ends tidy with everything followed up, and
/// covers what stood on its stack.
pub proof fn lemma_walk(
    schema: SchemaView,
    stack: Seq<Seq<char>>,
    renames: Seq<(Seq<char>, Seq<char>)>,
    code: u32,
    fuel: nat,
    root: Seq<char>,
)
    requires
        tidy(renames, code),
        code <= LAST_SCALAR + 1,
        followed(schema, stack, renames),
        covered(renames, root) || on(stack, root),
        fuel >= stack.len() + pending(schema.definitions, renames, schema.definitions.len()),
        walk(schema, stack, renames, code, fuel) is Some,
    ensures
        tidy(walk(schema, stack, renames, code, fuel)->0, (LAST_SCALAR + 2) as u32),
        followed(schema, Seq::empty(), walk(schema, stack, renames, code, fuel)->0),
        covered(walk(schema, stack, renames, code, fuel)->0, root),
    decreases fuel,
{
    if stack.len() == 0 {
    } else {
        let name = stack.last();
        let rest = stack.drop_last();
        assert(forall|i: int| 0 <= i < rest.len() ==> rest[i] == stack[i]);
        if primitive_of(name) is Some || position_of(renames, name) is Some {
            assert forall|d: Seq<char>| on(stack, d) implies covered(renames, d) || on(
                rest,
                d,
            ) by {
                let i = choose|i: int| 0 <= i < stack.len() && stack[i] == d;
                if i < rest.len() {
                    assert(rest[i] == d);
                }
            }
            lemma_walk(schema, rest, renames, code, (fuel - 1) as nat, root);
        } else {
            let new_name = seq![scalar_from(code) as char];
            let more = renames.push((name, new_name));
            let next_code = (scalar_from(code) + 1) as u32;
            let next = match schema.lookup(name) {
                Some(definition) => rest + inner_declarations(definition),
                None => rest,
            };
            lemma_position_of(renames, name);
            lemma_position_of(schema.definitions, name);
            lemma_pending_shrinks(
                schema.definitions,
                renames,
                name,
                new_name,
                schema.definitions.len(),
            );
            assert(new_name[0] as u32 == scalar_from(code));
            assert(tidy(more, next_code)) by {
                assert forall|i: int| 0 <= i < more.len() implies primitive_of(
                    (#[trigger] more[i]).0,
                ) is None && more[i].1.len() == 1 && (more[i].1[0] as u32) < next_code by {
                    if i < renames.len() {
                        assert(more[i] == renames[i]);
                    }
                }
                assert forall|i: int, j: int| 0 <= i < j < more.len() implies (#[trigger] more[i]).0
                    != (#[trigger] more[j]).0 && (more[i].1[0] as u32) < (more[j].1[0] as u32) by {
                    assert(more[i] == renames[i]);
                    if j < renames.len() {
                        assert(more[j] == renames[j]);
                    }
                }
            }
            assert forall|d: Seq<char>| covered(renames, d) || on(stack, d) implies covered(
                more,
                d,
            ) || on(next, d) by {
                lemma_position_pushed(renames, (name, new_name), d);
                if !covered(renames, d) {
                    let i = choose|i: int| 0 <= i < stack.len() && stack[i] == d;
                    if i < rest.len() {
                        assert(next[i] == d);
                    }
                }
            }
            assert(followed(schema, next, more)) by {
                assert forall|i: int, k: int|
                    0 <= i < more.len() && schema.lookup((#[trigger] more[i]).0) is Some && 0 <= k
                        < inner_declarations(schema.lookup(more[i].0)->0).len() implies {
                    let d = #[trigger] inner_declarations(schema.lookup(more[i].0)->0)[k];
                    covered(more, d) || on(next, d)
                } by {
                    let inner = inner_declarations(schema.lookup(more[i].0)->0);
                    if i < renames.len() {
                        assert(more[i] == renames[i]);
                        assert(covered(renames, inner[k]) || on(stack, inner[k]));
                    } else {
                        assert(next[rest.len() + k] == inner[k]);
                    }
                }
            }
            lemma_walk(schema, next, more, next_code, (fuel - 1) as nat, root);
        }
    }
}

/// Under a new name the compressed schema holds the definition that the
/// schema holds under the old one, rewritten.
pub proof fn lemma_new_lookup(
    schema: SchemaView,
    renames: Seq<(Seq<char>, Seq<char>)>,
    code: u32,
    n: nat,
    i: int,
)
    requires
        tidy(renames, code),
        0 <= i < renames.len(),
        n <= renames.len(),
    ensures
        match position_of(renamed_definitions(schema, renames, n), renames[i].1) {
            Some(at) => {
                &&& i < n
                &&& schema.lookup(renames[i].0) is Some
                &&& 0 <= at < renamed_definitions(schema, renames, n).len()
                &&& renamed_definitions(schema, renames, n)[at].1 == rewritten(
                    renames,
                    schema.lookup(renames[i].0)->0,
                )
            },
            None => !(i < n && schema.lookup(renames[i].0) is Some),
        },
    decreases n,
{
    if n > 0 {
        let front = renamed_definitions(schema, renames, (n - 1) as nat);
        let key = renames[i].1;
        lemma_new_lookup(schema, renames, code, (n - 1) as nat, i);
        lemma_position_of(front, key);
        match schema.lookup(renames[n - 1].0) {
            Some(definition) => {
                let entry = (renames[n - 1].1, rewritten(renames, definition));
                lemma_position_pushed(front, entry, key);
                if i != n - 1 {
                    assert(renames[i].1[0] != renames[n - 1].1[0]);
                }
            },
            None => {},
        }
    }
}

/// What `compress_schema` gives is the schema faithfully renamed, its root
/// included.
pub proof fn lemma_compressed_is_faithful(schema: SchemaView)
    requires
        compressed(schema) is Some,
    ensures
        faithful(schema, compressed(schema)->0, renames_of(schema)->0),
        covered(renames_of(schema)->0, schema.declaration),
{
    let renames = renames_of(schema)->0;
    let new = compressed(schema)->0;
    let start = seq![schema.declaration];
    let none = Seq::<(Seq<char>, Seq<char>)>::empty();
    let fuel = references(schema.definitions, schema.definitions.len());
    lemma_all_pending(schema.definitions, schema.definitions.len());
    assert(start[0] == schema.declaration);
    lemma_walk(schema, start, none, 0, fuel, schema.declaration);
    let code = (LAST_SCALAR + 2) as u32;
    assert forall|d: Seq<char>| #[trigger] position_of(renames, d) is Some implies primitive_of(
        d,
    ) is None && primitive_of(renamed(renames, d)) is None by {
        lemma_position_of(renames, d);
        if primitive_of(renamed(renames, d)) is Some {
            lemma_primitive_names(renamed(renames, d));
        }
    }
    assert forall|d: Seq<char>| #[trigger] position_of(renames, d) is Some implies new.lookup(
        renamed(renames, d),
    ) == match schema.lookup(d) {
        Some(definition) => Some(rewritten(renames, definition)),
        None => None,
    } by {
        lemma_position_of(renames, d);
        let i = position_of(renames, d)->0;
        lemma_new_lookup(schema, renames, code, renames.len(), i);
    }
    assert forall|d: Seq<char>| #[trigger]
        position_of(renames, d) is Some && schema.lookup(d) is Some implies all_covered(
        renames,
        inner_declarations(schema.lookup(d)->0),
    ) by {
        lemma_position_of(renames, d);
        let i = position_of(renames, d)->0;
        let inner = inner_declarations(schema.lookup(d)->0);
        assert forall|k: int| 0 <= k < inner.len() implies covered(
            renames,
            #[trigger] inner[k],
        ) by {
            assert(renames[i].0 == d);
            let named = inner_declarations(schema.lookup(renames[i].0)->0)[k];
            assert(covered(renames, named) || on(Seq::empty(), named));
        }
    }
}

/// Bytes read under a schema and under what `compress_schema` makes of it
/// give the same value, of the same length. Where the one read fails, the
/// other fails in the same way; a declaration that the failure names is
/// named by its new name. Both reads may enter the same number of
/// definitions one inside the other.
pub proof fn lemma_compression_keeps_values(schema: SchemaView, s: Seq<u8>, fuel: nat)
    requires
        compressed(schema) is Some,
    ensures
        decode_value(compressed(schema)->0, compressed(schema)->0.declaration, s, fuel)
            == renamed_outcome(
            renames_of(schema)->0,
            decode_value(schema, schema.declaration, s, fuel),
        ),
        decode_value(schema, schema.declaration, s, fuel) is Ok ==> decode_value(
            compressed(schema)->0,
            compressed(schema)->0.declaration,
            s,
            fuel,
        ) == decode_value(schema, schema.declaration, s, fuel),
{
    lemma_compressed_is_faithful(schema);
    lemma_same_value(
        schema,
        compressed(schema)->0,
        renames_of(schema)->0,
        schema.declaration,
        s,
        fuel,
    );
}

/// What `deserialize_from_schema` reads under a schema it reads under what
/// `compress_schema` makes of it: the same value, of the same length; where
/// the one read fails, the other fails in the same way, and names by its
/// new name the declaration that the failure names. A read that does not
/// end under the one does not end under the other. The bytes are so few
/// that the bounds of both reads can be counted.
pub proof fn lemma_compression_keeps_decoding(schema: SchemaView, s: Seq<u8>)
    requires
        compressed(schema) is Some,
        (s.len() + 1) * (schema.definitions.len() + 1) <= usize::MAX,
        (s.len() + 1) * (compressed(schema)->0.definitions.len() + 1) <= usize::MAX,
    ensures
        ran_out(decode(compressed(schema)->0, s)) == ran_out(decode(schema, s)),
        !ran_out(decode(schema, s)) ==> decode(compressed(schema)->0, s) == renamed_outcome(
            renames_of(schema)->0,
            decode(schema, s),
        ),
{
    let new = compressed(schema)->0;
    let before = decode_fuel(schema, s.len());
    let after = decode_fuel(new, s.len());
    lemma_compression_keeps_values(schema, s, before);
    lemma_compression_keeps_values(schema, s, after);
    if !ran_out(decode(schema, s)) {
        lemma_decode_ends(new, s, before);
    } else if !ran_out(decode(new, s)) {
        lemma_decode_ends(schema, s, after);
    }
}

} // verus!
