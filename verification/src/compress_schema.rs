//! Renaming the user types of a schema to short names.

pub mod same_values;

use crate::schema::{
    definitions_view, find, lemma_position_is_first, lemma_position_is_none, names_view,
    pairs_view, position_of, primitive, primitive_of, Definition, DefinitionView, Fields,
    FieldsView, Schema, SchemaView,
};
use crate::text::owned;
use vstd::prelude::*;
use vstd::utf8::is_scalar;

verus! {

/// `char::from_u32` gives the character with the scalar value `i`, and
/// nothing where `i` is no scalar value: a surrogate, or beyond `0x10FFFF`.
pub assume_specification[ std::primitive::char::from_u32 ](i: u32) -> (r: Option<char>)
    ensures
        r == (if is_scalar(i) {
            Some(i as char)
        } else {
            None::<char>
        }),
;

/// `String::push` appends one character.
pub assume_specification[ std::string::String::push ](s: &mut std::string::String, c: char)
    ensures
        final(s)@ == old(s)@.push(c),
;

/// The last scalar value.
pub const LAST_SCALAR: u32 = 0x10_FFFF;

/// The first scalar value from `code` on, for `code` up to the last one.
pub open spec fn scalar_from(code: u32) -> u32 {
    if 0xD800 <= code <= 0xDFFF {
        0xE000
    } else {
        code
    }
}

/// The name made of the first character from `*next_name_code` on; the
/// code moves behind that character.
pub fn next_name(next_name_code: &mut u32) -> (name: String)
    requires
        *old(next_name_code) <= LAST_SCALAR,
    ensures
        name@ == seq![scalar_from(*old(next_name_code)) as char],
        *final(next_name_code) == scalar_from(*old(next_name_code)) + 1,
{
    let first: u32 = *next_name_code;
    let mut code: u32 = first;
    let mut c: Option<char> = None;
    while c.is_none()
        invariant
            first <= LAST_SCALAR,
            first <= code <= 0x11_0000,
            match c {
                None => code == first || (0xD800 <= first <= 0xDFFF && code <= 0xE000),
                Some(found) => found == scalar_from(first) as char && code == scalar_from(first)
                    + 1,
            },
        decreases 0x11_0000 - code, c.is_none() as int,
    {
        c = char::from_u32(code);
        code += 1;
    }
    *next_name_code = code;
    let mut name = String::new();
    match c {
        Some(found) => {
            name.push(found);
        },
        None => {},
    }
    assert(name@ =~= seq![scalar_from(*old(next_name_code)) as char]);
    name
}

/// The second part of each pair.
pub open spec fn seconds(pairs: Seq<(Seq<char>, Seq<char>)>) -> Seq<Seq<char>> {
    Seq::new(pairs.len(), |i: int| pairs[i].1)
}

/// The declarations that `fields` name, in their order.
pub open spec fn inner_of_fields(fields: FieldsView) -> Seq<Seq<char>> {
    match fields {
        FieldsView::NamedFields(named) => seconds(named),
        FieldsView::UnnamedFields(unnamed) => unnamed,
        FieldsView::Empty => Seq::empty(),
    }
}

/// The declarations that `definition` names, in their order.
pub open spec fn inner_declarations(definition: DefinitionView) -> Seq<Seq<char>> {
    match definition {
        DefinitionView::Array { length, elements } => seq![elements],
        DefinitionView::Sequence { elements } => seq![elements],
        DefinitionView::Tuple { elements } => elements,
        DefinitionView::Enum { variants } => seconds(variants),
        DefinitionView::Struct { fields } => inner_of_fields(fields),
    }
}

/// The texts in `v`, each as its characters.
pub open spec fn texts_view(v: Seq<&str>) -> Seq<Seq<char>> {
    Seq::new(v.len(), |i: int| v[i]@)
}

/// The second part of each pair.
fn second_parts<'a>(pairs: &'a Vec<(String, String)>) -> (r: Vec<&'a str>)
    ensures
        texts_view(r@) == seconds(pairs_view(pairs@)),
{
    let mut out: Vec<&'a str> = Vec::new();
    let mut i: usize = 0;
    while i < pairs.len()
        invariant
            i <= pairs.len(),
            out@.len() == i,
            forall|k: int| 0 <= k < i ==> out@[k]@ == pairs@[k].1@,
        decreases pairs.len() - i,
    {
        out.push(pairs[i].1.as_str());
        i += 1;
    }
    assert(texts_view(out@) =~= seconds(pairs_view(pairs@)));
    out
}

/// Each of `names` as text.
fn all_parts<'a>(names: &'a Vec<String>) -> (r: Vec<&'a str>)
    ensures
        texts_view(r@) == names_view(names@),
{
    let mut out: Vec<&'a str> = Vec::new();
    let mut i: usize = 0;
    while i < names.len()
        invariant
            i <= names.len(),
            out@.len() == i,
            forall|k: int| 0 <= k < i ==> out@[k]@ == names@[k]@,
        decreases names.len() - i,
    {
        out.push(names[i].as_str());
        i += 1;
    }
    assert(texts_view(out@) =~= names_view(names@));
    out
}

impl Fields {
    /// The declarations that these fields name, in their order.
    pub fn get_inner_definitions<'a>(&'a self) -> (r: Vec<&'a str>)
        ensures
            texts_view(r@) == inner_of_fields(self@),
    {
        match self {
            Fields::NamedFields(named_fields) => second_parts(named_fields),
            Fields::UnnamedFields(unnamed_fields) => all_parts(unnamed_fields),
            Fields::Empty => {
                let out: Vec<&'a str> = Vec::new();
                assert(texts_view(out@) =~= Seq::empty());
                out
            },
        }
    }
}

impl Definition {
    /// The declarations that this definition names, in their order.
    pub fn get_inner_definitions<'a>(&'a self) -> (r: Vec<&'a str>)
        ensures
            texts_view(r@) == inner_declarations(self@),
    {
        match self {
            Definition::Array { elements, .. } => {
                let mut out: Vec<&'a str> = Vec::new();
                out.push(elements.as_str());
                assert(texts_view(out@) =~= seq![elements@]);
                out
            },
            Definition::Sequence { elements } => {
                let mut out: Vec<&'a str> = Vec::new();
                out.push(elements.as_str());
                assert(texts_view(out@) =~= seq![elements@]);
                out
            },
            Definition::Tuple { elements } => all_parts(elements),
            Definition::Enum { variants } => second_parts(variants),
            Definition::Struct { fields } => fields.get_inner_definitions(),
        }
    }
}

/// What `declaration` is called after renaming: its new name, or its own
/// where it has none.
pub open spec fn renamed(renames: Seq<(Seq<char>, Seq<char>)>, declaration: Seq<char>) -> Seq<
    char,
> {
    match position_of(renames, declaration) {
        Some(i) => renames[i].1,
        None => declaration,
    }
}

/// `names`, each renamed.
pub open spec fn renamed_names(
    renames: Seq<(Seq<char>, Seq<char>)>,
    names: Seq<Seq<char>>,
) -> Seq<Seq<char>> {
    Seq::new(names.len(), |i: int| renamed(renames, names[i]))
}

/// `pairs`, the declaration in each renamed and its label kept.
pub open spec fn renamed_pairs(
    renames: Seq<(Seq<char>, Seq<char>)>,
    pairs: Seq<(Seq<char>, Seq<char>)>,
) -> Seq<(Seq<char>, Seq<char>)> {
    Seq::new(pairs.len(), |i: int| (pairs[i].0, renamed(renames, pairs[i].1)))
}

/// `definition` with every declaration in it renamed; the names of variants
/// and fields stay.
pub open spec fn rewritten(
    renames: Seq<(Seq<char>, Seq<char>)>,
    definition: DefinitionView,
) -> DefinitionView {
    match definition {
        DefinitionView::Array { length, elements } => DefinitionView::Array {
            length,
            elements: renamed(renames, elements),
        },
        DefinitionView::Sequence { elements } => DefinitionView::Sequence {
            elements: renamed(renames, elements),
        },
        DefinitionView::Tuple { elements } => DefinitionView::Tuple {
            elements: renamed_names(renames, elements),
        },
        DefinitionView::Enum { variants } => DefinitionView::Enum {
            variants: renamed_pairs(renames, variants),
        },
        DefinitionView::Struct { fields } => DefinitionView::Struct {
            fields: match fields {
                FieldsView::NamedFields(named) => FieldsView::NamedFields(
                    renamed_pairs(renames, named),
                ),
                FieldsView::UnnamedFields(unnamed) => FieldsView::UnnamedFields(
                    renamed_names(renames, unnamed),
                ),
                FieldsView::Empty => FieldsView::Empty,
            },
        },
    }
}

/// The definitions of the first `n` renamed declarations, each rewritten
/// and under its new name; a declaration without a definition adds none.
pub open spec fn renamed_definitions(
    schema: SchemaView,
    renames: Seq<(Seq<char>, Seq<char>)>,
    n: nat,
) -> Seq<(Seq<char>, DefinitionView)>
    decreases n,
{
    if n == 0 || n > renames.len() {
        Seq::empty()
    } else {
        let front = renamed_definitions(schema, renames, (n - 1) as nat);
        match schema.lookup(renames[n - 1].0) {
            Some(definition) => front.push((renames[n - 1].1, rewritten(renames, definition))),
            None => front,
        }
    }
}

/// The renaming that a walk gives which has `stack` still to visit, has
/// given out `renames` and the names below `code`, and visits at most `fuel`
/// more declarations; nothing where the names run out.
///
/// The walk takes the last declaration of the stack. A primitive and a
/// declaration that has a new name are passed over. Any other gets the next
/// name, and the declarations that its definition names go on the stack.
pub open spec fn walk(
    schema: SchemaView,
    stack: Seq<Seq<char>>,
    renames: Seq<(Seq<char>, Seq<char>)>,
    code: u32,
    fuel: nat,
) -> Option<Seq<(Seq<char>, Seq<char>)>>
    decreases fuel,
{
    if stack.len() == 0 || fuel == 0 {
        Some(renames)
    } else {
        let name = stack.last();
        let rest = stack.drop_last();
        if primitive_of(name) is Some || position_of(renames, name) is Some {
            walk(schema, rest, renames, code, (fuel - 1) as nat)
        } else if code > LAST_SCALAR {
            None
        } else {
            let more = renames.push((name, seq![scalar_from(code) as char]));
            let next = match schema.lookup(name) {
                Some(definition) => rest + inner_declarations(definition),
                None => rest,
            };
            walk(schema, next, more, (scalar_from(code) + 1) as u32, (fuel - 1) as nat)
        }
    }
}

/// One more than the number of declarations that the first `n` definitions
/// name.
pub open spec fn references(definitions: Seq<(Seq<char>, DefinitionView)>, n: nat) -> nat
    decreases n,
{
    if n == 0 || n > definitions.len() {
        1
    } else {
        references(definitions, (n - 1) as nat) + inner_declarations(definitions[n - 1].1).len()
    }
}

/// How many declarations a walk over `schema` may visit: as many as stand
/// in it, which is enough for every walk.
pub open spec fn walk_fuel(schema: SchemaView) -> nat {
    references(schema.definitions, schema.definitions.len())
}

/// The renaming of `schema`: each user type that its root leads to, with its
/// new name, in the order of the walk. There is none where the schema names
/// more declarations than can be counted.
pub open spec fn renames_of(schema: SchemaView) -> Option<Seq<(Seq<char>, Seq<char>)>> {
    if walk_fuel(schema) <= usize::MAX {
        walk(schema, seq![schema.declaration], Seq::empty(), 0, walk_fuel(schema))
    } else {
        None
    }
}

/// `schema` with its user types renamed to short names; nothing where
/// there are more of them than names.
pub open spec fn compressed(schema: SchemaView) -> Option<SchemaView> {
    match renames_of(schema) {
        Some(renames) => Some(
            SchemaView {
                declaration: renamed(renames, schema.declaration),
                definitions: renamed_definitions(schema, renames, renames.len()),
            },
        ),
        None => None,
    }
}

/// What `declaration` is called after renaming.
fn rename(renames: &Vec<(String, String)>, declaration: &str) -> (r: String)
    ensures
        r@ == renamed(pairs_view(renames@), declaration@),
{
    match find(renames, declaration) {
        Some(at) => {
            proof {
                lemma_position_is_first(pairs_view(renames@), declaration@, at as int);
            }
            renames[at].1.clone()
        },
        None => {
            proof {
                lemma_position_is_none(pairs_view(renames@), declaration@);
            }
            owned(declaration)
        },
    }
}

/// `names`, each renamed.
fn rename_names(renames: &Vec<(String, String)>, names: &Vec<String>) -> (r: Vec<String>)
    ensures
        names_view(r@) == renamed_names(pairs_view(renames@), names_view(names@)),
{
    let mut out: Vec<String> = Vec::new();
    let mut i: usize = 0;
    while i < names.len()
        invariant
            i <= names.len(),
            out@.len() == i,
            forall|k: int|
                0 <= k < i ==> out@[k]@ == renamed(pairs_view(renames@), names@[k]@),
        decreases names.len() - i,
    {
        out.push(rename(renames, names[i].as_str()));
        i += 1;
    }
    assert(names_view(out@) =~= renamed_names(pairs_view(renames@), names_view(names@)));
    out
}

/// `pairs`, the declaration in each renamed and its label kept.
fn rename_pairs(renames: &Vec<(String, String)>, pairs: &Vec<(String, String)>) -> (r: Vec<
    (String, String),
>)
    ensures
        pairs_view(r@) == renamed_pairs(pairs_view(renames@), pairs_view(pairs@)),
{
    let mut out: Vec<(String, String)> = Vec::new();
    let mut i: usize = 0;
    while i < pairs.len()
        invariant
            i <= pairs.len(),
            out@.len() == i,
            forall|k: int|
                0 <= k < i ==> out@[k].0@ == pairs@[k].0@ && out@[k].1@ == renamed(
                    pairs_view(renames@),
                    pairs@[k].1@,
                ),
        decreases pairs.len() - i,
    {
        out.push((pairs[i].0.clone(), rename(renames, pairs[i].1.as_str())));
        i += 1;
    }
    assert(pairs_view(out@) =~= renamed_pairs(pairs_view(renames@), pairs_view(pairs@)));
    out
}

/// `definition` with every declaration in it renamed.
fn rewrite(renames: &Vec<(String, String)>, definition: &Definition) -> (r: Definition)
    ensures
        r@ == rewritten(pairs_view(renames@), definition@),
{
    match definition {
        Definition::Array { length, elements } => Definition::Array {
            length: *length,
            elements: rename(renames, elements.as_str()),
        },
        Definition::Sequence { elements } => Definition::Sequence {
            elements: rename(renames, elements.as_str()),
        },
        Definition::Tuple { elements } => Definition::Tuple {
            elements: rename_names(renames, elements),
        },
        Definition::Enum { variants } => Definition::Enum {
            variants: rename_pairs(renames, variants),
        },
        Definition::Struct { fields } => Definition::Struct {
            fields: match fields {
                Fields::NamedFields(named_fields) => Fields::NamedFields(
                    rename_pairs(renames, named_fields),
                ),
                Fields::UnnamedFields(unnamed_fields) => Fields::UnnamedFields(
                    rename_names(renames, unnamed_fields),
                ),
                Fields::Empty => Fields::Empty,
            },
        },
    }
}

/// Adds to `new_definitions` the definitions of the renamed declarations
/// from the place `current` on, each rewritten and under its new name.
fn add_definitions_rec(
    new_definitions: &mut Vec<(String, Definition)>,
    current: usize,
    old_definitions: &Schema,
    old_to_new_map: &Vec<(String, String)>,
)
    requires
        current <= old_to_new_map@.len(),
        definitions_view(old(new_definitions)@) == renamed_definitions(
            old_definitions@,
            pairs_view(old_to_new_map@),
            current as nat,
        ),
    ensures
        definitions_view(final(new_definitions)@) == renamed_definitions(
            old_definitions@,
            pairs_view(old_to_new_map@),
            old_to_new_map@.len(),
        ),
    decreases old_to_new_map@.len() - current,
{
    if current < old_to_new_map.len() {
        let ghost before = definitions_view(new_definitions@);
        match old_definitions.get(old_to_new_map[current].0.as_str()) {
            Some(old_definition) => {
                let new_name = old_to_new_map[current].1.clone();
                let definition = rewrite(old_to_new_map, old_definition);
                new_definitions.push((new_name, definition));
                assert(definitions_view(new_definitions@) =~= before.push(
                    (new_name@, definition@),
                ));
            },
            None => {},
        }
        add_definitions_rec(new_definitions, current + 1, old_definitions, old_to_new_map);
    }
}

/// How many declarations a walk over `schema` may visit, where they can
/// be counted.
fn fuel_to_walk(schema: &Schema) -> (fuel: Option<usize>)
    ensures
        match fuel {
            Some(n) => n == walk_fuel(schema@),
            None => walk_fuel(schema@) > usize::MAX,
        },
{
    let mut all: usize = 1;
    let mut i: usize = 0;
    while i < schema.definitions.len()
        invariant
            i <= schema.definitions.len(),
            all == references(schema@.definitions, i as nat),
        decreases schema.definitions.len() - i,
    {
        let inner = schema.definitions[i].1.get_inner_definitions();
        assert(inner@.len() == inner_declarations(schema@.definitions[i as int].1).len());
        all = match all.checked_add(inner.len()) {
            Some(sum) => sum,
            None => {
                proof {
                    lemma_references_rise(
                        schema@.definitions,
                        (i + 1) as nat,
                        schema@.definitions.len(),
                    );
                }
                return None;
            },
        };
        i += 1;
    }
    Some(all)
}

/// The count of references does not fall as more definitions are counted.
pub proof fn lemma_references_rise(
    definitions: Seq<(Seq<char>, DefinitionView)>,
    n: nat,
    m: nat,
)
    requires
        n <= m <= definitions.len(),
    ensures
        references(definitions, n) <= references(definitions, m),
    decreases m - n,
{
    if n < m {
        lemma_references_rise(definitions, n, (m - 1) as nat);
    }
}

/// Gives each user type that the root of `schema` leads to a short name:
/// the old names with the new ones, in the order of the walk.
fn collect_renames(schema: &Schema) -> (r: Option<Vec<(String, String)>>)
    ensures
        match r {
            Some(renames) => renames_of(schema@) == Some(pairs_view(renames@)),
            None => renames_of(schema@) is None,
        },
{
    let mut old_to_new_map: Vec<(String, String)> = Vec::new();
    let mut next_name_code: u32 = 0;
    let mut stack: Vec<&str> = Vec::new();
    stack.push(schema.declaration.as_str());
    let mut fuel = match fuel_to_walk(schema) {
        Some(fuel) => fuel,
        None => {
            return None;
        },
    };
    assert(texts_view(stack@) =~= seq![schema@.declaration]);
    assert(pairs_view(old_to_new_map@) =~= Seq::empty());
    while stack.len() > 0 && fuel > 0
        invariant
            next_name_code <= 0x11_0000,
            walk(
                schema@,
                texts_view(stack@),
                pairs_view(old_to_new_map@),
                next_name_code,
                fuel as nat,
            ) == renames_of(schema@),
        decreases fuel,
    {
        let ghost before = texts_view(stack@);
        let ghost given = pairs_view(old_to_new_map@);
        let old_name = stack.pop().unwrap();
        assert(texts_view(stack@) =~= before.drop_last());
        assert(old_name@ == before.last());
        fuel -= 1;
        if primitive(old_name).is_some() {
            continue ;
        }
        match find(&old_to_new_map, old_name) {
            Some(at) => {
                proof {
                    lemma_position_is_first(given, old_name@, at as int);
                }
                continue ;
            },
            None => {
                proof {
                    lemma_position_is_none(given, old_name@);
                }
            },
        }
        if next_name_code > LAST_SCALAR {
            return None;
        }
        let new_name = next_name(&mut next_name_code);
        old_to_new_map.push((owned(old_name), new_name));
        assert(pairs_view(old_to_new_map@) =~= given.push((old_name@, new_name@)));
        match schema.get(old_name) {
            Some(definition) => {
                let ghost rest = texts_view(stack@);
                let inner = definition.get_inner_definitions();
                let mut i: usize = 0;
                while i < inner.len()
                    invariant
                        i <= inner.len(),
                        texts_view(stack@) == rest + texts_view(inner@).take(i as int),
                    decreases inner.len() - i,
                {
                    let ghost so_far = texts_view(stack@);
                    stack.push(inner[i]);
                    assert(texts_view(stack@) =~= so_far.push(inner@[i as int]@));
                    assert(texts_view(inner@).take(i + 1) =~= texts_view(inner@).take(
                        i as int,
                    ).push(inner@[i as int]@));
                    i += 1;
                    assert(texts_view(stack@) =~= rest + texts_view(inner@).take(i as int));
                }
                assert(texts_view(inner@).take(inner@.len() as int) =~= texts_view(inner@));
            },
            None => {},
        }
    }
    assert(texts_view(stack@).len() == stack@.len());
    Some(old_to_new_map)
}

/// `schema` with each user type that its root leads to renamed to a name of
/// one character; the names of variants and fields stay. Nothing where the
/// schema holds more user types than there are characters, or names more
/// declarations than can be counted.
pub fn compress_schema(schema: &Schema) -> (r: Option<Schema>)
    ensures
        match r {
            Some(c) => compressed(schema@) == Some(c@),
            None => compressed(schema@) is None,
        },
{
    let old_to_new_map = match collect_renames(schema) {
        Some(renames) => renames,
        None => {
            return None;
        },
    };
    let mut new_definitions: Vec<(String, Definition)> = Vec::new();
    assert(definitions_view(new_definitions@) =~= Seq::empty());
    add_definitions_rec(&mut new_definitions, 0, schema, &old_to_new_map);
    Some(
        Schema {
            declaration: rename(&old_to_new_map, schema.declaration.as_str()),
            definitions: new_definitions,
        },
    )
}

} // verus!
