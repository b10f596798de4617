//! Type definitions and the declaration they are rooted in.

use crate::text::{comes_before, lemma_text_order, same_text, text_before};
use vstd::prelude::*;

verus! {

/// The types that need no definition.
#[derive(Clone, Copy, Debug, PartialEq, Eq, Structural)]
pub enum Primitive {
    U8,
    U16,
    U32,
    U64,
    U128,
    I8,
    I16,
    I32,
    I64,
    I128,
    F32,
    F64,
    String,
    Bool,
}

/// The fields of a struct.
#[derive(Clone, Debug, PartialEq, Eq)]
pub enum Fields {
    NamedFields(Vec<(String, String)>),
    UnnamedFields(Vec<String>),
    Empty,
}

/// The structure of a user type. Each declaration in it names a primitive
/// or another definition.
#[derive(Clone, Debug, PartialEq, Eq)]
#[allow(inconsistent_fields)]
pub enum Definition {
    Array { length: u32, elements: String },
    Sequence { elements: String },
    Tuple { elements: Vec<String> },
    Enum { variants: Vec<(String, String)> },
    Struct { fields: Fields },
}

/// A root declaration with the definitions it rests on.
#[derive(Clone, Debug, PartialEq, Eq)]
pub struct Schema {
    pub declaration: String,
    pub definitions: Vec<(String, Definition)>,
}

/// The fields of a struct, with names as their characters.
pub ghost enum FieldsView {
    NamedFields(Seq<(Seq<char>, Seq<char>)>),
    UnnamedFields(Seq<Seq<char>>),
    Empty,
}

/// The structure of a user type, with names as their characters.
#[allow(inconsistent_fields)]
pub ghost enum DefinitionView {
    Array { length: u32, elements: Seq<char> },
    Sequence { elements: Seq<char> },
    Tuple { elements: Seq<Seq<char>> },
    Enum { variants: Seq<(Seq<char>, Seq<char>)> },
    Struct { fields: FieldsView },
}

/// A root declaration with the definitions it rests on, each with its
/// name, in their order.
pub ghost struct SchemaView {
    pub declaration: Seq<char>,
    pub definitions: Seq<(Seq<char>, DefinitionView)>,
}

/// The names in `v`, each as its characters.
pub open spec fn names_view(v: Seq<String>) -> Seq<Seq<char>> {
    Seq::new(v.len(), |i: int| v[i]@)
}

/// The pairs in `v`, each part as its characters.
pub open spec fn pairs_view(v: Seq<(String, String)>) -> Seq<(Seq<char>, Seq<char>)> {
    Seq::new(v.len(), |i: int| (v[i].0@, v[i].1@))
}

/// The definitions in `v`, each with its name.
pub open spec fn definitions_view(v: Seq<(String, Definition)>) -> Seq<(Seq<char>, DefinitionView)> {
    Seq::new(v.len(), |i: int| (v[i].0@, v[i].1@))
}

impl View for Fields {
    type V = FieldsView;

    open spec fn view(&self) -> FieldsView {
        match self {
            Fields::NamedFields(fields) => FieldsView::NamedFields(pairs_view(fields@)),
            Fields::UnnamedFields(fields) => FieldsView::UnnamedFields(names_view(fields@)),
            Fields::Empty => FieldsView::Empty,
        }
    }
}

impl View for Definition {
    type V = DefinitionView;

    open spec fn view(&self) -> DefinitionView {
        match self {
            Definition::Array { length, elements } => DefinitionView::Array {
                length: *length,
                elements: elements@,
            },
            Definition::Sequence { elements } => DefinitionView::Sequence { elements: elements@ },
            Definition::Tuple { elements } => DefinitionView::Tuple {
                elements: names_view(elements@),
            },
            Definition::Enum { variants } => DefinitionView::Enum {
                variants: pairs_view(variants@),
            },
            Definition::Struct { fields } => DefinitionView::Struct { fields: fields@ },
        }
    }
}

impl View for Schema {
    type V = SchemaView;

    open spec fn view(&self) -> SchemaView {
        SchemaView {
            declaration: self.declaration@,
            definitions: definitions_view(self.definitions@),
        }
    }
}

/// The primitive that `declaration` names, if it names one.
pub open spec fn primitive_of(declaration: Seq<char>) -> Option<Primitive> {
    if declaration == "u8"@ {
        Some(Primitive::U8)
    } else if declaration == "u16"@ {
        Some(Primitive::U16)
    } else if declaration == "u32"@ {
        Some(Primitive::U32)
    } else if declaration == "u64"@ {
        Some(Primitive::U64)
    } else if declaration == "u128"@ {
        Some(Primitive::U128)
    } else if declaration == "i8"@ {
        Some(Primitive::I8)
    } else if declaration == "i16"@ {
        Some(Primitive::I16)
    } else if declaration == "i32"@ {
        Some(Primitive::I32)
    } else if declaration == "i64"@ {
        Some(Primitive::I64)
    } else if declaration == "i128"@ {
        Some(Primitive::I128)
    } else if declaration == "f32"@ {
        Some(Primitive::F32)
    } else if declaration == "f64"@ {
        Some(Primitive::F64)
    } else if declaration == "string"@ {
        Some(Primitive::String)
    } else if declaration == "bool"@ {
        Some(Primitive::Bool)
    } else {
        None
    }
}

/// The primitive that `declaration` names, if it names one.
pub fn primitive(declaration: &str) -> (r: Option<Primitive>)
    ensures
        r == primitive_of(declaration@),
{
    if same_text(declaration, "u8") {
        Some(Primitive::U8)
    } else if same_text(declaration, "u16") {
        Some(Primitive::U16)
    } else if same_text(declaration, "u32") {
        Some(Primitive::U32)
    } else if same_text(declaration, "u64") {
        Some(Primitive::U64)
    } else if same_text(declaration, "u128") {
        Some(Primitive::U128)
    } else if same_text(declaration, "i8") {
        Some(Primitive::I8)
    } else if same_text(declaration, "i16") {
        Some(Primitive::I16)
    } else if same_text(declaration, "i32") {
        Some(Primitive::I32)
    } else if same_text(declaration, "i64") {
        Some(Primitive::I64)
    } else if same_text(declaration, "i128") {
        Some(Primitive::I128)
    } else if same_text(declaration, "f32") {
        Some(Primitive::F32)
    } else if same_text(declaration, "f64") {
        Some(Primitive::F64)
    } else if same_text(declaration, "string") {
        Some(Primitive::String)
    } else if same_text(declaration, "bool") {
        Some(Primitive::Bool)
    } else {
        None
    }
}

/// The index of the first entry of `entries` under `name`.
pub open spec fn position_of<T>(entries: Seq<(Seq<char>, T)>, name: Seq<char>) -> Option<int>
    decreases entries.len(),
{
    if entries.len() == 0 {
        None
    } else {
        match position_of(entries.drop_last(), name) {
            Some(i) => Some(i),
            None => if entries.last().0 == name {
                Some(entries.len() - 1)
            } else {
                None
            },
        }
    }
}

/// What `position_of` gives is the first index under the name; it gives
/// none where no entry stands under the name.
pub proof fn lemma_position_of<T>(entries: Seq<(Seq<char>, T)>, name: Seq<char>)
    ensures
        match position_of(entries, name) {
            Some(i) => 0 <= i < entries.len() && entries[i].0 == name && forall|k: int|
                0 <= k < i ==> entries[k].0 != name,
            None => forall|k: int| 0 <= k < entries.len() ==> entries[k].0 != name,
        },
    decreases entries.len(),
{
    if entries.len() > 0 {
        let front = entries.drop_last();
        lemma_position_of(front, name);
        assert(forall|k: int| 0 <= k < front.len() ==> front[k] == entries[k]);
    }
}

impl SchemaView {
    /// The definition that `name` resolves to.
    pub open spec fn lookup(self, name: Seq<char>) -> Option<DefinitionView> {
        match position_of(self.definitions, name) {
            Some(i) => Some(self.definitions[i].1),
            None => None,
        }
    }
}

impl Schema {
    /// The definition that `name` resolves to.
    pub fn get(&self, name: &str) -> (r: Option<&Definition>)
        ensures
            match r {
                Some(d) => self@.lookup(name@) == Some(d@),
                None => self@.lookup(name@) is None,
            },
    {
        let mut i: usize = 0;
        while i < self.definitions.len()
            invariant
                i <= self.definitions.len(),
                position_of(self@.definitions.take(i as int), name@) is None,
            decreases self.definitions.len() - i,
        {
            let ghost next = self@.definitions.take(i + 1);
            assert(next.drop_last() =~= self@.definitions.take(i as int));
            if same_text(self.definitions[i].0.as_str(), name) {
                proof {
                    lemma_position_prefix(self@.definitions, name@, i + 1);
                }
                return Some(&self.definitions[i].1);
            }
            i += 1;
        }
        assert(self@.definitions.take(i as int) =~= self@.definitions);
        None
    }
}

/// A name found in a prefix is found at the same place in the whole.
pub proof fn lemma_position_prefix<T>(entries: Seq<(Seq<char>, T)>, name: Seq<char>, n: int)
    requires
        0 <= n <= entries.len(),
        position_of(entries.take(n), name) is Some,
    ensures
        position_of(entries, name) == position_of(entries.take(n), name),
    decreases entries.len() - n,
{
    if n < entries.len() {
        assert(entries.take(n + 1).drop_last() =~= entries.take(n));
        lemma_position_prefix(entries, name, n + 1);
    } else {
        assert(entries.take(n) =~= entries);
    }
}

/// The index of the first entry of `entries` under `name`.
pub fn find<T>(entries: &Vec<(String, T)>, name: &str) -> (r: Option<usize>)
    ensures
        match r {
            Some(i) => i < entries.len() && entries[i as int].0@ == name@ && forall|k: int|
                0 <= k < i ==> entries[k].0@ != name@,
            None => forall|k: int| 0 <= k < entries.len() ==> entries[k].0@ != name@,
        },
{
    let mut i: usize = 0;
    while i < entries.len()
        invariant
            i <= entries.len(),
            forall|k: int| 0 <= k < i ==> entries[k].0@ != name@,
        decreases entries.len() - i,
    {
        if same_text(entries[i].0.as_str(), name) {
            return Some(i);
        }
        i += 1;
    }
    None
}

/// The first index under a name is the one that `position_of` gives.
pub proof fn lemma_position_is_first<T>(entries: Seq<(Seq<char>, T)>, name: Seq<char>, i: int)
    requires
        0 <= i < entries.len(),
        entries[i].0 == name,
        forall|k: int| 0 <= k < i ==> entries[k].0 != name,
    ensures
        position_of(entries, name) == Some(i),
{
    lemma_position_of(entries, name);
}

/// Where no entry stands under a name, `position_of` gives none.
pub proof fn lemma_position_is_none<T>(entries: Seq<(Seq<char>, T)>, name: Seq<char>)
    requires
        forall|k: int| 0 <= k < entries.len() ==> entries[k].0 != name,
    ensures
        position_of(entries, name) is None,
{
    lemma_position_of(entries, name);
}

/// The place of `key` among `entries` in the order of names: the index of
/// the first entry whose name does not come before `key`.
pub open spec fn slot<T>(entries: Seq<(Seq<char>, T)>, key: Seq<char>) -> int
    decreases entries.len(),
{
    if entries.len() == 0 {
        0
    } else {
        let before = slot(entries.drop_last(), key);
        if before < entries.len() - 1 {
            before
        } else if text_before(entries.last().0, key) {
            entries.len() as int
        } else {
            entries.len() - 1
        }
    }
}

/// The slot of a key lies behind the names that come before the key, and
/// before a name that does not.
pub proof fn lemma_slot<T>(entries: Seq<(Seq<char>, T)>, key: Seq<char>)
    ensures
        0 <= slot(entries, key) <= entries.len(),
        forall|k: int| 0 <= k < slot(entries, key) ==> text_before(entries[k].0, key),
        slot(entries, key) < entries.len() ==> !text_before(entries[slot(entries, key)].0, key),
    decreases entries.len(),
{
    if entries.len() > 0 {
        let front = entries.drop_last();
        lemma_slot(front, key);
        assert(forall|k: int| 0 <= k < front.len() ==> front[k] == entries[k]);
    }
}

/// The first index whose name does not come before `key` is the slot.
pub proof fn lemma_slot_is_first<T>(entries: Seq<(Seq<char>, T)>, key: Seq<char>, i: int)
    requires
        0 <= i <= entries.len(),
        forall|k: int| 0 <= k < i ==> text_before(entries[k].0, key),
        i < entries.len() ==> !text_before(entries[i].0, key),
    ensures
        slot(entries, key) == i,
{
    lemma_slot(entries, key);
}

/// `entries` with `value` under `key`: in the place of the entry that
/// stands under `key` at the slot of `key`, or put in at that slot.
pub open spec fn placed<T>(entries: Seq<(Seq<char>, T)>, key: Seq<char>, value: T) -> Seq<
    (Seq<char>, T),
> {
    let at = slot(entries, key);
    if at < entries.len() && entries[at].0 == key {
        entries.update(at, (key, value))
    } else {
        entries.insert(at, (key, value))
    }
}

/// Whether the names of `entries` stand in rising order, none twice.
pub open spec fn rising<T>(entries: Seq<(Seq<char>, T)>) -> bool {
    forall|i: int, j: int|
        0 <= i < j < entries.len() ==> text_before(
            (#[trigger] entries[i]).0,
            (#[trigger] entries[j]).0,
        )
}

/// A name behind all the others is put at the end.
pub proof fn lemma_placed_last<T>(entries: Seq<(Seq<char>, T)>, key: Seq<char>, value: T)
    requires
        forall|k: int| 0 <= k < entries.len() ==> text_before((#[trigger] entries[k]).0, key),
    ensures
        placed(entries, key, value) == entries.push((key, value)),
{
    lemma_slot_is_first(entries, key, entries.len() as int);
    assert(entries.insert(entries.len() as int, (key, value)) =~= entries.push((key, value)));
}

impl SchemaView {
    /// Whether the definitions stand in the order of their names, none twice.
    pub open spec fn is_canonical(self) -> bool {
        rising(self.definitions)
    }
}

/// Puts `definition` under `key` into `definitions`, at the place that the
/// order of names gives it; a definition that stood under `key` gives way.
pub fn place(definitions: &mut Vec<(String, Definition)>, key: String, definition: Definition)
    ensures
        definitions_view(final(definitions)@) == placed(
            definitions_view(old(definitions)@),
            key@,
            definition@,
        ),
{
    let ghost before = definitions_view(definitions@);
    let mut at: usize = 0;
    while at < definitions.len() && comes_before(definitions[at].0.as_str(), key.as_str())
        invariant
            at <= definitions.len(),
            before == definitions_view(definitions@),
            forall|k: int| 0 <= k < at ==> text_before(before[k].0, key@),
        decreases definitions.len() - at,
    {
        at += 1;
    }
    proof {
        lemma_slot_is_first(before, key@, at as int);
    }
    if at < definitions.len() && same_text(definitions[at].0.as_str(), key.as_str()) {
        definitions.set(at, (key, definition));
        assert(definitions_view(definitions@) =~= before.update(
            at as int,
            (key@, definition@),
        ));
    } else {
        definitions.insert(at, (key, definition));
        assert(definitions_view(definitions@) =~= before.insert(
            at as int,
            (key@, definition@),
        ));
    }
}

/// Entries in rising order stay in rising order when one more is placed.
pub proof fn lemma_placed_rises<T>(entries: Seq<(Seq<char>, T)>, key: Seq<char>, value: T)
    requires
        rising(entries),
    ensures
        rising(placed(entries, key, value)),
{
    let at = slot(entries, key);
    let after = placed(entries, key, value);
    lemma_slot(entries, key);
    assert forall|i: int, j: int| 0 <= i < j < after.len() implies text_before(
        (#[trigger] after[i]).0,
        (#[trigger] after[j]).0,
    ) by {
        if at < entries.len() && entries[at].0 == key {
            assert(after[i].0 == entries[i].0);
            assert(after[j].0 == entries[j].0);
        } else {
            if at < entries.len() {
                lemma_text_order(key, entries[at].0, entries[at].0);
            }
            if j < at {
                assert(after[i] == entries[i] && after[j] == entries[j]);
            } else if j == at {
                assert(after[i] == entries[i]);
            } else if i < at {
                assert(after[i] == entries[i] && after[j] == entries[j - 1]);
                if i == j - 1 {
                } else {
                    assert(text_before(entries[i].0, entries[j - 1].0));
                }
                lemma_text_order(entries[i].0, key, entries[j - 1].0);
                if j - 1 > at {
                    lemma_text_order(key, entries[at].0, entries[j - 1].0);
                }
            } else if i == at {
                assert(after[j] == entries[j - 1]);
                if j - 1 > at {
                    lemma_text_order(key, entries[at].0, entries[j - 1].0);
                }
            } else {
                assert(after[i] == entries[i - 1] && after[j] == entries[j - 1]);
            }
        }
    }
}

/// The first `n` of `definitions`, brought into the order of their names;
/// of two under one name the later stays.
pub open spec fn arranged(definitions: Seq<(Seq<char>, DefinitionView)>, n: nat) -> Seq<
    (Seq<char>, DefinitionView),
>
    decreases n,
{
    if n == 0 || n > definitions.len() {
        Seq::empty()
    } else {
        placed(arranged(definitions, (n - 1) as nat), definitions[n - 1].0, definitions[n - 1].1)
    }
}

/// What was arranged stands in rising order.
pub proof fn lemma_arranged_rises(definitions: Seq<(Seq<char>, DefinitionView)>, n: nat)
    ensures
        rising(arranged(definitions, n)),
    decreases n,
{
    if n > 0 && n <= definitions.len() {
        lemma_arranged_rises(definitions, (n - 1) as nat);
        lemma_placed_rises(
            arranged(definitions, (n - 1) as nat),
            definitions[n - 1].0,
            definitions[n - 1].1,
        );
    }
}

impl Schema {
    /// The schema with the root `declaration` and with `definitions`,
    /// brought into the order of their names; of two under one name the
    /// later stays.
    pub fn new(declaration: String, definitions: Vec<(String, Definition)>) -> (r: Schema)
        ensures
            r@.declaration == declaration@,
            r@.definitions == arranged(definitions_view(definitions@), definitions@.len()),
            r@.is_canonical(),
    {
        let ghost given = definitions_view(definitions@);
        let mut ordered: Vec<(String, Definition)> = Vec::new();
        let mut rest = definitions;
        let mut i: usize = 0;
        let total = rest.len();
        assert(definitions_view(ordered@) =~= Seq::empty());
        assert(definitions_view(rest@) =~= given.skip(0));
        while i < total
            invariant
                i <= total,
                total == given.len(),
                definitions_view(rest@) == given.skip(i as int),
                definitions_view(ordered@) == arranged(given, i as nat),
            decreases total - i,
        {
            let ghost before = definitions_view(rest@);
            assert(before.len() == total - i);
            let first = rest.remove(0);
            assert(definitions_view(rest@) =~= given.skip(i + 1)) by {
                assert(definitions_view(rest@) =~= before.skip(1));
            }
            assert((first.0@, first.1@) == given[i as int]) by {
                assert(before[0] == given[i as int]);
            }
            place(&mut ordered, first.0, first.1);
            i += 1;
        }
        proof {
            lemma_arranged_rises(given, total as nat);
        }
        Schema { declaration, definitions: ordered }
    }
}

/// Definitions that stand in rising order stay as they are when they are
/// arranged.
pub proof fn lemma_arranged_of_rising(definitions: Seq<(Seq<char>, DefinitionView)>, n: nat)
    requires
        rising(definitions),
        n <= definitions.len(),
    ensures
        arranged(definitions, n) == definitions.take(n as int),
    decreases n,
{
    if n == 0 {
        assert(definitions.take(0) =~= Seq::empty());
    } else {
        let before = definitions.take(n - 1);
        let last = definitions[n - 1];
        lemma_arranged_of_rising(definitions, (n - 1) as nat);
        assert forall|k: int| 0 <= k < before.len() implies text_before(
            (#[trigger] before[k]).0,
            last.0,
        ) by {
            assert(before[k] == definitions[k]);
        }
        lemma_placed_last(before, last.0, last.1);
        assert(definitions.take(n as int) =~= before.push(last));
    }
}

impl SchemaView {
    /// This schema with its definitions brought into the order of their
    /// names; of two under one name the later stays.
    pub open spec fn canonical(self) -> SchemaView {
        SchemaView {
            declaration: self.declaration,
            definitions: arranged(self.definitions, self.definitions.len()),
        }
    }
}

/// A schema in the order of the names of its definitions is its own
/// canonical form, and a canonical form is in that order.
pub proof fn lemma_canonical(schema: SchemaView)
    ensures
        schema.canonical().is_canonical(),
        schema.is_canonical() ==> schema.canonical() == schema,
{
    lemma_arranged_rises(schema.definitions, schema.definitions.len());
    if schema.is_canonical() {
        lemma_arranged_of_rising(schema.definitions, schema.definitions.len());
        assert(schema.definitions.take(schema.definitions.len() as int) =~= schema.definitions);
    }
}

} // verus!
