//! A write that ends without running out of its bound ends the same within
//! any larger bound, and within the bound that a write is given.

use crate::dynamic_schema::encoding::{
    encode, encode_fuel, encode_items, encode_named, encode_positional, encode_under,
    encode_value, variant_input,
};
use crate::dynamic_schema::errors::EncodeErrorView;
use crate::dynamic_schema::reads_end::{
    lemma_unset_bound, lemma_unset_marked, no_marks, unset,
};
use crate::json::{deepest_entry, deepest_item, JsonView};
use crate::schema::{
    lemma_position_of, position_of, primitive_of, DefinitionView, FieldsView, SchemaView,
};
use vstd::prelude::*;

verus! {

/// Whether `r` is the failure of a walk that ran out of its bound.
pub open spec fn gave_up<T>(r: Result<T, EncodeErrorView>) -> bool {
    r matches Err(EncodeErrorView::Endless(_))
}

/// Items written within a bound are written the same within a larger one.
pub proof fn lemma_items_with_more(
    schema: SchemaView,
    declaration: Seq<char>,
    items: Seq<JsonView>,
    n: nat,
    fuel: nat,
    more: nat,
)
    requires
        fuel <= more,
        !gave_up(encode_items(schema, declaration, items, n, fuel)),
    ensures
        encode_items(schema, declaration, items, n, more) == encode_items(
            schema,
            declaration,
            items,
            n,
            fuel,
        ),
    decreases fuel, 1nat, n,
{
    if n > 0 && n <= items.len() {
        lemma_items_with_more(schema, declaration, items, (n - 1) as nat, fuel, more);
        if encode_items(schema, declaration, items, (n - 1) as nat, fuel) is Ok {
            lemma_value_with_more(schema, declaration, items[n - 1], fuel, more);
        }
    }
}

/// Values written at their places within a bound are written the same
/// within a larger one.
pub proof fn lemma_positional_with_more(
    schema: SchemaView,
    declarations: Seq<Seq<char>>,
    items: Seq<JsonView>,
    n: nat,
    fuel: nat,
    more: nat,
)
    requires
        fuel <= more,
        !gave_up(encode_positional(schema, declarations, items, n, fuel)),
    ensures
        encode_positional(schema, declarations, items, n, more) == encode_positional(
            schema,
            declarations,
            items,
            n,
            fuel,
        ),
    decreases fuel, 1nat, n,
{
    if n > 0 && n <= items.len() && n <= declarations.len() {
        lemma_positional_with_more(schema, declarations, items, (n - 1) as nat, fuel, more);
        if encode_positional(schema, declarations, items, (n - 1) as nat, fuel) is Ok {
            lemma_value_with_more(schema, declarations[n - 1], items[n - 1], fuel, more);
        }
    }
}

/// Fields written within a bound are written the same within a larger one.
pub proof fn lemma_named_with_more(
    schema: SchemaView,
    fields: Seq<(Seq<char>, Seq<char>)>,
    entries: Seq<(Seq<char>, JsonView)>,
    n: nat,
    fuel: nat,
    more: nat,
)
    requires
        fuel <= more,
        !gave_up(encode_named(schema, fields, entries, n, fuel)),
    ensures
        encode_named(schema, fields, entries, n, more) == encode_named(
            schema,
            fields,
            entries,
            n,
            fuel,
        ),
    decreases fuel, 1nat, n,
{
    if n > 0 && n <= fields.len() {
        lemma_named_with_more(schema, fields, entries, (n - 1) as nat, fuel, more);
        if encode_named(schema, fields, entries, (n - 1) as nat, fuel) is Ok {
            match position_of(entries, fields[n - 1].0) {
                Some(at) => {
                    lemma_value_with_more(schema, fields[n - 1].1, entries[at].1, fuel, more);
                },
                None => {},
            }
        }
    }
}

/// A value written under a definition within a bound is written the same
/// within a larger one.
pub proof fn lemma_under_with_more(
    schema: SchemaView,
    definition: DefinitionView,
    value: JsonView,
    fuel: nat,
    more: nat,
)
    requires
        fuel <= more,
        !gave_up(encode_under(schema, definition, value, fuel)),
    ensures
        encode_under(schema, definition, value, more) == encode_under(
            schema,
            definition,
            value,
            fuel,
        ),
    decreases fuel, 2nat, 0nat,
{
    match definition {
        DefinitionView::Array { length, elements } => match value {
            JsonView::Array(items) => {
                if items.len() == length {
                    lemma_items_with_more(schema, elements, items, items.len(), fuel, more);
                }
            },
            _ => {},
        },
        DefinitionView::Sequence { elements } => match value {
            JsonView::Array(items) => {
                if items.len() <= u32::MAX {
                    lemma_items_with_more(schema, elements, items, items.len(), fuel, more);
                }
            },
            _ => {},
        },
        DefinitionView::Tuple { elements } => match value {
            JsonView::Array(items) => {
                if items.len() == elements.len() {
                    lemma_positional_with_more(schema, elements, items, items.len(), fuel, more);
                }
            },
            _ => {},
        },
        DefinitionView::Enum { variants } => match variant_input(value) {
            Some((name, payload)) => match position_of(variants, name) {
                Some(at) => {
                    if at <= 255 {
                        lemma_position_of(variants, name);
                        lemma_value_with_more(schema, variants[at].1, payload, fuel, more);
                    }
                },
                None => {},
            },
            None => {},
        },
        DefinitionView::Struct { fields } => match fields {
            FieldsView::NamedFields(named) => match value {
                JsonView::Object(entries) => {
                    lemma_named_with_more(schema, named, entries, named.len(), fuel, more);
                },
                _ => {},
            },
            FieldsView::UnnamedFields(unnamed) => {
                if unnamed.len() == 1 {
                    lemma_value_with_more(schema, unnamed[0], value, fuel, more);
                } else {
                    match value {
                        JsonView::Array(items) => {
                            if items.len() == unnamed.len() {
                                lemma_positional_with_more(
                                    schema,
                                    unnamed,
                                    items,
                                    items.len(),
                                    fuel,
                                    more,
                                );
                            }
                        },
                        _ => {},
                    }
                }
            },
            FieldsView::Empty => {},
        },
    }
}

/// A write that ends within a bound, in bytes or in a failure other than
/// that of running out, ends the same within any larger bound.
pub proof fn lemma_value_with_more(
    schema: SchemaView,
    declaration: Seq<char>,
    value: JsonView,
    fuel: nat,
    more: nat,
)
    requires
        fuel <= more,
        !gave_up(encode_value(schema, declaration, value, fuel)),
    ensures
        encode_value(schema, declaration, value, more) == encode_value(
            schema,
            declaration,
            value,
            fuel,
        ),
    decreases fuel, 0nat, 0nat,
{
    if primitive_of(declaration) is None {
        match schema.lookup(declaration) {
            Some(definition) => {
                if fuel > 0 {
                    lemma_under_with_more(
                        schema,
                        definition,
                        value,
                        (fuel - 1) as nat,
                        (more - 1) as nat,
                    );
                }
            },
            None => {},
        }
    }
}

/// The least bound within which a write ends that ends within `fuel`.
pub proof fn lemma_least_fuel(
    schema: SchemaView,
    declaration: Seq<char>,
    value: JsonView,
    fuel: nat,
) -> (least: nat)
    requires
        !gave_up(encode_value(schema, declaration, value, fuel)),
    ensures
        least <= fuel,
        !gave_up(encode_value(schema, declaration, value, least)),
        least == 0 || gave_up(encode_value(schema, declaration, value, (least - 1) as nat)),
    decreases fuel,
{
    if fuel == 0 || gave_up(encode_value(schema, declaration, value, (fuel - 1) as nat)) {
        fuel
    } else {
        lemma_least_fuel(schema, declaration, value, (fuel - 1) as nat)
    }
}

/// How far a value stands above the values that can be reached from it:
/// one more than its depth; nothing for the empty object that stands for
/// the payload of a variant given as a bare string.
pub open spec fn level(value: JsonView, bare: bool) -> nat {
    if bare {
        0
    } else {
        value.depth() + 1
    }
}

/// Whether the definitions that are marked all run out of the bound `fuel`
/// when `value` is written under them.
pub open spec fn held(schema: SchemaView, marks: Seq<bool>, value: JsonView, fuel: nat) -> bool {
    &&& marks.len() == schema.definitions.len()
    &&& forall|i: int|
        0 <= i < marks.len() && #[trigger] marks[i] ==> gave_up(
            encode_value(schema, schema.definitions[i].0, value, fuel),
        )
}

/// A bound that is enough for a write of a value at `level` that ends,
/// while the marked definitions wait for it.
pub open spec fn enough(schema: SchemaView, level: nat, marks: Seq<bool>) -> nat {
    level * (schema.definitions.len() + 1) + unset(marks, marks.len()) + 1
}

/// What is enough below a level with no marks set is enough at the level
/// with any marks, less one.
pub proof fn lemma_enough_below(schema: SchemaView, below: nat, level: nat)
    requires
        below < level,
    ensures
        enough(schema, below, no_marks(schema)) <= level * (schema.definitions.len() + 1),
{
    let count = schema.definitions.len();
    lemma_unset_bound(no_marks(schema), count);
    assert(below * (count + 1) + (count + 1) <= level * (count + 1)) by (nonlinear_arith)
        requires
            below + 1 <= level,
    ;
}

/// An item is no deeper than the deepest.
pub proof fn lemma_depth_of_item(items: Seq<JsonView>, n: nat, k: int)
    requires
        0 <= k < n <= items.len(),
    ensures
        items[k].depth() <= deepest_item(items, n),
    decreases n,
{
    if k < n - 1 {
        lemma_depth_of_item(items, (n - 1) as nat, k);
    }
}

/// The value of an entry is no deeper than the deepest.
pub proof fn lemma_depth_of_entry(entries: Seq<(Seq<char>, JsonView)>, n: nat, k: int)
    requires
        0 <= k < n <= entries.len(),
    ensures
        entries[k].1.depth() <= deepest_entry(entries, n),
    decreases n,
{
    if k < n - 1 {
        lemma_depth_of_entry(entries, (n - 1) as nat, k);
    }
}

/// Whether each of `items` stands below `top`.
pub open spec fn items_below(items: Seq<JsonView>, top: nat) -> bool {
    forall|k: int| 0 <= k < items.len() ==> level(#[trigger] items[k], false) < top
}

/// Whether the value of each of `entries` stands below `top`.
pub open spec fn entries_below(entries: Seq<(Seq<char>, JsonView)>, top: nat) -> bool {
    forall|k: int| 0 <= k < entries.len() ==> level((#[trigger] entries[k]).1, false) < top
}

/// Items whose write ends end the same within a bound that is enough.
pub proof fn lemma_items_end(
    schema: SchemaView,
    declaration: Seq<char>,
    items: Seq<JsonView>,
    n: nat,
    fuel: nat,
    top: nat,
    bound: nat,
)
    requires
        !gave_up(encode_items(schema, declaration, items, n, fuel)),
        items_below(items, top),
        bound >= top * (schema.definitions.len() + 1),
    ensures
        encode_items(schema, declaration, items, n, bound) == encode_items(
            schema,
            declaration,
            items,
            n,
            fuel,
        ),
    decreases top, 0nat, 1nat, n,
{
    if n > 0 && n <= items.len() {
        lemma_items_end(schema, declaration, items, (n - 1) as nat, fuel, top, bound);
        if encode_items(schema, declaration, items, (n - 1) as nat, fuel) is Ok {
            lemma_enough_below(schema, level(items[n - 1], false), top);
            lemma_value_ends(
                schema,
                declaration,
                items[n - 1],
                fuel,
                no_marks(schema),
                bound,
                false,
            );
        }
    }
}

/// Values at their places whose write ends end the same within a bound that
/// is enough.
pub proof fn lemma_positional_end(
    schema: SchemaView,
    declarations: Seq<Seq<char>>,
    items: Seq<JsonView>,
    n: nat,
    fuel: nat,
    top: nat,
    bound: nat,
)
    requires
        !gave_up(encode_positional(schema, declarations, items, n, fuel)),
        items_below(items, top),
        bound >= top * (schema.definitions.len() + 1),
    ensures
        encode_positional(schema, declarations, items, n, bound) == encode_positional(
            schema,
            declarations,
            items,
            n,
            fuel,
        ),
    decreases top, 0nat, 1nat, n,
{
    if n > 0 && n <= items.len() && n <= declarations.len() {
        lemma_positional_end(schema, declarations, items, (n - 1) as nat, fuel, top, bound);
        if encode_positional(schema, declarations, items, (n - 1) as nat, fuel) is Ok {
            lemma_enough_below(schema, level(items[n - 1], false), top);
            lemma_value_ends(
                schema,
                declarations[n - 1],
                items[n - 1],
                fuel,
                no_marks(schema),
                bound,
                false,
            );
        }
    }
}

/// Fields whose write ends end the same within a bound that is enough.
pub proof fn lemma_named_end(
    schema: SchemaView,
    fields: Seq<(Seq<char>, Seq<char>)>,
    entries: Seq<(Seq<char>, JsonView)>,
    n: nat,
    fuel: nat,
    top: nat,
    bound: nat,
)
    requires
        !gave_up(encode_named(schema, fields, entries, n, fuel)),
        entries_below(entries, top),
        bound >= top * (schema.definitions.len() + 1),
    ensures
        encode_named(schema, fields, entries, n, bound) == encode_named(
            schema,
            fields,
            entries,
            n,
            fuel,
        ),
    decreases top, 0nat, 1nat, n,
{
    if n > 0 && n <= fields.len() {
        lemma_named_end(schema, fields, entries, (n - 1) as nat, fuel, top, bound);
        if encode_named(schema, fields, entries, (n - 1) as nat, fuel) is Ok {
            match position_of(entries, fields[n - 1].0) {
                Some(at) => {
                    lemma_position_of(entries, fields[n - 1].0);
                    lemma_enough_below(schema, level(entries[at].1, false), top);
                    lemma_value_ends(
                        schema,
                        fields[n - 1].1,
                        entries[at].1,
                        fuel,
                        no_marks(schema),
                        bound,
                        false,
                    );
                },
                None => {},
            }
        }
    }
}

/// The items of an array stand below it.
pub proof fn lemma_items_stand_below(items: Seq<JsonView>)
    ensures
        items_below(items, level(JsonView::Array(items), false)),
{
    assert forall|k: int| 0 <= k < items.len() implies level(#[trigger] items[k], false) < level(
        JsonView::Array(items),
        false,
    ) by {
        lemma_depth_of_item(items, items.len(), k);
    }
}

/// The values of an object stand below it.
pub proof fn lemma_entries_stand_below(entries: Seq<(Seq<char>, JsonView)>)
    ensures
        entries_below(entries, level(JsonView::Object(entries), false)),
{
    assert forall|k: int| 0 <= k < entries.len() implies level(
        (#[trigger] entries[k]).1,
        false,
    ) < level(JsonView::Object(entries), false) by {
        lemma_depth_of_entry(entries, entries.len(), k);
    }
}

/// A value under a definition whose write ends ends the same within a
/// bound that is enough.
pub proof fn lemma_under_ends(
    schema: SchemaView,
    definition: DefinitionView,
    value: JsonView,
    fuel: nat,
    marks: Seq<bool>,
    bound: nat,
    bare: bool,
)
    requires
        !gave_up(encode_under(schema, definition, value, fuel)),
        held(schema, marks, value, fuel),
        bound >= enough(schema, level(value, bare), marks),
        bare ==> value == JsonView::Object(Seq::empty()),
    ensures
        encode_under(schema, definition, value, bound) == encode_under(
            schema,
            definition,
            value,
            fuel,
        ),
    decreases level(value, bare), unset(marks, marks.len()), 2nat, 0nat,
{
    let top = level(value, bare);
    match definition {
        DefinitionView::Array { length, elements } => match value {
            JsonView::Array(items) => {
                if items.len() == length {
                    lemma_items_stand_below(items);
                    lemma_items_end(schema, elements, items, items.len(), fuel, top, bound);
                }
            },
            _ => {},
        },
        DefinitionView::Sequence { elements } => match value {
            JsonView::Array(items) => {
                if items.len() <= u32::MAX {
                    lemma_items_stand_below(items);
                    lemma_items_end(schema, elements, items, items.len(), fuel, top, bound);
                }
            },
            _ => {},
        },
        DefinitionView::Tuple { elements } => match value {
            JsonView::Array(items) => {
                if items.len() == elements.len() {
                    lemma_items_stand_below(items);
                    lemma_positional_end(schema, elements, items, items.len(), fuel, top, bound);
                }
            },
            _ => {},
        },
        DefinitionView::Enum { variants } => match variant_input(value) {
            Some((name, payload)) => match position_of(variants, name) {
                Some(at) => {
                    if at <= 255 {
                        lemma_position_of(variants, name);
                        match value {
                            JsonView::Object(entries) => {
                                lemma_entries_stand_below(entries);
                                lemma_enough_below(schema, level(payload, false), top);
                                lemma_value_ends(
                                    schema,
                                    variants[at].1,
                                    payload,
                                    fuel,
                                    no_marks(schema),
                                    bound,
                                    false,
                                );
                            },
                            _ => {
                                lemma_enough_below(schema, 0, top);
                                lemma_value_ends(
                                    schema,
                                    variants[at].1,
                                    payload,
                                    fuel,
                                    no_marks(schema),
                                    bound,
                                    true,
                                );
                            },
                        }
                    }
                },
                None => {},
            },
            None => {},
        },
        DefinitionView::Struct { fields } => match fields {
            FieldsView::NamedFields(named) => match value {
                JsonView::Object(entries) => {
                    if bare {
                        assert(entries_below(entries, top));
                    } else {
                        lemma_entries_stand_below(entries);
                    }
                    lemma_named_end(schema, named, entries, named.len(), fuel, top, bound);
                },
                _ => {},
            },
            FieldsView::UnnamedFields(unnamed) => {
                if unnamed.len() == 1 {
                    lemma_value_ends(schema, unnamed[0], value, fuel, marks, bound, bare);
                } else {
                    match value {
                        JsonView::Array(items) => {
                            if items.len() == unnamed.len() {
                                lemma_items_stand_below(items);
                                lemma_positional_end(
                                    schema,
                                    unnamed,
                                    items,
                                    items.len(),
                                    fuel,
                                    top,
                                    bound,
                                );
                            }
                        },
                        _ => {},
                    }
                }
            },
            FieldsView::Empty => {},
        },
    }
}

/// A value whose write ends ends the same within a bound that is enough:
/// one for each level of the value and each definition. A write that needed
/// more would have come back, with the same value, to a definition that it
/// was in, and so would not end.
pub proof fn lemma_value_ends(
    schema: SchemaView,
    declaration: Seq<char>,
    value: JsonView,
    fuel: nat,
    marks: Seq<bool>,
    bound: nat,
    bare: bool,
)
    requires
        !gave_up(encode_value(schema, declaration, value, fuel)),
        held(schema, marks, value, fuel),
        bound >= enough(schema, level(value, bare), marks),
        bare ==> value == JsonView::Object(Seq::empty()),
    ensures
        encode_value(schema, declaration, value, bound) == encode_value(
            schema,
            declaration,
            value,
            fuel,
        ),
    decreases level(value, bare), unset(marks, marks.len()), 0nat, 0nat,
{
    if primitive_of(declaration) is None && schema.lookup(declaration) is Some {
        let least = lemma_least_fuel(schema, declaration, value, fuel);
        lemma_position_of(schema.definitions, declaration);
        let at = position_of(schema.definitions, declaration)->0;
        let definition = schema.definitions[at].1;
        assert(!marks[at]);
        let more = marks.update(at, true);
        lemma_unset_marked(marks, at, marks.len());
        assert forall|i: int| 0 <= i < more.len() && #[trigger] more[i] implies gave_up(
            encode_value(schema, schema.definitions[i].0, value, (least - 1) as nat),
        ) by {
            if i != at {
                assert(marks[i]);
                if !gave_up(
                    encode_value(schema, schema.definitions[i].0, value, (least - 1) as nat),
                ) {
                    lemma_value_with_more(
                        schema,
                        schema.definitions[i].0,
                        value,
                        (least - 1) as nat,
                        fuel,
                    );
                }
            }
        }
        lemma_under_ends(
            schema,
            definition,
            value,
            (least - 1) as nat,
            more,
            (bound - 1) as nat,
            bare,
        );
        lemma_value_with_more(schema, declaration, value, least, fuel);
    }
}

/// A write that ends within any bound ends the same within the bound that
/// `serialize_with_schema` gives it, where that bound can be counted.
pub proof fn lemma_encode_ends(schema: SchemaView, value: JsonView, fuel: nat)
    requires
        !gave_up(encode_value(schema, schema.declaration, value, fuel)),
        (value.depth() + 2) * (schema.definitions.len() + 1) <= usize::MAX,
    ensures
        encode(schema, value) == encode_value(schema, schema.declaration, value, fuel),
{
    let marks = no_marks(schema);
    let count = schema.definitions.len();
    let depth = value.depth();
    lemma_unset_bound(marks, count);
    assert((depth + 2) * (count + 1) == (depth + 1) * (count + 1) + (count + 1) && (depth + 2) * (
        count + 1) >= depth + 2) by (nonlinear_arith);
    lemma_value_ends(
        schema,
        schema.declaration,
        value,
        fuel,
        marks,
        encode_fuel(schema, value),
        false,
    );
}

} // verus!
