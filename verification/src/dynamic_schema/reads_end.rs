//! A read that ends without running out of its bound ends the same within
//! any larger bound, and within the bound that a read is given.

use crate::dynamic_schema::decoding::{
    decode, decode_fuel, decode_items, decode_named, decode_positional, decode_primitive,
    decode_under, decode_value,
};
use crate::dynamic_schema::errors::DecodeErrorView;
use crate::schema::{
    lemma_position_of, position_of, primitive_of, DefinitionView, FieldsView, Primitive,
    SchemaView,
};
use crate::wire::parse_length;
use vstd::prelude::*;

verus! {

/// Whether `r` is the failure of a walk that ran out of its bound.
pub open spec fn ran_out<T>(r: Result<T, DecodeErrorView>) -> bool {
    r matches Err(DecodeErrorView::Endless(_))
}

/// Items read within a bound read the same within a larger one.
pub proof fn lemma_items_with_more(
    schema: SchemaView,
    declaration: Seq<char>,
    s: Seq<u8>,
    n: nat,
    fuel: nat,
    more: nat,
)
    requires
        fuel <= more,
        !ran_out(decode_items(schema, declaration, s, n, fuel)),
    ensures
        decode_items(schema, declaration, s, n, more) == decode_items(
            schema,
            declaration,
            s,
            n,
            fuel,
        ),
    decreases fuel, 1nat, n,
{
    if n > 0 {
        lemma_items_with_more(schema, declaration, s, (n - 1) as nat, fuel, more);
        match decode_items(schema, declaration, s, (n - 1) as nat, fuel) {
            Ok((front, used)) => {
                lemma_value_with_more(schema, declaration, s.skip(used as int), fuel, more);
            },
            Err(_) => {},
        }
    }
}

/// Values read at their places within a bound read the same within a
/// larger one.
pub proof fn lemma_positional_with_more(
    schema: SchemaView,
    declarations: Seq<Seq<char>>,
    s: Seq<u8>,
    n: nat,
    fuel: nat,
    more: nat,
)
    requires
        fuel <= more,
        !ran_out(decode_positional(schema, declarations, s, n, fuel)),
    ensures
        decode_positional(schema, declarations, s, n, more) == decode_positional(
            schema,
            declarations,
            s,
            n,
            fuel,
        ),
    decreases fuel, 1nat, n,
{
    if n > 0 && n <= declarations.len() {
        lemma_positional_with_more(schema, declarations, s, (n - 1) as nat, fuel, more);
        match decode_positional(schema, declarations, s, (n - 1) as nat, fuel) {
            Ok((front, used)) => {
                lemma_value_with_more(
                    schema,
                    declarations[n - 1],
                    s.skip(used as int),
                    fuel,
                    more,
                );
            },
            Err(_) => {},
        }
    }
}

/// Fields read within a bound read the same within a larger one.
pub proof fn lemma_named_with_more(
    schema: SchemaView,
    fields: Seq<(Seq<char>, Seq<char>)>,
    s: Seq<u8>,
    n: nat,
    fuel: nat,
    more: nat,
)
    requires
        fuel <= more,
        !ran_out(decode_named(schema, fields, s, n, fuel)),
    ensures
        decode_named(schema, fields, s, n, more) == decode_named(schema, fields, s, n, fuel),
    decreases fuel, 1nat, n,
{
    if n > 0 && n <= fields.len() {
        lemma_named_with_more(schema, fields, s, (n - 1) as nat, fuel, more);
        match decode_named(schema, fields, s, (n - 1) as nat, fuel) {
            Ok((front, used)) => {
                lemma_value_with_more(schema, fields[n - 1].1, s.skip(used as int), fuel, more);
            },
            Err(_) => {},
        }
    }
}

/// A value read under a definition within a bound reads the same within a
/// larger one.
pub proof fn lemma_under_with_more(
    schema: SchemaView,
    definition: DefinitionView,
    s: Seq<u8>,
    fuel: nat,
    more: nat,
)
    requires
        fuel <= more,
        !ran_out(decode_under(schema, definition, s, fuel)),
    ensures
        decode_under(schema, definition, s, more) == decode_under(schema, definition, s, fuel),
    decreases fuel, 2nat, 0nat,
{
    match definition {
        DefinitionView::Array { length, elements } => {
            lemma_items_with_more(schema, elements, s, length as nat, fuel, more);
        },
        DefinitionView::Sequence { elements } => {
            match parse_length(s) {
                Some((count, _)) => {
                    lemma_items_with_more(schema, elements, s.skip(4), count, fuel, more);
                },
                None => {},
            }
        },
        DefinitionView::Tuple { elements } => {
            lemma_positional_with_more(schema, elements, s, elements.len(), fuel, more);
        },
        DefinitionView::Enum { variants } => {
            if s.len() > 0 && s[0] < variants.len() {
                lemma_value_with_more(schema, variants[s[0] as int].1, s.skip(1), fuel, more);
            }
        },
        DefinitionView::Struct { fields } => match fields {
            FieldsView::NamedFields(named) => {
                lemma_named_with_more(schema, named, s, named.len(), fuel, more);
            },
            FieldsView::UnnamedFields(unnamed) => {
                lemma_positional_with_more(schema, unnamed, s, unnamed.len(), fuel, more);
            },
            FieldsView::Empty => {},
        },
    }
}

/// A read that ends within a bound, in a value or in a failure other than
/// that of running out, ends the same within any larger bound.
pub proof fn lemma_value_with_more(
    schema: SchemaView,
    declaration: Seq<char>,
    s: Seq<u8>,
    fuel: nat,
    more: nat,
)
    requires
        fuel <= more,
        !ran_out(decode_value(schema, declaration, s, fuel)),
    ensures
        decode_value(schema, declaration, s, more) == decode_value(schema, declaration, s, fuel),
    decreases fuel, 0nat, 0nat,
{
    if primitive_of(declaration) is None {
        match schema.lookup(declaration) {
            Some(definition) => {
                if fuel > 0 {
                    lemma_under_with_more(
                        schema,
                        definition,
                        s,
                        (fuel - 1) as nat,
                        (more - 1) as nat,
                    );
                }
            },
            None => {},
        }
    }
}

/// A primitive takes no more bytes than there are.
pub proof fn lemma_primitive_within(p: Primitive, s: Seq<u8>)
    requires
        decode_primitive(p, s) is Ok,
    ensures
        (decode_primitive(p, s)->Ok_0).1 <= s.len(),
{
}

/// Items take no more bytes than there are.
pub proof fn lemma_items_within(
    schema: SchemaView,
    declaration: Seq<char>,
    s: Seq<u8>,
    n: nat,
    fuel: nat,
)
    requires
        decode_items(schema, declaration, s, n, fuel) is Ok,
    ensures
        (decode_items(schema, declaration, s, n, fuel)->Ok_0).1 <= s.len(),
    decreases fuel, 1nat, n,
{
    if n > 0 {
        lemma_items_within(schema, declaration, s, (n - 1) as nat, fuel);
        let used = (decode_items(schema, declaration, s, (n - 1) as nat, fuel)->Ok_0).1;
        lemma_value_within(schema, declaration, s.skip(used as int), fuel);
    }
}

/// Values at their places take no more bytes than there are.
pub proof fn lemma_positional_within(
    schema: SchemaView,
    declarations: Seq<Seq<char>>,
    s: Seq<u8>,
    n: nat,
    fuel: nat,
)
    requires
        decode_positional(schema, declarations, s, n, fuel) is Ok,
    ensures
        (decode_positional(schema, declarations, s, n, fuel)->Ok_0).1 <= s.len(),
    decreases fuel, 1nat, n,
{
    if n > 0 && n <= declarations.len() {
        lemma_positional_within(schema, declarations, s, (n - 1) as nat, fuel);
        let used = (decode_positional(schema, declarations, s, (n - 1) as nat, fuel)->Ok_0).1;
        lemma_value_within(schema, declarations[n - 1], s.skip(used as int), fuel);
    }
}

/// Fields take no more bytes than there are.
pub proof fn lemma_named_within(
    schema: SchemaView,
    fields: Seq<(Seq<char>, Seq<char>)>,
    s: Seq<u8>,
    n: nat,
    fuel: nat,
)
    requires
        decode_named(schema, fields, s, n, fuel) is Ok,
    ensures
        (decode_named(schema, fields, s, n, fuel)->Ok_0).1 <= s.len(),
    decreases fuel, 1nat, n,
{
    if n > 0 && n <= fields.len() {
        lemma_named_within(schema, fields, s, (n - 1) as nat, fuel);
        let used = (decode_named(schema, fields, s, (n - 1) as nat, fuel)->Ok_0).1;
        lemma_value_within(schema, fields[n - 1].1, s.skip(used as int), fuel);
    }
}

/// A value under a definition takes no more bytes than there are.
pub proof fn lemma_under_within(
    schema: SchemaView,
    definition: DefinitionView,
    s: Seq<u8>,
    fuel: nat,
)
    requires
        decode_under(schema, definition, s, fuel) is Ok,
    ensures
        (decode_under(schema, definition, s, fuel)->Ok_0).1 <= s.len(),
    decreases fuel, 2nat, 0nat,
{
    match definition {
        DefinitionView::Array { length, elements } => {
            lemma_items_within(schema, elements, s, length as nat, fuel);
        },
        DefinitionView::Sequence { elements } => {
            lemma_items_within(schema, elements, s.skip(4), (parse_length(s)->0).0, fuel);
        },
        DefinitionView::Tuple { elements } => {
            lemma_positional_within(schema, elements, s, elements.len(), fuel);
        },
        DefinitionView::Enum { variants } => {
            lemma_value_within(schema, variants[s[0] as int].1, s.skip(1), fuel);
        },
        DefinitionView::Struct { fields } => match fields {
            FieldsView::NamedFields(named) => {
                lemma_named_within(schema, named, s, named.len(), fuel);
            },
            FieldsView::UnnamedFields(unnamed) => {
                lemma_positional_within(schema, unnamed, s, unnamed.len(), fuel);
            },
            FieldsView::Empty => {},
        },
    }
}

/// A value takes no more bytes than there are.
pub proof fn lemma_value_within(schema: SchemaView, declaration: Seq<char>, s: Seq<u8>, fuel: nat)
    requires
        decode_value(schema, declaration, s, fuel) is Ok,
    ensures
        (decode_value(schema, declaration, s, fuel)->Ok_0).1 <= s.len(),
    decreases fuel, 0nat, 0nat,
{
    match primitive_of(declaration) {
        Some(p) => {
            lemma_primitive_within(p, s);
        },
        None => {
            lemma_under_within(schema, schema.lookup(declaration)->0, s, (fuel - 1) as nat);
        },
    }
}

/// The least bound within which a read ends that ends within `fuel`.
pub proof fn lemma_least_fuel(
    schema: SchemaView,
    declaration: Seq<char>,
    s: Seq<u8>,
    fuel: nat,
) -> (least: nat)
    requires
        !ran_out(decode_value(schema, declaration, s, fuel)),
    ensures
        least <= fuel,
        !ran_out(decode_value(schema, declaration, s, least)),
        least == 0 || ran_out(decode_value(schema, declaration, s, (least - 1) as nat)),
    decreases fuel,
{
    if fuel == 0 || ran_out(decode_value(schema, declaration, s, (fuel - 1) as nat)) {
        fuel
    } else {
        lemma_least_fuel(schema, declaration, s, (fuel - 1) as nat)
    }
}

/// How many of the first `n` marks are not set.
pub open spec fn unset(marks: Seq<bool>, n: nat) -> nat
    decreases n,
{
    if n == 0 || n > marks.len() {
        0
    } else {
        unset(marks, (n - 1) as nat) + if marks[n - 1] {
            0nat
        } else {
            1nat
        }
    }
}

/// No more marks are unset than there are.
pub proof fn lemma_unset_bound(marks: Seq<bool>, n: nat)
    ensures
        unset(marks, n) <= n,
    decreases n,
{
    if n > 0 && n <= marks.len() {
        lemma_unset_bound(marks, (n - 1) as nat);
    }
}

/// Setting a mark that was not set leaves one fewer unset.
pub proof fn lemma_unset_marked(marks: Seq<bool>, at: int, n: nat)
    requires
        0 <= at < marks.len(),
        !marks[at],
        n <= marks.len(),
    ensures
        unset(marks.update(at, true), n) + (if at < n {
            1nat
        } else {
            0nat
        }) == unset(marks, n),
    decreases n,
{
    if n > 0 {
        lemma_unset_marked(marks, at, (n - 1) as nat);
    }
}

/// Whether the definitions that are marked all run out of the bound `fuel`
/// when they are read at the head of `s`.
pub open spec fn waiting(schema: SchemaView, marks: Seq<bool>, s: Seq<u8>, fuel: nat) -> bool {
    &&& marks.len() == schema.definitions.len()
    &&& forall|i: int|
        0 <= i < marks.len() && #[trigger] marks[i] ==> ran_out(
            decode_value(schema, schema.definitions[i].0, s, fuel),
        )
}

/// A bound that is enough for a read of `len` bytes that ends, while the
/// marked definitions wait for it.
pub open spec fn enough(schema: SchemaView, len: nat, marks: Seq<bool>) -> nat {
    len * (schema.definitions.len() + 1) + unset(marks, marks.len()) + 1
}

/// No marks set, one for each definition.
pub open spec fn no_marks(schema: SchemaView) -> Seq<bool> {
    Seq::new(schema.definitions.len(), |i: int| false)
}

/// What is enough for fewer bytes with no marks set is enough for more
/// bytes with any marks.
pub proof fn lemma_enough_for_less(schema: SchemaView, less: nat, len: nat, marks: Seq<bool>)
    requires
        less < len,
    ensures
        enough(schema, less, no_marks(schema)) <= enough(schema, len, marks),
{
    let count = schema.definitions.len();
    lemma_unset_bound(no_marks(schema), count);
    assert(less * (count + 1) + (count + 1) <= len * (count + 1)) by (nonlinear_arith)
        requires
            less + 1 <= len,
    ;
}

/// Items whose read ends end the same within a bound that is enough.
pub proof fn lemma_items_end(
    schema: SchemaView,
    declaration: Seq<char>,
    s: Seq<u8>,
    n: nat,
    fuel: nat,
    marks: Seq<bool>,
    bound: nat,
)
    requires
        !ran_out(decode_items(schema, declaration, s, n, fuel)),
        waiting(schema, marks, s, fuel),
        bound >= enough(schema, s.len(), marks),
    ensures
        decode_items(schema, declaration, s, n, bound) == decode_items(
            schema,
            declaration,
            s,
            n,
            fuel,
        ),
    decreases s.len(), unset(marks, marks.len()), 1nat, n,
{
    if n > 0 {
        lemma_items_end(schema, declaration, s, (n - 1) as nat, fuel, marks, bound);
        match decode_items(schema, declaration, s, (n - 1) as nat, fuel) {
            Ok((front, used)) => {
                lemma_items_within(schema, declaration, s, (n - 1) as nat, fuel);
                lemma_next_ends(schema, declaration, s, used, fuel, marks, bound);
            },
            Err(_) => {},
        }
    }
}

/// Values at their places whose read ends end the same within a bound that
/// is enough.
pub proof fn lemma_positional_end(
    schema: SchemaView,
    declarations: Seq<Seq<char>>,
    s: Seq<u8>,
    n: nat,
    fuel: nat,
    marks: Seq<bool>,
    bound: nat,
)
    requires
        !ran_out(decode_positional(schema, declarations, s, n, fuel)),
        waiting(schema, marks, s, fuel),
        bound >= enough(schema, s.len(), marks),
    ensures
        decode_positional(schema, declarations, s, n, bound) == decode_positional(
            schema,
            declarations,
            s,
            n,
            fuel,
        ),
    decreases s.len(), unset(marks, marks.len()), 1nat, n,
{
    if n > 0 && n <= declarations.len() {
        lemma_positional_end(schema, declarations, s, (n - 1) as nat, fuel, marks, bound);
        match decode_positional(schema, declarations, s, (n - 1) as nat, fuel) {
            Ok((front, used)) => {
                lemma_positional_within(schema, declarations, s, (n - 1) as nat, fuel);
                lemma_next_ends(schema, declarations[n - 1], s, used, fuel, marks, bound);
            },
            Err(_) => {},
        }
    }
}

/// Fields whose read ends end the same within a bound that is enough.
pub proof fn lemma_named_end(
    schema: SchemaView,
    fields: Seq<(Seq<char>, Seq<char>)>,
    s: Seq<u8>,
    n: nat,
    fuel: nat,
    marks: Seq<bool>,
    bound: nat,
)
    requires
        !ran_out(decode_named(schema, fields, s, n, fuel)),
        waiting(schema, marks, s, fuel),
        bound >= enough(schema, s.len(), marks),
    ensures
        decode_named(schema, fields, s, n, bound) == decode_named(schema, fields, s, n, fuel),
    decreases s.len(), unset(marks, marks.len()), 1nat, n,
{
    if n > 0 && n <= fields.len() {
        lemma_named_end(schema, fields, s, (n - 1) as nat, fuel, marks, bound);
        match decode_named(schema, fields, s, (n - 1) as nat, fuel) {
            Ok((front, used)) => {
                lemma_named_within(schema, fields, s, (n - 1) as nat, fuel);
                lemma_next_ends(schema, fields[n - 1].1, s, used, fuel, marks, bound);
            },
            Err(_) => {},
        }
    }
}

/// The value that is read behind `used` bytes of `s`, where its read ends,
/// ends the same within a bound that is enough for `s`.
pub proof fn lemma_next_ends(
    schema: SchemaView,
    declaration: Seq<char>,
    s: Seq<u8>,
    used: nat,
    fuel: nat,
    marks: Seq<bool>,
    bound: nat,
)
    requires
        used <= s.len(),
        !ran_out(decode_value(schema, declaration, s.skip(used as int), fuel)),
        waiting(schema, marks, s, fuel),
        bound >= enough(schema, s.len(), marks),
    ensures
        decode_value(schema, declaration, s.skip(used as int), bound) == decode_value(
            schema,
            declaration,
            s.skip(used as int),
            fuel,
        ),
    decreases s.len(), unset(marks, marks.len()), 0nat, 1nat,
{
    if used == 0 {
        assert(s.skip(0) =~= s);
        lemma_value_ends(schema, declaration, s, fuel, marks, bound);
    } else {
        let rest = s.skip(used as int);
        lemma_enough_for_less(schema, rest.len(), s.len(), marks);
        lemma_value_ends(schema, declaration, rest, fuel, no_marks(schema), bound);
    }
}

/// A value under a definition whose read ends ends the same within a bound
/// that is enough.
pub proof fn lemma_under_ends(
    schema: SchemaView,
    definition: DefinitionView,
    s: Seq<u8>,
    fuel: nat,
    marks: Seq<bool>,
    bound: nat,
)
    requires
        !ran_out(decode_under(schema, definition, s, fuel)),
        waiting(schema, marks, s, fuel),
        bound >= enough(schema, s.len(), marks),
    ensures
        decode_under(schema, definition, s, bound) == decode_under(schema, definition, s, fuel),
    decreases s.len(), unset(marks, marks.len()), 2nat, 0nat,
{
    match definition {
        DefinitionView::Array { length, elements } => {
            lemma_items_end(schema, elements, s, length as nat, fuel, marks, bound);
        },
        DefinitionView::Sequence { elements } => {
            match parse_length(s) {
                Some((count, _)) => {
                    let rest = s.skip(4);
                    lemma_enough_for_less(schema, rest.len(), s.len(), marks);
                    lemma_items_end(schema, elements, rest, count, fuel, no_marks(schema), bound);
                },
                None => {},
            }
        },
        DefinitionView::Tuple { elements } => {
            lemma_positional_end(schema, elements, s, elements.len(), fuel, marks, bound);
        },
        DefinitionView::Enum { variants } => {
            if s.len() > 0 && s[0] < variants.len() {
                lemma_next_ends(schema, variants[s[0] as int].1, s, 1, fuel, marks, bound);
            }
        },
        DefinitionView::Struct { fields } => match fields {
            FieldsView::NamedFields(named) => {
                lemma_named_end(schema, named, s, named.len(), fuel, marks, bound);
            },
            FieldsView::UnnamedFields(unnamed) => {
                lemma_positional_end(schema, unnamed, s, unnamed.len(), fuel, marks, bound);
            },
            FieldsView::Empty => {},
        },
    }
}

/// A value whose read ends ends the same within a bound that is enough:
/// one for each byte and each definition. A read that needed more would
/// have come back, without taking a byte, to a definition that it was in,
/// and so would not end.
pub proof fn lemma_value_ends(
    schema: SchemaView,
    declaration: Seq<char>,
    s: Seq<u8>,
    fuel: nat,
    marks: Seq<bool>,
    bound: nat,
)
    requires
        !ran_out(decode_value(schema, declaration, s, fuel)),
        waiting(schema, marks, s, fuel),
        bound >= enough(schema, s.len(), marks),
    ensures
        decode_value(schema, declaration, s, bound) == decode_value(schema, declaration, s, fuel),
    decreases s.len(), unset(marks, marks.len()), 0nat, 0nat,
{
    if primitive_of(declaration) is None && schema.lookup(declaration) is Some {
        let least = lemma_least_fuel(schema, declaration, s, fuel);
        lemma_position_of(schema.definitions, declaration);
        let at = position_of(schema.definitions, declaration)->0;
        let definition = schema.definitions[at].1;
        assert(!marks[at]);
        let more = marks.update(at, true);
        lemma_unset_marked(marks, at, marks.len());
        assert forall|i: int| 0 <= i < more.len() && #[trigger] more[i] implies ran_out(
            decode_value(schema, schema.definitions[i].0, s, (least - 1) as nat),
        ) by {
            if i != at {
                assert(marks[i]);
                if !ran_out(
                    decode_value(schema, schema.definitions[i].0, s, (least - 1) as nat),
                ) {
                    lemma_value_with_more(
                        schema,
                        schema.definitions[i].0,
                        s,
                        (least - 1) as nat,
                        fuel,
                    );
                }
            }
        }
        lemma_under_ends(
            schema,
            definition,
            s,
            (least - 1) as nat,
            more,
            (bound - 1) as nat,
        );
        lemma_value_with_more(schema, declaration, s, least, fuel);
    }
}

/// A read that ends within any bound ends the same within the bound that
/// `deserialize_from_schema` gives it, where that bound can be counted.
pub proof fn lemma_decode_ends(schema: SchemaView, s: Seq<u8>, fuel: nat)
    requires
        !ran_out(decode_value(schema, schema.declaration, s, fuel)),
        (s.len() + 1) * (schema.definitions.len() + 1) <= usize::MAX,
    ensures
        decode(schema, s) == decode_value(schema, schema.declaration, s, fuel),
{
    let marks = no_marks(schema);
    let count = schema.definitions.len();
    lemma_unset_bound(marks, count);
    assert((s.len() + 1) * (count + 1) == s.len() * (count + 1) + (count + 1))
        by (nonlinear_arith);
    lemma_value_ends(schema, schema.declaration, s, fuel, marks, decode_fuel(schema, s.len()));
}

} // verus!
