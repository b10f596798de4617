use vstd::prelude::*;
use vstd::std_specs::vec::axiom_vec_index_decreases;

verus! {

/// A JSON number: a non-negative integer, a negative integer, or a binary64
/// value held by its bits.
#[derive(Clone, Copy, Debug, PartialEq, Eq, Structural)]
pub enum Number {
    PosInt(u64),
    NegInt(i64),
    Float(u64),
}

/// A JSON document as a tree.
#[derive(Debug, PartialEq, Eq)]
pub enum Json {
    Null,
    Bool(bool),
    Number(Number),
    String(String),
    Array(Vec<Json>),
    Object(Vec<(String, Json)>),
}

/// The mathematical value of a [`Json`].
pub ghost enum JsonView {
    Null,
    Bool(bool),
    Number(Number),
    String(Seq<char>),
    Array(Seq<JsonView>),
    Object(Seq<(Seq<char>, JsonView)>),
}

/// The mathematical value of `j`.
pub open spec fn value_of(j: Json) -> JsonView
    decreases j,
{
    match j {
        Json::Null => JsonView::Null,
        Json::Bool(b) => JsonView::Bool(b),
        Json::Number(n) => JsonView::Number(n),
        Json::String(s) => JsonView::String(s@),
        Json::Array(items) => JsonView::Array(
            Seq::new(
                items@.len(),
                |i: int|
                    if 0 <= i < items@.len() {
                        value_of(items@[i])
                    } else {
                        JsonView::Null
                    },
            ),
        ),
        Json::Object(entries) => JsonView::Object(
            Seq::new(
                entries@.len(),
                |i: int|
                    if 0 <= i < entries@.len() {
                        (entries@[i].0@, value_of(entries@[i].1))
                    } else {
                        (Seq::empty(), JsonView::Null)
                    },
            ),
        ),
    }
}

impl View for Json {
    type V = JsonView;

    open spec fn view(&self) -> JsonView {
        value_of(*self)
    }
}

impl JsonView {
    /// How deep arrays and objects are nested in this value.
    pub open spec fn depth(self) -> nat
        decreases self, 0nat,
    {
        match self {
            JsonView::Array(items) => 1 + deepest_item(items, items.len()),
            JsonView::Object(entries) => 1 + deepest_entry(entries, entries.len()),
            _ => 0,
        }
    }

    /// The value as a non-negative integer, where it is one.
    pub open spec fn as_unsigned(self) -> Option<nat> {
        match self {
            JsonView::Number(Number::PosInt(n)) => Some(n as nat),
            _ => None,
        }
    }

    /// The value as an integer of 64 bits with sign, where it is one.
    pub open spec fn as_signed(self) -> Option<int> {
        match self {
            JsonView::Number(Number::PosInt(n)) => if n <= i64::MAX {
                Some(n as int)
            } else {
                None
            },
            JsonView::Number(Number::NegInt(n)) => Some(n as int),
            _ => None,
        }
    }
}

/// The depth of the deepest of the first `n` of `items`.
pub open spec fn deepest_item(items: Seq<JsonView>, n: nat) -> nat
    decreases items, n,
{
    if n == 0 || n > items.len() {
        0
    } else if deepest_item(items, (n - 1) as nat) >= items[n - 1].depth() {
        deepest_item(items, (n - 1) as nat)
    } else {
        items[n - 1].depth()
    }
}

/// The depth of the deepest value among the first `n` of `entries`.
pub open spec fn deepest_entry(entries: Seq<(Seq<char>, JsonView)>, n: nat) -> nat
    decreases entries, n,
{
    if n == 0 || n > entries.len() {
        0
    } else if deepest_entry(entries, (n - 1) as nat) >= entries[n - 1].1.depth() {
        deepest_entry(entries, (n - 1) as nat)
    } else {
        entries[n - 1].1.depth()
    }
}

/// The values of `items`.
pub open spec fn items_view(items: Seq<Json>) -> Seq<JsonView> {
    Seq::new(items.len(), |i: int| items[i]@)
}

/// The keys and values of `entries`.
pub open spec fn entries_view(entries: Seq<(String, Json)>) -> Seq<(Seq<char>, JsonView)> {
    Seq::new(entries.len(), |i: int| (entries[i].0@, entries[i].1@))
}

/// What the view of an array is.
pub proof fn lemma_array_view(items: Vec<Json>)
    ensures
        Json::Array(items)@ == JsonView::Array(items_view(items@)),
{
    let j = Json::Array(items);
    assert(j@ is Array);
    assert(j@->Array_0.len() == items@.len());
    assert forall|i: int| 0 <= i < items@.len() implies j@->Array_0[i] == items@[i]@ by {}
    assert(j@->Array_0 =~= items_view(items@));
}

/// What the view of an object is.
pub proof fn lemma_object_view(entries: Vec<(String, Json)>)
    ensures
        Json::Object(entries)@ == JsonView::Object(entries_view(entries@)),
{
    assert(Json::Object(entries)@->Object_0 =~= entries_view(entries@));
}

impl Json {
    /// How deep arrays and objects are nested in this value, as far as it
    /// can be counted.
    pub fn depth(&self) -> (d: usize)
        ensures
            d == if self@.depth() <= usize::MAX {
                self@.depth()
            } else {
                usize::MAX as nat
            },
        decreases self,
    {
        match self {
            Json::Array(items) => {
                proof {
                    lemma_array_view(*items);
                }
                let ghost views = items_view(items@);
                let mut most: usize = 0;
                let mut i: usize = 0;
                while i < items.len()
                    invariant
                        i <= items.len(),
                        decreases_to!(*self => *items),
                        views == items_view(items@),
                        most == if deepest_item(views, i as nat) <= usize::MAX {
                            deepest_item(views, i as nat)
                        } else {
                            usize::MAX as nat
                        },
                    decreases items.len() - i,
                {
                    proof {
                        axiom_vec_index_decreases(*items, i as int);
                    }
                    let d = items[i].depth();
                    if d > most {
                        most = d;
                    }
                    i += 1;
                }
                if most == usize::MAX {
                    most
                } else {
                    most + 1
                }
            },
            Json::Object(entries) => {
                proof {
                    lemma_object_view(*entries);
                }
                let ghost views = entries_view(entries@);
                let mut most: usize = 0;
                let mut i: usize = 0;
                while i < entries.len()
                    invariant
                        i <= entries.len(),
                        decreases_to!(*self => *entries),
                        views == entries_view(entries@),
                        most == if deepest_entry(views, i as nat) <= usize::MAX {
                            deepest_entry(views, i as nat)
                        } else {
                            usize::MAX as nat
                        },
                    decreases entries.len() - i,
                {
                    proof {
                        axiom_vec_index_decreases(*entries, i as int);
                    }
                    let d = entries[i].1.depth();
                    if d > most {
                        most = d;
                    }
                    i += 1;
                }
                if most == usize::MAX {
                    most
                } else {
                    most + 1
                }
            },
            _ => 0,
        }
    }
}

} // verus!
