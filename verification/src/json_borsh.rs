//! Encoding a JSON value without a schema, as far as that can be done.

use crate::dynamic_schema::errors::{EncodeError, EncodeErrorView};
use crate::json::{
    entries_view, items_view, lemma_array_view, lemma_object_view, Json, JsonView, Number,
};
use crate::primitives::{le_bytes, write_le};
use crate::wire::{
    bool_bytes, length_bytes, lemma_starts_append, lemma_starts_transitive, signed_bytes, starts,
    string_bytes, write_bool, write_length, write_signed, write_string,
};
use vstd::prelude::*;
use vstd::std_specs::vec::axiom_vec_index_decreases;
use vstd::utf8::encode_utf8;

verus! {

/// The bytes of a number: a float as its eight bytes, a non-negative
/// integer as one of 64 bits without sign, a negative one as one of 64 bits
/// with sign.
pub open spec fn plain_number(n: Number) -> Seq<u8> {
    match n {
        Number::Float(bits) => le_bytes(bits as nat, 8),
        Number::PosInt(u) => le_bytes(u as nat, 8),
        Number::NegInt(i) => signed_bytes(i as int, 8),
    }
}

/// The bytes of `value` without a schema. `null` is an absent optional, one
/// zero byte. An array is a sequence with its length before it. Of an object
/// only the values are written, in their order, without keys and without a
/// length.
pub open spec fn plain_bytes(value: JsonView) -> Result<Seq<u8>, EncodeErrorView>
    decreases value, 0nat,
{
    match value {
        JsonView::Null => Ok(seq![0u8]),
        JsonView::Bool(b) => Ok(bool_bytes(b)),
        JsonView::Number(n) => Ok(plain_number(n)),
        JsonView::String(s) => if encode_utf8(s).len() <= u32::MAX {
            Ok(string_bytes(s))
        } else {
            Err(EncodeErrorView::TooLong)
        },
        JsonView::Array(items) => if items.len() > u32::MAX {
            Err(EncodeErrorView::TooLong)
        } else {
            match plain_items(items, items.len()) {
                Ok(bytes) => Ok(length_bytes(items.len()) + bytes),
                Err(e) => Err(e),
            }
        },
        JsonView::Object(entries) => plain_entries(entries, entries.len()),
    }
}

/// The bytes of the first `n` of `items`, one after the other.
pub open spec fn plain_items(items: Seq<JsonView>, n: nat) -> Result<Seq<u8>, EncodeErrorView>
    decreases items, n,
{
    if n == 0 || n > items.len() {
        Ok(Seq::empty())
    } else {
        match plain_items(items, (n - 1) as nat) {
            Err(e) => Err(e),
            Ok(front) => match plain_bytes(items[n - 1]) {
                Ok(bytes) => Ok(front + bytes),
                Err(e) => Err(e),
            },
        }
    }
}

/// The bytes of the values of the first `n` of `entries`, one after the
/// other.
pub open spec fn plain_entries(entries: Seq<(Seq<char>, JsonView)>, n: nat) -> Result<
    Seq<u8>,
    EncodeErrorView,
>
    decreases entries, n,
{
    if n == 0 || n > entries.len() {
        Ok(Seq::empty())
    } else {
        match plain_entries(entries, (n - 1) as nat) {
            Err(e) => Err(e),
            Ok(front) => match plain_bytes(entries[n - 1].1) {
                Ok(bytes) => Ok(front + bytes),
                Err(e) => Err(e),
            },
        }
    }
}

/// A failure among the first `n` items is the failure of any longer run.
pub proof fn lemma_plain_items_failure(items: Seq<JsonView>, n: nat, m: nat)
    requires
        n <= m <= items.len(),
        plain_items(items, n) is Err,
    ensures
        plain_items(items, m) == plain_items(items, n),
    decreases m - n,
{
    if n < m {
        lemma_plain_items_failure(items, n, (m - 1) as nat);
    }
}

/// A failure among the first `n` entries is the failure of any longer run.
pub proof fn lemma_plain_entries_failure(entries: Seq<(Seq<char>, JsonView)>, n: nat, m: nat)
    requires
        n <= m <= entries.len(),
        plain_entries(entries, n) is Err,
    ensures
        plain_entries(entries, m) == plain_entries(entries, n),
    decreases m - n,
{
    if n < m {
        lemma_plain_entries_failure(entries, n, (m - 1) as nat);
    }
}

/// Whether a sink that held `before` holds `after` once a write has ended
/// in `r`, where `expected` was to be written.
pub open spec fn plainly_written(
    before: Seq<u8>,
    after: Seq<u8>,
    r: Result<(), EncodeError>,
    expected: Result<Seq<u8>, EncodeErrorView>,
) -> bool {
    match r {
        Ok(()) => match expected {
            Ok(bytes) => after == before + bytes,
            Err(_) => false,
        },
        Err(e) => expected == Err::<Seq<u8>, EncodeErrorView>(e@) && starts(after, before),
    }
}

/// A JSON value that is to be encoded without a schema.
#[derive(Debug)]
pub struct JsonSerializableAsBorsh<'a>(pub &'a Json);

/// Appends to `writer` the bytes of `value` without a schema.
fn serialize_plain(value: &Json, writer: &mut Vec<u8>) -> (r: Result<(), EncodeError>)
    ensures
        plainly_written(old(writer)@, final(writer)@, r, plain_bytes(value@)),
    decreases value,
{
    proof {
        lemma_starts_append(writer@, Seq::empty());
        assert(writer@ + Seq::<u8>::empty() =~= writer@);
    }
    match value {
        Json::Null => {
            writer.push(0u8);
            assert(writer@ =~= old(writer)@ + seq![0u8]);
            Ok(())
        },
        Json::Bool(b) => {
            write_bool(writer, *b);
            Ok(())
        },
        Json::Number(n) => {
            match n {
                Number::Float(bits) => write_le(writer, *bits as u128, 8),
                Number::PosInt(u) => write_le(writer, *u as u128, 8),
                Number::NegInt(i) => {
                    proof {
                        crate::primitives::lemma_pow256_values();
                    }
                    write_signed(writer, *i as i128, 8)
                },
            }
            Ok(())
        },
        Json::String(s) => {
            if write_string(writer, s.as_str()) {
                Ok(())
            } else {
                Err(EncodeError::TooLong)
            }
        },
        Json::Array(items) => {
            proof {
                lemma_array_view(*items);
            }
            if items.len() > u32::MAX as usize {
                return Err(EncodeError::TooLong);
            }
            write_length(writer, items.len() as u32);
            let ghost views = items_view(items@);
            let ghost head = writer@;
            let ghost mut done: Seq<u8> = Seq::empty();
            assert(writer@ + done =~= writer@);
            proof {
                lemma_starts_append(old(writer)@, length_bytes(items@.len()));
            }
            let mut i: usize = 0;
            while i < items.len()
                invariant
                    i <= items.len(),
                    decreases_to!(*value => *items),
                    views == items_view(items@),
                    value@ == JsonView::Array(views),
                    views.len() <= u32::MAX,
                    starts(head, old(writer)@),
                    plain_items(views, i as nat) == Ok::<Seq<u8>, EncodeErrorView>(done),
                    writer@ == head + done,
                decreases items.len() - i,
            {
                let ghost before = writer@;
                let ghost step = plain_bytes(views[i as int]);
                proof {
                    axiom_vec_index_decreases(*items, i as int);
                    lemma_starts_append(head, done);
                    lemma_starts_transitive(old(writer)@, head, before);
                }
                match serialize_plain(&items[i], writer) {
                    Ok(()) => {
                        proof {
                            done = done + step->Ok_0;
                            assert(writer@ =~= head + done);
                        }
                    },
                    Err(e) => {
                        proof {
                            lemma_plain_items_failure(views, (i + 1) as nat, items@.len());
                            lemma_starts_transitive(old(writer)@, before, writer@);
                        }
                        return Err(e);
                    },
                }
                i += 1;
            }
            assert(writer@ =~= old(writer)@ + (length_bytes(items@.len()) + done));
            Ok(())
        },
        Json::Object(entries) => {
            proof {
                lemma_object_view(*entries);
            }
            let ghost views = entries_view(entries@);
            let ghost mut done: Seq<u8> = Seq::empty();
            assert(writer@ + done =~= writer@);
            let mut i: usize = 0;
            while i < entries.len()
                invariant
                    i <= entries.len(),
                    decreases_to!(*value => *entries),
                    views == entries_view(entries@),
                    value@ == JsonView::Object(views),
                    plain_entries(views, i as nat) == Ok::<Seq<u8>, EncodeErrorView>(done),
                    writer@ == old(writer)@ + done,
                decreases entries.len() - i,
            {
                let ghost before = writer@;
                let ghost step = plain_bytes(views[i as int].1);
                proof {
                    axiom_vec_index_decreases(*entries, i as int);
                    lemma_starts_append(old(writer)@, done);
                }
                match serialize_plain(&entries[i].1, writer) {
                    Ok(()) => {
                        proof {
                            done = done + step->Ok_0;
                            assert(writer@ =~= old(writer)@ + done);
                        }
                    },
                    Err(e) => {
                        proof {
                            lemma_plain_entries_failure(views, (i + 1) as nat, entries@.len());
                            lemma_starts_transitive(old(writer)@, before, writer@);
                        }
                        return Err(e);
                    },
                }
                i += 1;
            }
            Ok(())
        },
    }
}

impl<'a> JsonSerializableAsBorsh<'a> {
    /// Appends to `writer` the bytes of the value. Where a string or an
    /// array in it is too long, `writer` stays as it was.
    pub fn serialize(&self, writer: &mut Vec<u8>) -> (r: Result<(), EncodeError>)
        ensures
            match r {
                Ok(()) => {
                    &&& plain_bytes(self.0@) is Ok
                    &&& final(writer)@ == old(writer)@ + plain_bytes(self.0@)->Ok_0
                },
                Err(e) => {
                    &&& plain_bytes(self.0@) == Err::<Seq<u8>, EncodeErrorView>(e@)
                    &&& final(writer)@ == old(writer)@
                },
            },
    {
        let start = writer.len();
        let r = serialize_plain(self.0, writer);
        if r.is_err() {
            writer.truncate(start);
            assert(writer@ =~= old(writer)@);
        }
        r
    }
}

} // verus!
