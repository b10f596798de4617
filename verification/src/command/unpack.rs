//! Taking the raw bytes out of a byte vector, with or without its schema.

use crate::command::pack::{
    byte_vector_schema, is_byte_vector, lemma_byte_vector_schema_fits, packed, vector_bytes,
};
use crate::command::IOError;
use crate::command::IOErrorView;
use crate::container::{
    deserialize_schema, lemma_parse_schema_bytes, parse_schema, schema_bytes,
};
use crate::primitives::lemma_le_bytes_len;
use crate::wire::{
    copy_range, lemma_parse_length_bytes, lemma_skip_front, length_bytes, parse_length, read_length, write_bytes,
};
use vstd::prelude::*;

verus! {

/// What `unpack` is asked to do.
#[derive(Debug, PartialEq, Eq)]
pub struct UnpackArgs {
    /// Where the input is read; the standard input where there is none.
    pub input_path: Option<String>,
    /// Where the output is written; the standard output where there is none.
    pub output_path: Option<String>,
    /// Whether the input holds no schema.
    pub no_schema: bool,
}

/// One run of `unpack`: the input, the sink for the output, and whether the
/// input holds no schema.
#[derive(Debug, PartialEq, Eq)]
pub struct Unpack {
    pub input: Vec<u8>,
    pub output: Vec<u8>,
    pub no_schema: bool,
}

/// The byte vector at the head of `s`, with the number of bytes that it
/// takes.
pub open spec fn parse_vector(s: Seq<u8>) -> Option<(Seq<u8>, nat)> {
    match parse_length(s) {
        Some((n, _)) => if s.len() - 4 >= n {
            Some((s.subrange(4, 4 + n as int), 4 + n))
        } else {
            None
        },
        None => None,
    }
}

/// What `unpack` gives for `input`: the bytes of the one byte vector that
/// the input holds, behind the schema of a byte vector unless the input has
/// none.
pub open spec fn unpacked(input: Seq<u8>, no_schema: bool) -> Result<Seq<u8>, IOErrorView> {
    if no_schema {
        match parse_vector(input) {
            Some((data, used)) => if used == input.len() {
                Ok(data)
            } else {
                Err(IOErrorView::DeserializeBorsh("byte array"@))
            },
            None => Err(IOErrorView::DeserializeBorsh("byte array"@)),
        }
    } else {
        match parse_schema(input) {
            None => Err(IOErrorView::DeserializeBorsh("byte array with schema headers"@)),
            Some((schema, used)) => match parse_vector(input.skip(used as int)) {
                Some((data, more)) => if used + more != input.len() {
                    Err(IOErrorView::DeserializeBorsh("byte array with schema headers"@))
                } else if schema == byte_vector_schema() {
                    Ok(data)
                } else {
                    Err(IOErrorView::IncorrectBorshSchemaHeader(schema.declaration))
                },
                None => Err(IOErrorView::DeserializeBorsh("byte array with schema headers"@)),
            },
        }
    }
}

/// Reads the byte vector at `pos`; gives it with the position behind it.
pub fn read_vector(buf: &[u8], pos: usize) -> (r: Option<(Vec<u8>, usize)>)
    requires
        pos <= buf.len(),
    ensures
        match r {
            Some((data, next)) => pos <= next <= buf.len() && parse_vector(buf@.skip(pos as int))
                == Some((data@, (next - pos) as nat)),
            None => parse_vector(buf@.skip(pos as int)) is None,
        },
{
    match read_length(buf, pos) {
        None => None,
        Some((n, start)) => {
            if buf.len() - start < n as usize {
                return None;
            }
            let data = copy_range(buf, start, start + n as usize);
            assert(data@ =~= buf@.skip(pos as int).subrange(4, 4 + n as int));
            Some((data, start + n as usize))
        },
    }
}

impl Unpack {
    /// A run of `unpack` on `input` as `args` ask for it, with nothing
    /// written yet.
    pub fn new(args: &UnpackArgs, input: Vec<u8>) -> (r: Unpack)
        ensures
            r.input == input,
            r.output@ == Seq::<u8>::empty(),
            r.no_schema == args.no_schema,
    {
        Unpack { input, output: Vec::new(), no_schema: args.no_schema }
    }

    /// Writes the bytes of the byte vector that the input holds. Where the
    /// input is no such vector, or stands behind another schema, nothing is
    /// written.
    pub fn execute(&mut self) -> (r: Result<(), IOError>)
        ensures
            final(self).input == old(self).input,
            final(self).no_schema == old(self).no_schema,
            match r {
                Ok(()) => {
                    &&& unpacked(old(self).input@, old(self).no_schema) matches Ok(data)
                    &&& final(self).output@ == old(self).output@ + data
                },
                Err(e) => {
                    &&& unpacked(old(self).input@, old(self).no_schema) == Err::<
                        Seq<u8>,
                        IOErrorView,
                    >(e@)
                    &&& final(self).output@ == old(self).output@
                },
            },
    {
        let buf = self.input.as_slice();
        assert(buf@.skip(0) =~= buf@);
        let value = if self.no_schema {
            match read_vector(buf, 0) {
                Some((data, next)) => {
                    if next != buf.len() {
                        return Err(IOError::DeserializeBorsh("byte array"));
                    }
                    data
                },
                None => {
                    return Err(IOError::DeserializeBorsh("byte array"));
                },
            }
        } else {
            let (schema, middle) = match deserialize_schema(buf, 0) {
                Some(found) => found,
                None => {
                    return Err(IOError::DeserializeBorsh("byte array with schema headers"));
                },
            };
            match read_vector(buf, middle) {
                Some((data, next)) => {
                    if next != buf.len() {
                        return Err(IOError::DeserializeBorsh("byte array with schema headers"));
                    }
                    if !is_byte_vector(&schema) {
                        return Err(IOError::IncorrectBorshSchemaHeader(schema.declaration));
                    }
                    data
                },
                None => {
                    return Err(IOError::DeserializeBorsh("byte array with schema headers"));
                },
            }
        };
        write_bytes(&mut self.output, value.as_slice());
        Ok(())
    }
}

/// A byte vector that was written reads back as the same bytes, whatever
/// follows it.
pub proof fn lemma_parse_vector_bytes(data: Seq<u8>, tail: Seq<u8>)
    requires
        data.len() <= u32::MAX,
    ensures
        parse_vector(vector_bytes(data) + tail) == Some((data, vector_bytes(data).len())),
{
    let all = vector_bytes(data) + tail;
    assert(all =~= length_bytes(data.len()) + (data + tail));
    lemma_parse_length_bytes(data.len(), data + tail);
    lemma_le_bytes_len(data.len(), 4);
    assert(all.subrange(4, 4 + data.len() as int) =~= data);
}

/// Unpacking what was packed gives the input back: with the schema on both
/// sides, and without it on both sides.
pub proof fn lemma_unpack_packed(input: Seq<u8>, no_schema: bool)
    requires
        input.len() <= u32::MAX,
    ensures
        unpacked(packed(input, no_schema), no_schema) == Ok::<Seq<u8>, IOErrorView>(input),
{
    lemma_le_bytes_len(input.len(), 4);
    lemma_parse_vector_bytes(input, Seq::empty());
    assert(vector_bytes(input) + Seq::<u8>::empty() =~= vector_bytes(input));
    if !no_schema {
        let schema = byte_vector_schema();
        lemma_byte_vector_schema_fits();
        lemma_parse_schema_bytes(schema, vector_bytes(input));
        lemma_skip_front(schema_bytes(schema), vector_bytes(input));
    }
}

} // verus!
