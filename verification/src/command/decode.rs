//! From bytes behind their schema to a JSON document.

use crate::command::encode::encoded;
use crate::command::IOError;
use crate::command::IOErrorView;
use crate::container::{
    deserialize_schema, lemma_parse_schema_bytes, parse_schema, schema_bytes,
};
use crate::dynamic_schema::decoding::{decode, deserialize_from_schema};
use crate::dynamic_schema::encoding::{encode, encode_fuel};
use crate::dynamic_schema::round_trip::{lemma_reads_back, shown_value};
use crate::json::{Json, JsonView};
use crate::schema::SchemaView;
use crate::wire::lemma_skip_front;
use vstd::prelude::*;
use vstd::slice::slice_subrange;

verus! {

/// What `decode` is asked to do.
#[derive(Debug, PartialEq, Eq)]
pub struct DecodeArgs {
    /// Where the input is read; the standard input where there is none.
    pub input_path: Option<String>,
    /// Where the output is written; the standard output where there is none.
    pub output_path: Option<String>,
    /// Whether the document is written on several lines, indented.
    pub pretty: bool,
}

/// One run of `decode`: the input, the place for the document, and whether
/// the document is to be written on several lines.
#[derive(Debug, PartialEq, Eq)]
pub struct Decode {
    pub input: Vec<u8>,
    pub output: Option<Json>,
    pub pretty: bool,
}

/// What `decode` gives for `input`: the value that follows the schema at
/// its head, read under that schema.
pub open spec fn decoded(input: Seq<u8>) -> Result<JsonView, IOErrorView> {
    match parse_schema(input) {
        None => Err(IOErrorView::DeserializeBorsh("schema"@)),
        Some((schema, used)) => match decode(schema, input.skip(used as int)) {
            Ok((value, _)) => Ok(value),
            Err(_) => Err(IOErrorView::DeserializeBorsh("data according to embedded schema"@)),
        },
    }
}

impl Decode {
    /// A run of `decode` on `input` as `args` ask for it, with no document
    /// yet.
    pub fn new(args: &DecodeArgs, input: Vec<u8>) -> (r: Decode)
        ensures
            r.input == input,
            r.output is None,
            r.pretty == args.pretty,
    {
        Decode { input, output: None, pretty: args.pretty }
    }

    /// Reads the schema at the head of the input and, under it, the value
    /// behind it; the value is left in `output`. Where either cannot be
    /// read, `output` stays as it was.
    pub fn execute(&mut self) -> (r: Result<(), IOError>)
        ensures
            final(self).input == old(self).input,
            final(self).pretty == old(self).pretty,
            match r {
                Ok(()) => {
                    &&& decoded(old(self).input@) matches Ok(value)
                    &&& final(self).output matches Some(document)
                    &&& document@ == value
                },
                Err(e) => {
                    &&& decoded(old(self).input@) == Err::<JsonView, IOErrorView>(e@)
                    &&& final(self).output == old(self).output
                },
            },
    {
        let all = self.input.as_slice();
        assert(all@.skip(0) =~= all@);
        let (schema, next) = match deserialize_schema(all, 0) {
            Some(found) => found,
            None => {
                return Err(IOError::DeserializeBorsh("schema"));
            },
        };
        let mut buf: &[u8] = slice_subrange(all, next, all.len());
        assert(buf@ =~= all@.skip(next as int));
        match deserialize_from_schema(&mut buf, &schema) {
            Ok(value) => {
                self.output = Some(value);
                Ok(())
            },
            Err(_) => Err(IOError::DeserializeBorsh("data according to embedded schema")),
        }
    }
}

/// What `encode` wrote under a schema, `decode` reads back: the value as
/// `shown_value` describes it. The schema is one as it is written, its
/// definitions in the order of their names, and the bytes are so few that
/// the bound of the read can be counted.
pub proof fn lemma_decode_encoded(schema: SchemaView, value: JsonView)
    requires
        schema.is_canonical(),
        encoded(value, Some(schema)) is Ok,
        (encode(schema, value)->Ok_0.len() + 1) * (schema.definitions.len() + 1) <= usize::MAX,
    ensures
        decoded(encoded(value, Some(schema))->Ok_0) == Ok::<JsonView, IOErrorView>(
            shown_value(schema, schema.declaration, value, encode_fuel(schema, value)),
        ),
{
    let bytes = encode(schema, value)->Ok_0;
    lemma_parse_schema_bytes(schema, bytes);
    lemma_skip_front(schema_bytes(schema), bytes);
    assert(bytes + Seq::<u8>::empty() =~= bytes);
    lemma_reads_back(schema, value, Seq::empty());
}

} // verus!
