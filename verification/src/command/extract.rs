//! Taking the schema from the head of the input.

use crate::command::IOError;
use crate::command::IOErrorView;
use crate::command::strip::stripped;
use crate::container::{
    deserialize_schema, lemma_parse_schema_bytes, lemma_parse_written_schema,
    lemma_parsed_schema, parse_schema, schema_bytes, schema_fits, serialize_schema,
};
use crate::schema::SchemaView;
use crate::wire::lemma_skip_front;
use vstd::prelude::*;

verus! {

/// What `extract` is asked to do.
#[derive(Debug, PartialEq, Eq)]
pub struct ExtractArgs {
    /// Where the input is read; the standard input where there is none.
    pub input: Option<String>,
    /// Where the output is written; the standard output where there is none.
    pub output: Option<String>,
}

/// One run of `extract`: the input and the sink for the output.
#[derive(Debug, PartialEq, Eq)]
pub struct Extract {
    pub input: Vec<u8>,
    pub output: Vec<u8>,
}

/// What `extract` gives for `input`: the bytes of the schema at its head,
/// written anew with its definitions in the order of their names.
pub open spec fn extracted(input: Seq<u8>) -> Result<Seq<u8>, IOErrorView> {
    match parse_schema(input) {
        Some((schema, _)) => Ok(schema_bytes(schema)),
        None => Err(IOErrorView::DeserializeBorsh("schema"@)),
    }
}

impl Extract {
    /// A run of `extract` on `input`, with nothing written yet.
    pub fn new(_args: &ExtractArgs, input: Vec<u8>) -> (r: Extract)
        ensures
            r.input == input,
            r.output@ == Seq::<u8>::empty(),
    {
        Extract { input, output: Vec::new() }
    }

    /// Writes the schema at the head of the input, its definitions in the
    /// order of their names. Where the input begins with no schema, nothing
    /// is written.
    pub fn execute(&mut self) -> (r: Result<(), IOError>)
        ensures
            final(self).input == old(self).input,
            match r {
                Ok(()) => {
                    &&& extracted(old(self).input@) matches Ok(bytes)
                    &&& final(self).output@ == old(self).output@ + bytes
                },
                Err(e) => {
                    &&& extracted(old(self).input@) == Err::<Seq<u8>, IOErrorView>(e@)
                    &&& final(self).output@ == old(self).output@
                },
            },
    {
        let buf = self.input.as_slice();
        assert(buf@.skip(0) =~= buf@);
        match deserialize_schema(buf, 0) {
            Some((schema, _)) => {
                if serialize_schema(&mut self.output, &schema) {
                    Ok(())
                } else {
                    Err(IOError::WriteBorsh)
                }
            },
            None => Err(IOError::DeserializeBorsh("schema")),
        }
    }
}

/// Of a blob made of a schema and data behind it, `extract` gives the
/// schema and `strip` gives the data, and the two together are the blob.
/// The schema is one as it is written: its definitions in the order of
/// their names.
pub proof fn lemma_extract_and_strip(schema: SchemaView, data: Seq<u8>)
    requires
        schema_fits(schema),
        schema.is_canonical(),
    ensures
        extracted(schema_bytes(schema) + data) == Ok::<Seq<u8>, IOErrorView>(schema_bytes(schema)),
        stripped(schema_bytes(schema) + data) == Ok::<Seq<u8>, IOErrorView>(data),
        extracted(schema_bytes(schema) + data)->Ok_0 + stripped(schema_bytes(schema) + data)->Ok_0
            == schema_bytes(schema) + data,
{
    lemma_parse_schema_bytes(schema, data);
    lemma_skip_front(schema_bytes(schema), data);
}

/// What `extract` gives is a schema as it is written: `extract` gives it
/// back as it is, whatever follows it.
pub proof fn lemma_extract_twice(input: Seq<u8>, tail: Seq<u8>)
    requires
        extracted(input) is Ok,
    ensures
        extracted(extracted(input)->Ok_0 + tail) == extracted(input),
{
    lemma_parsed_schema(input);
    lemma_parse_schema_bytes((parse_schema(input)->0).0, tail);
}

/// Of a blob made of a schema as anyone may have written it and data behind
/// it, `strip` gives the data, and `extract` gives the schema in its
/// canonical form: its definitions in the order of their names.
pub proof fn lemma_extract_written(schema: SchemaView, data: Seq<u8>)
    requires
        schema_fits(schema),
    ensures
        extracted(schema_bytes(schema) + data) == Ok::<Seq<u8>, IOErrorView>(
            schema_bytes(schema.canonical()),
        ),
        stripped(schema_bytes(schema) + data) == Ok::<Seq<u8>, IOErrorView>(data),
{
    lemma_parse_written_schema(schema, data);
    lemma_skip_front(schema_bytes(schema), data);
}

} // verus!
