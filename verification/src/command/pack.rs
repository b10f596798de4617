//! Wrapping raw bytes as a byte vector, with or without its schema.

use crate::command::IOError;
use crate::container::{definition_fits, schema_bytes, schema_fits, serialize_schema};
use crate::schema::{Definition, DefinitionView, Schema, SchemaView};
use crate::text::{owned, same_text};
use crate::wire::{length_bytes, write_bytes, write_length};
use vstd::prelude::*;
use vstd::utf8::{is_ascii_chars, is_ascii_chars_encode_utf8};

verus! {

/// What `pack` is asked to do.
#[derive(Debug, PartialEq, Eq)]
pub struct PackArgs {
    /// Where the input is read; the standard input where there is none.
    pub input_path: Option<String>,
    /// Where the output is written; the standard output where there is none.
    pub output_path: Option<String>,
    /// Whether the schema is left out of the output.
    pub no_schema: bool,
}

/// One run of `pack`: the input, the sink for the output, and whether the
/// schema is left out.
#[derive(Debug, PartialEq, Eq)]
pub struct Pack {
    pub input: Vec<u8>,
    pub output: Vec<u8>,
    pub no_schema: bool,
}

/// The schema of a byte vector: a sequence of `u8` under the name `Vec<u8>`.
pub open spec fn byte_vector_schema() -> SchemaView {
    SchemaView {
        declaration: "Vec<u8>"@,
        definitions: seq![("Vec<u8>"@, DefinitionView::Sequence { elements: "u8"@ })],
    }
}

/// The bytes of a byte vector: its length, then its bytes.
pub open spec fn vector_bytes(data: Seq<u8>) -> Seq<u8> {
    length_bytes(data.len()) + data
}

/// What `pack` writes for `input`.
pub open spec fn packed(input: Seq<u8>, no_schema: bool) -> Seq<u8> {
    if no_schema {
        vector_bytes(input)
    } else {
        schema_bytes(byte_vector_schema()) + vector_bytes(input)
    }
}

/// The schema of a byte vector can be written.
pub proof fn lemma_byte_vector_schema_fits()
    ensures
        schema_fits(byte_vector_schema()),
{
    reveal(definition_fits);
    reveal_strlit("Vec<u8>");
    reveal_strlit("u8");
    assert(is_ascii_chars("Vec<u8>"@));
    assert(is_ascii_chars("u8"@));
    is_ascii_chars_encode_utf8("Vec<u8>"@);
    is_ascii_chars_encode_utf8("u8"@);
}

/// The schema of a byte vector.
pub fn byte_vector() -> (schema: Schema)
    ensures
        schema@ == byte_vector_schema(),
{
    let mut definitions: Vec<(String, Definition)> = Vec::new();
    definitions.push((owned("Vec<u8>"), Definition::Sequence { elements: owned("u8") }));
    let schema = Schema { declaration: owned("Vec<u8>"), definitions };
    assert(schema@.definitions =~= byte_vector_schema().definitions);
    schema
}

/// Whether `schema` is the schema of a byte vector.
pub fn is_byte_vector(schema: &Schema) -> (r: bool)
    ensures
        r == (schema@ == byte_vector_schema()),
{
    if !same_text(schema.declaration.as_str(), "Vec<u8>") {
        return false;
    }
    if schema.definitions.len() != 1 {
        assert(schema@.definitions.len() != byte_vector_schema().definitions.len());
        return false;
    }
    if !same_text(schema.definitions[0].0.as_str(), "Vec<u8>") {
        assert(schema@.definitions[0].0 != byte_vector_schema().definitions[0].0);
        return false;
    }
    match &schema.definitions[0].1 {
        Definition::Sequence { elements } => {
            if same_text(elements.as_str(), "u8") {
                assert(schema@.definitions =~= byte_vector_schema().definitions);
                true
            } else {
                assert(schema@.definitions[0].1 != byte_vector_schema().definitions[0].1);
                false
            }
        },
        _ => {
            assert(schema@.definitions[0].1 != byte_vector_schema().definitions[0].1);
            false
        },
    }
}

impl Pack {
    /// A run of `pack` on `input` as `args` ask for it, with nothing written
    /// yet.
    pub fn new(args: &PackArgs, input: Vec<u8>) -> (r: Pack)
        ensures
            r.input == input,
            r.output@ == Seq::<u8>::empty(),
            r.no_schema == args.no_schema,
    {
        Pack { input, output: Vec::new(), no_schema: args.no_schema }
    }

    /// Writes the input as a byte vector, behind its schema unless that is
    /// left out. An input too long for its length to be written is refused,
    /// and nothing is written.
    pub fn execute(&mut self) -> (r: Result<(), IOError>)
        ensures
            final(self).input == old(self).input,
            final(self).no_schema == old(self).no_schema,
            match r {
                Ok(()) => {
                    &&& old(self).input@.len() <= u32::MAX
                    &&& final(self).output@ == old(self).output@ + packed(
                        old(self).input@,
                        old(self).no_schema,
                    )
                },
                Err(e) => {
                    &&& old(self).input@.len() > u32::MAX
                    &&& e == IOError::WriteBorsh
                    &&& final(self).output@ == old(self).output@
                },
            },
    {
        if self.input.len() > u32::MAX as usize {
            return Err(IOError::WriteBorsh);
        }
        if !self.no_schema {
            let schema = byte_vector();
            proof {
                lemma_byte_vector_schema_fits();
            }
            let done = serialize_schema(&mut self.output, &schema);
            assert(done);
        }
        write_length(&mut self.output, self.input.len() as u32);
        write_bytes(&mut self.output, self.input.as_slice());
        assert(self.output@ =~= old(self).output@ + packed(old(self).input@, old(self).no_schema));
        Ok(())
    }
}

} // verus!
