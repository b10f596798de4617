//! From a JSON document to bytes, under a schema or without one.

use crate::command::IOError;
use crate::command::IOErrorView;
use crate::container::{
    deserialize_schema, parse_schema, schema_bytes, schema_fits, serialize_schema,
};
use crate::dynamic_schema::encoding::{encode, serialize_with_schema};
use crate::json::{Json, JsonView};
use crate::json_borsh::{plain_bytes, JsonSerializableAsBorsh};
use crate::schema::{Schema, SchemaView};
use vstd::prelude::*;

verus! {

/// What `encode` is asked to do.
#[derive(Debug, PartialEq, Eq)]
pub struct EncodeArgs {
    /// Where the input is read; the standard input where there is none.
    pub input_path: Option<String>,
    /// Where the output is written; the standard output where there is none.
    pub output_path: Option<String>,
    /// Where the schema to follow is read.
    pub schema: Option<String>,
}

/// One run of `encode`: the document, the sink for the output, and the
/// schema to follow, if there is one.
#[derive(Debug, PartialEq, Eq)]
pub struct Encode {
    pub input: Json,
    pub output: Vec<u8>,
    pub schema: Option<Schema>,
}

/// What `encode` writes for `value`: under a schema, the schema and then the
/// value under it; without one, the value as far as it can be written so.
pub open spec fn encoded(value: JsonView, schema: Option<SchemaView>) -> Result<
    Seq<u8>,
    IOErrorView,
> {
    match schema {
        Some(schema) => if !schema_fits(schema) {
            Err(IOErrorView::WriteBorsh)
        } else {
            match encode(schema, value) {
                Ok(bytes) => Ok(schema_bytes(schema) + bytes),
                Err(_) => Err(IOErrorView::WriteBorsh),
            }
        },
        None => match plain_bytes(value) {
            Ok(bytes) => Ok(bytes),
            Err(_) => Err(IOErrorView::WriteBorsh),
        },
    }
}

/// The schema that an optional schema views as.
pub open spec fn schema_view(schema: Option<Schema>) -> Option<SchemaView> {
    match schema {
        Some(schema) => Some(schema@),
        None => None,
    }
}

impl Encode {
    /// A run of `encode` on the document `input`, to follow the schema at
    /// the head of `schema` where there is one; nothing is written yet.
    /// Bytes that begin with no schema are refused.
    pub fn new(input: Json, schema: Option<&[u8]>) -> (r: Result<Encode, IOError>)
        ensures
            match r {
                Ok(run) => {
                    &&& run.input == input
                    &&& run.output@ == Seq::<u8>::empty()
                    &&& match schema {
                        Some(bytes) => parse_schema(bytes@) matches Some((found, _))
                            && schema_view(run.schema) == Some(found),
                        None => run.schema is None,
                    }
                },
                Err(e) => {
                    &&& schema matches Some(bytes)
                    &&& parse_schema(bytes@) is None
                    &&& e@ == IOErrorView::DeserializeBorsh("schema header"@)
                },
            },
    {
        let schema = match schema {
            Some(bytes) => {
                assert(bytes@.skip(0) =~= bytes@);
                match deserialize_schema(bytes, 0) {
                    Some((found, _)) => Some(found),
                    None => {
                        return Err(IOError::DeserializeBorsh("schema header"));
                    },
                }
            },
            None => None,
        };
        Ok(Encode { input, output: Vec::new(), schema })
    }

    /// Writes the document: behind the schema and under it where there is
    /// one, else without a schema. Where the document cannot be written so,
    /// nothing is written.
    pub fn execute(&mut self) -> (r: Result<(), IOError>)
        ensures
            final(self).input == old(self).input,
            final(self).schema == old(self).schema,
            match r {
                Ok(()) => {
                    &&& encoded(old(self).input@, schema_view(old(self).schema)) matches Ok(bytes)
                    &&& final(self).output@ == old(self).output@ + bytes
                },
                Err(e) => {
                    &&& encoded(old(self).input@, schema_view(old(self).schema)) is Err
                    &&& e == IOError::WriteBorsh
                    &&& final(self).output@ == old(self).output@
                },
            },
    {
        let start = self.output.len();
        match &self.schema {
            Some(schema) => {
                if !serialize_schema(&mut self.output, schema) {
                    return Err(IOError::WriteBorsh);
                }
                match serialize_with_schema(&mut self.output, &self.input, schema) {
                    Ok(()) => {
                        assert(self.output@ =~= old(self).output@ + (schema_bytes(schema@)
                            + encode(schema@, self.input@)->Ok_0));
                        Ok(())
                    },
                    Err(_) => {
                        self.output.truncate(start);
                        assert(self.output@ =~= old(self).output@);
                        Err(IOError::WriteBorsh)
                    },
                }
            },
            None => {
                match JsonSerializableAsBorsh(&self.input).serialize(&mut self.output) {
                    Ok(()) => Ok(()),
                    Err(_) => Err(IOError::WriteBorsh),
                }
            },
        }
    }
}

} // verus!
