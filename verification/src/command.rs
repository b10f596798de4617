//! The six operations, each from input bytes to output.

pub mod decode;
pub mod encode;
pub mod extract;
pub mod pack;
pub mod strip;
pub mod unpack;

use crate::command::decode::{decoded, Decode, DecodeArgs};
use crate::command::encode::{encoded, schema_view, Encode, EncodeArgs};
use crate::command::extract::{extracted, Extract, ExtractArgs};
use crate::command::pack::{packed, Pack, PackArgs};
use crate::command::strip::{stripped, Strip, StripArgs};
use crate::command::unpack::{unpacked, Unpack, UnpackArgs};
use crate::container::parse_schema;
use crate::json::{Json, JsonView};
use crate::text::owned;
use crate::wire::write_bytes;
use vstd::prelude::*;
use vstd::string::*;

verus! {

/// Why an operation failed.
#[derive(Debug, PartialEq, Eq)]
pub enum IOError {
    ReadInputFile(String),
    ReadStdin,
    CreateOutputFile(String),
    WriteBorsh,
    WriteJson,
    WriteBytes,
    DeserializeBorsh(&'static str),
    DeserializeJson,
    IncorrectBorshSchemaHeader(String),
}

/// Why an operation failed, with texts as their characters.
pub ghost enum IOErrorView {
    ReadInputFile(Seq<char>),
    ReadStdin,
    CreateOutputFile(Seq<char>),
    WriteBorsh,
    WriteJson,
    WriteBytes,
    DeserializeBorsh(Seq<char>),
    DeserializeJson,
    IncorrectBorshSchemaHeader(Seq<char>),
}

impl View for IOError {
    type V = IOErrorView;

    open spec fn view(&self) -> IOErrorView {
        match self {
            IOError::ReadInputFile(path) => IOErrorView::ReadInputFile(path@),
            IOError::ReadStdin => IOErrorView::ReadStdin,
            IOError::CreateOutputFile(path) => IOErrorView::CreateOutputFile(path@),
            IOError::WriteBorsh => IOErrorView::WriteBorsh,
            IOError::WriteJson => IOErrorView::WriteJson,
            IOError::WriteBytes => IOErrorView::WriteBytes,
            IOError::DeserializeBorsh(what) => IOErrorView::DeserializeBorsh(what@),
            IOError::DeserializeJson => IOErrorView::DeserializeJson,
            IOError::IncorrectBorshSchemaHeader(declaration) => {
                IOErrorView::IncorrectBorshSchemaHeader(declaration@)
            },
        }
    }
}

impl IOErrorView {
    /// The message of this error.
    pub open spec fn message(self) -> Seq<char> {
        match self {
            IOErrorView::ReadInputFile(path) => "Failed to read input file "@ + path,
            IOErrorView::ReadStdin => "Failed to read from STDIN"@,
            IOErrorView::CreateOutputFile(path) => "Failed to create output file "@ + path,
            IOErrorView::WriteBorsh => "Failed to write Borsh"@,
            IOErrorView::WriteJson => "Failed to write JSON"@,
            IOErrorView::WriteBytes => "Failed to write raw bytes"@,
            IOErrorView::DeserializeBorsh(what) => "Failed to deserialize input as Borsh "@ + what,
            IOErrorView::DeserializeJson => "Failed to deserialize input as JSON"@,
            IOErrorView::IncorrectBorshSchemaHeader(declaration) => "Unexpected schema header: "@
                + declaration,
        }
    }
}

impl IOError {
    /// The message of this error.
    pub fn message(&self) -> (r: String)
        ensures
            r@ == self@.message(),
    {
        match self {
            IOError::ReadInputFile(path) => owned("Failed to read input file ").concat(
                path.as_str(),
            ),
            IOError::ReadStdin => owned("Failed to read from STDIN"),
            IOError::CreateOutputFile(path) => owned("Failed to create output file ").concat(
                path.as_str(),
            ),
            IOError::WriteBorsh => owned("Failed to write Borsh"),
            IOError::WriteJson => owned("Failed to write JSON"),
            IOError::WriteBytes => owned("Failed to write raw bytes"),
            IOError::DeserializeBorsh(what) => owned(
                "Failed to deserialize input as Borsh ",
            ).concat(what),
            IOError::DeserializeJson => owned("Failed to deserialize input as JSON"),
            IOError::IncorrectBorshSchemaHeader(declaration) => owned(
                "Unexpected schema header: ",
            ).concat(declaration.as_str()),
        }
    }
}

/// Appends `value` to `writer`.
pub fn output_bytes(writer: &mut Vec<u8>, value: &[u8]) -> (r: Result<(), IOError>)
    ensures
        r is Ok,
        final(writer)@ == old(writer)@ + value@,
{
    write_bytes(writer, value);
    Ok(())
}

/// An operation with what it is asked to do.
#[derive(Debug, PartialEq, Eq)]
pub enum Command {
    Pack(PackArgs),
    Unpack(UnpackArgs),
    Encode(EncodeArgs),
    Decode(DecodeArgs),
    Extract(ExtractArgs),
    Strip(StripArgs),
}

/// What an operation hands over to be written out.
#[derive(Debug, PartialEq, Eq)]
pub enum Outcome {
    /// Bytes, to be written as they are.
    Bytes(Vec<u8>),
    /// A document, to be written as JSON text: on several lines where
    /// `pretty` is set.
    Document { value: Json, pretty: bool },
}

/// What an operation hands over, with its bytes or its document as values.
pub ghost enum OutcomeView {
    Bytes(Seq<u8>),
    Document { value: JsonView, pretty: bool },
}

impl View for Outcome {
    type V = OutcomeView;

    open spec fn view(&self) -> OutcomeView {
        match self {
            Outcome::Bytes(bytes) => OutcomeView::Bytes(bytes@),
            Outcome::Document { value, pretty } => OutcomeView::Document {
                value: value@,
                pretty: *pretty,
            },
        }
    }
}

/// Bytes as an outcome, a failure as it is.
pub open spec fn as_bytes(r: Result<Seq<u8>, IOErrorView>) -> Result<OutcomeView, IOErrorView> {
    match r {
        Ok(bytes) => Ok(OutcomeView::Bytes(bytes)),
        Err(e) => Err(e),
    }
}

/// What `command` gives for the bytes `input`. `encode` takes the document
/// that the input holds, which is `None` where the input is no JSON text,
/// and the bytes that hold its schema, if it is asked to follow one.
pub open spec fn outcome(
    command: Command,
    input: Seq<u8>,
    document: Option<JsonView>,
    schema: Option<Seq<u8>>,
) -> Result<OutcomeView, IOErrorView> {
    match command {
        Command::Pack(args) => if input.len() <= u32::MAX {
            Ok(OutcomeView::Bytes(packed(input, args.no_schema)))
        } else {
            Err(IOErrorView::WriteBorsh)
        },
        Command::Unpack(args) => as_bytes(unpacked(input, args.no_schema)),
        Command::Encode(args) => match document {
            None => Err(IOErrorView::DeserializeJson),
            Some(value) => match schema {
                None => as_bytes(encoded(value, None)),
                Some(bytes) => match parse_schema(bytes) {
                    None => Err(IOErrorView::DeserializeBorsh("schema header"@)),
                    Some((found, _)) => as_bytes(encoded(value, Some(found))),
                },
            },
        },
        Command::Decode(args) => match decoded(input) {
            Ok(value) => Ok(OutcomeView::Document { value, pretty: args.pretty }),
            Err(e) => Err(e),
        },
        Command::Extract(args) => as_bytes(extracted(input)),
        Command::Strip(args) => as_bytes(stripped(input)),
    }
}

impl Command {
    /// Where the input is read; the standard input where there is none.
    pub fn input_path(&self) -> (r: &Option<String>)
        ensures
            *r == match *self {
                Command::Pack(args) => args.input_path,
                Command::Unpack(args) => args.input_path,
                Command::Encode(args) => args.input_path,
                Command::Decode(args) => args.input_path,
                Command::Extract(args) => args.input,
                Command::Strip(args) => args.input,
            },
    {
        match self {
            Command::Pack(args) => &args.input_path,
            Command::Unpack(args) => &args.input_path,
            Command::Encode(args) => &args.input_path,
            Command::Decode(args) => &args.input_path,
            Command::Extract(args) => &args.input,
            Command::Strip(args) => &args.input,
        }
    }

    /// Where the output is written; the standard output where there is
    /// none.
    pub fn output_path(&self) -> (r: &Option<String>)
        ensures
            *r == match *self {
                Command::Pack(args) => args.output_path,
                Command::Unpack(args) => args.output_path,
                Command::Encode(args) => args.output_path,
                Command::Decode(args) => args.output_path,
                Command::Extract(args) => args.output,
                Command::Strip(args) => args.output,
            },
    {
        match self {
            Command::Pack(args) => &args.output_path,
            Command::Unpack(args) => &args.output_path,
            Command::Encode(args) => &args.output_path,
            Command::Decode(args) => &args.output_path,
            Command::Extract(args) => &args.output,
            Command::Strip(args) => &args.output,
        }
    }

    /// Does what the command asks on the bytes `input` and hands over what
    /// is to be written out. `encode` takes the document that the input
    /// holds, which is `None` where the input is no JSON text, and the
    /// bytes that hold its schema, if it is asked to follow one.
    pub fn run(&self, input: Vec<u8>, document: Option<Json>, schema: Option<&[u8]>) -> (r: Result<
        Outcome,
        IOError,
    >)
        ensures
            match r {
                Ok(done) => outcome(
                    *self,
                    input@,
                    match document {
                        Some(value) => Some(value@),
                        None => None,
                    },
                    match schema {
                        Some(bytes) => Some(bytes@),
                        None => None,
                    },
                ) == Ok::<OutcomeView, IOErrorView>(done@),
                Err(e) => outcome(
                    *self,
                    input@,
                    match document {
                        Some(value) => Some(value@),
                        None => None,
                    },
                    match schema {
                        Some(bytes) => Some(bytes@),
                        None => None,
                    },
                ) == Err::<OutcomeView, IOErrorView>(e@),
            },
    {
        match self {
            Command::Pack(args) => {
                let mut run = Pack::new(args, input);
                match run.execute() {
                    Ok(()) => {
                        assert(run.output@ =~= packed(input@, args.no_schema));
                        Ok(Outcome::Bytes(run.output))
                    },
                    Err(e) => Err(e),
                }
            },
            Command::Unpack(args) => {
                let mut run = Unpack::new(args, input);
                match run.execute() {
                    Ok(()) => {
                        assert(run.output@ =~= unpacked(input@, args.no_schema)->Ok_0);
                        Ok(Outcome::Bytes(run.output))
                    },
                    Err(e) => Err(e),
                }
            },
            Command::Encode(args) => {
                let value = match document {
                    Some(value) => value,
                    None => {
                        return Err(IOError::DeserializeJson);
                    },
                };
                let mut run = match Encode::new(value, schema) {
                    Ok(run) => run,
                    Err(e) => {
                        return Err(e);
                    },
                };
                let ghost followed = schema_view(run.schema);
                match run.execute() {
                    Ok(()) => {
                        assert(run.output@ =~= encoded(value@, followed)->Ok_0);
                        Ok(Outcome::Bytes(run.output))
                    },
                    Err(e) => Err(e),
                }
            },
            Command::Decode(args) => {
                let mut run = Decode::new(args, input);
                match run.execute() {
                    Ok(()) => match run.output {
                        Some(value) => Ok(Outcome::Document { value, pretty: run.pretty }),
                        None => Err(IOError::WriteJson),
                    },
                    Err(e) => Err(e),
                }
            },
            Command::Extract(args) => {
                let mut run = Extract::new(args, input);
                match run.execute() {
                    Ok(()) => {
                        assert(run.output@ =~= extracted(input@)->Ok_0);
                        Ok(Outcome::Bytes(run.output))
                    },
                    Err(e) => Err(e),
                }
            },
            Command::Strip(args) => {
                let mut run = Strip::new(args, input);
                match run.execute() {
                    Ok(()) => {
                        assert(run.output@ =~= stripped(input@)->Ok_0);
                        Ok(Outcome::Bytes(run.output))
                    },
                    Err(e) => Err(e),
                }
            },
        }
    }
}

} // verus!
