//! Taking the schema off the head of the input.

use crate::command::IOError;
use crate::command::IOErrorView;
use crate::container::{deserialize_schema, parse_schema};
use crate::wire::{copy_range, write_bytes};
use vstd::prelude::*;

verus! {

/// What `strip` is asked to do.
#[derive(Debug, PartialEq, Eq)]
pub struct StripArgs {
    /// Where the input is read; the standard input where there is none.
    pub input: Option<String>,
    /// Where the output is written; the standard output where there is none.
    pub output: Option<String>,
}

/// One run of `strip`: the input and the sink for the output.
#[derive(Debug, PartialEq, Eq)]
pub struct Strip {
    pub input: Vec<u8>,
    pub output: Vec<u8>,
}

/// What `strip` gives for `input`: what follows the schema at its head.
pub open spec fn stripped(input: Seq<u8>) -> Result<Seq<u8>, IOErrorView> {
    match parse_schema(input) {
        Some((_, used)) => Ok(input.skip(used as int)),
        None => Err(IOErrorView::DeserializeBorsh("schema"@)),
    }
}

impl Strip {
    /// A run of `strip` on `input`, with nothing written yet.
    pub fn new(_args: &StripArgs, input: Vec<u8>) -> (r: Strip)
        ensures
            r.input == input,
            r.output@ == Seq::<u8>::empty(),
    {
        Strip { input, output: Vec::new() }
    }

    /// Writes what follows the schema at the head of the input. Where the
    /// input begins with no schema, nothing is written.
    pub fn execute(&mut self) -> (r: Result<(), IOError>)
        ensures
            final(self).input == old(self).input,
            match r {
                Ok(()) => {
                    &&& stripped(old(self).input@) matches Ok(rest)
                    &&& final(self).output@ == old(self).output@ + rest
                },
                Err(e) => {
                    &&& stripped(old(self).input@) == Err::<Seq<u8>, IOErrorView>(e@)
                    &&& final(self).output@ == old(self).output@
                },
            },
    {
        let buf = self.input.as_slice();
        assert(buf@.skip(0) =~= buf@);
        match deserialize_schema(buf, 0) {
            Some((_, next)) => {
                let rest = copy_range(buf, next, buf.len());
                assert(rest@ =~= buf@.skip(next as int));
                write_bytes(&mut self.output, rest.as_slice());
                Ok(())
            },
            None => Err(IOError::DeserializeBorsh("schema")),
        }
    }
}

} // verus!
