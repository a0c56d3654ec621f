//! Checking a file.
use crate::block;
use crate::mz::args::{Options, OptionsView};
use crate::mz::decompress::{decompress_block, decompress_stream};
use crate::mz::error::Error;
use crate::mz::path;
use crate::mz::path::extension_matches;
use crate::stream::reader;
use vstd::prelude::*;
use vstd::string::*;

verus! {

/// The file is a single block, by the options or its name.
pub open spec fn is_block(o: OptionsView, input: Seq<char>) -> bool {
    o.block || path::extension(input) == Some("mzb"@)
}

/// Returns whether the file, which is needed, is a single block.
pub fn run(opts: &Options, input: &Option<String>) -> (r: Result<bool, Error>)
    ensures
        (match input {
            None => r == Err::<bool, Error>(Error::Other("no input file given")),
            Some(p) => r == Ok::<bool, Error>(is_block(opts@, p@)),
        }),
{
    match input {
        None => Err(Error::Other("no input file given")),
        Some(p) => Ok(opts.block || extension_matches(p.as_str(), "mzb")),
    }
}

/// Reads a file and returns how much data it holds, or what is wrong with it.
pub fn verify(source: Vec<u8>, block: bool) -> (r: Result<u64, Error>)
    ensures
        block ==> (match block::block_decoded(source@) {
            Ok(data) => r == Ok::<u64, Error>(data.len() as u64),
            Err(e) => r == Err::<u64, Error>(Error::Block(e)),
        }),
        !block ==> ({
            let d = reader::drained(reader::fresh(reader::default_options(), source@));
            match d.err {
                None => r == Ok::<u64, Error>(d.data.len() as u64),
                Some(e) => r == Err::<u64, Error>(Error::Stream(e)),
            }
        }),
{
    let data: Vec<u8> = if block {
        match decompress_block(source.as_slice()) {
            Err(e) => {
                return Err(e);
            },
            Ok(d) => d,
        }
    } else {
        match decompress_stream(source, 1) {
            Err(e) => {
                return Err(e);
            },
            Ok(d) => d,
        }
    };
    Ok(data.len() as u64)
}

} // verus!
