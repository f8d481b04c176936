//! The record handed across a foreign-call boundary.
use vstd::prelude::*;
use crate::decoder::decompress;
use crate::format::decoded;

verus! {

/// The outcome of one decode in the shape a foreign caller receives it: a
/// success flag and the decoded bytes, owned by the record. A failed decode
/// carries no bytes.
pub struct DecompressionResult {
    pub success: bool,
    pub data: Vec<u8>,
}

impl DecompressionResult {
    /// The record for a call that could not decode at all (no input given).
    pub fn failure() -> (r: DecompressionResult)
        ensures
            !r.success,
            r.data@.len() == 0,
    {
        DecompressionResult { success: false, data: Vec::new() }
    }

    /// Decodes `bs` into `size` bytes and records the outcome: on success the
    /// decoded bytes, otherwise the failure record.
    pub fn from_stream(bs: &[u8], size: usize) -> (r: DecompressionResult)
        ensures
            r.success == decoded(bs@, size as nat) is Some,
            r.success ==> decoded(bs@, size as nat) == Some(r.data@),
            !r.success ==> r.data@.len() == 0,
    {
        match decompress(bs, size) {
            Some(data) => DecompressionResult { success: true, data },
            None => DecompressionResult::failure(),
        }
    }
}

} // verus!
