//! The public parsing interface: decode at most one request frame from a
//! buffer.
//!
//! One call reads exactly one frame — an array of length-prefixed,
//! binary-safe bulk strings, or an inline simple string — and reports how
//! many bytes it consumed, so pipelined frames in one buffer are decoded
//! one per call. An incomplete frame asks for more bytes; a first byte
//! other than `*` or `+`, a malformed length, a negative length, or a
//! frame beyond the size bound is a protocol error.

use vstd::prelude::*;

use crate::decode::{decode_frame, seqs_of, spec_decode_frame, DecodeResult, FrameRes};

verus! {

/// The frame-size bound [`parse_data_new`] decodes under: a frame whose
/// completion would need more buffered bytes than this is refused.
pub const DEFAULT_MAX_FRAME: usize = 1048576;

/// Decode at most one frame from the start of `data`, under the
/// [`DEFAULT_MAX_FRAME`] size bound. Consumes nothing on an incomplete
/// frame; never panics, an empty buffer simply needs more bytes.
pub fn parse_data_new(data: &[u8]) -> (r: DecodeResult)
    ensures
        ({
            let p = spec_decode_frame(data@, DEFAULT_MAX_FRAME as int);
            match r {
                DecodeResult::NeedMore => p is NeedMore,
                DecodeResult::Fail(e) => p == FrameRes::Fail(e),
                DecodeResult::Done(args, used) => p == (FrameRes::Done {
                    args: seqs_of(args@),
                    used: used as int,
                }),
            }
        }),
{
    decode_frame(data, DEFAULT_MAX_FRAME)
}

} // verus!
