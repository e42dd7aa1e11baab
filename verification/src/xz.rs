//! XZ streams.
//!
//! Compression is the `xz` crate's business. The library never looks inside a
//! stream: it names what the crate's encoder and decoder make of a byte
//! string and reasons from there.

use vstd::prelude::*;
use xz::stream::Action;
use xz::stream::Check;
use xz::stream::Status;
use xz::stream::Stream;
use xz::stream::CONCATENATED;

verus! {

/// The XZ stream that the encoder makes of the data, at preset 0 and without
/// an integrity check of its own.
pub uninterp spec fn xz_encoded(data: Seq<u8>) -> Seq<u8>;

/// The data that a byte string holds when read as concatenated XZ streams,
/// or `None` where it is no such thing.
pub uninterp spec fn xz_decoded(stream: Seq<u8>) -> Option<Seq<u8>>;

/// `xz::stream::Stream::process_vec` on a stream from
/// `xz::stream::Stream::new_easy_encoder(0, Check::None)`, with all the data
/// as input, the action `Finish` and `room` bytes for the output.
///
/// Trusted: where the encoder reaches the end of its stream, what comes back
/// is the encoder's stream for the data, and the compression is lossless, so
/// that decoding the stream gives the data. `None` stands for a refusal by
/// liblzma and for an encoder that wants more room; nothing is claimed of
/// it.
#[verifier::external_body]
pub(crate) fn xz_encode(data: &[u8], room: usize) -> (r: Option<Vec<u8>>)
    ensures
        r matches Some(out) ==> out@ == xz_encoded(data@) && xz_decoded(out@) == Some(data@),
{
    let mut stream = Stream::new_easy_encoder(0, Check::None).ok()?;
    let mut out = Vec::with_capacity(room);
    match stream.process_vec(data, &mut out, Action::Finish).ok()? {
        Status::StreamEnd => Some(out),
        Status::Ok | Status::GetCheck | Status::MemNeeded => None,
    }
}

/// `xz::stream::Stream::process_vec` on a stream from
/// `xz::stream::Stream::new_stream_decoder(u32::MAX, CONCATENATED)`, with
/// all the bytes as input, the action `Finish` and `room` bytes for the
/// output.
///
/// Trusted: where the decoder reaches the end of its input, the bytes that
/// come back are what the input holds. `None` stands for any failure, of the
/// data or of the machine, and for a decoder that wants more room; nothing
/// is claimed of it.
#[verifier::external_body]
pub(crate) fn xz_decode(stream: &[u8], room: usize) -> (r: Option<Vec<u8>>)
    ensures
        r matches Some(out) ==> xz_decoded(stream@) == Some(out@),
{
    let mut decoder = Stream::new_stream_decoder(u32::MAX as u64, CONCATENATED).ok()?;
    let mut out = Vec::with_capacity(room);
    match decoder.process_vec(stream, &mut out, Action::Finish).ok()? {
        Status::StreamEnd => Some(out),
        Status::Ok | Status::GetCheck | Status::MemNeeded => None,
    }
}

} // verus!
