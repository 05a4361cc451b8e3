//! The byte-stream compression pass around the command stream, done by the
//! bzip2 codec of the `compression` crate.
use vstd::prelude::*;

use compression::prelude::{Action, BZip2Decoder, BZip2Encoder, BZip2Error, CompressionError, DecodeExt, EncodeExt};

verus! {

#[verifier::external_type_specification]
#[verifier::external_body]
pub struct ExCompressionError(CompressionError);

#[verifier::external_type_specification]
#[verifier::external_body]
pub struct ExBZip2Error(BZip2Error);

/// What bzip2 compression at block size 9 makes of a byte string: the
/// compressed bytes, or `None` where the encoder reports an error.
pub uninterp spec fn bzip2_packed(data: Seq<u8>) -> Option<Seq<u8>>;

/// What bzip2 decompression makes of a byte string: the bytes the decoder
/// yields, in order, up to the end of its output, or `None` where it
/// yields an error first.
pub uninterp spec fn bzip2_unpacked(data: Seq<u8>) -> Option<Seq<u8>>;

/// Relies on `BZip2Encoder::new(9)` driven to `Action::Finish` through
/// `EncodeExt::encode`: its output, or the first error it yields, depends
/// on the input bytes alone, and decoding that output gives the input back
/// (the round trips of the crate's bzip2 tests).
#[verifier::external_body]
fn bzip2_compress(data: &Vec<u8>) -> (r: Result<Vec<u8>, CompressionError>)
    ensures
        r is Ok <==> bzip2_packed(data@) is Some,
        r is Ok ==> r->Ok_0@ == bzip2_packed(data@)->0,
        r is Ok ==> bzip2_unpacked(r->Ok_0@) == Some(data@),
{
    data.iter().cloned().encode(&mut BZip2Encoder::new(9), Action::Finish).collect::<Result<
        Vec<u8>,
        CompressionError,
    >>()
}

/// Relies on `BZip2Decoder::new()` driven through `DecodeExt::decode`: on
/// a valid stream it yields the decompressed bytes, which depend on the
/// input bytes alone. Exactly `len`, the full output length, are pulled:
/// one more pull would make the decoder look for a further stream past the
/// end of its input, where version 0.1.5 reads from an empty slice.
#[verifier::external_body]
fn bzip2_decompress(data: &Vec<u8>, len: usize) -> (r: Result<Vec<u8>, BZip2Error>)
    requires
        bzip2_unpacked(data@) matches Some(d) && d.len() == len,
    ensures
        r is Ok,
        r->Ok_0@ == bzip2_unpacked(data@)->0,
{
    data.iter().cloned().decode(&mut BZip2Decoder::new()).take(len).collect::<Result<
        Vec<u8>,
        BZip2Error,
    >>()
}

/// The compressor reported an error.
#[derive(Clone, Copy, Debug, PartialEq, Eq, Structural)]
pub struct PackError;

/// Compresses a serialized command stream.
pub fn pack(data: &Vec<u8>) -> (r: Result<Vec<u8>, PackError>)
    ensures
        match bzip2_packed(data@) {
            Some(c) => r matches Ok(v) && v@ == c && bzip2_unpacked(v@) == Some(data@),
            None => r == Err::<Vec<u8>, PackError>(PackError),
        },
{
    match bzip2_compress(data) {
        Ok(v) => Ok(v),
        Err(_) => Err(PackError),
    }
}

/// Restores a serialized command stream of `len` bytes from its compressed
/// form, which must be a valid bzip2 stream of exactly that many bytes.
pub fn unpack(data: &Vec<u8>, len: usize) -> (r: Vec<u8>)
    requires
        bzip2_unpacked(data@) matches Some(d) && d.len() == len,
    ensures
        Some(r@) == bzip2_unpacked(data@),
{
    match bzip2_decompress(data, len) {
        Ok(v) => v,
        Err(_) => Vec::new(),
    }
}

} // verus!
