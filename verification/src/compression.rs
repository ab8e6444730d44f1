use vstd::prelude::*;
use crate::error::FigError;
use std::io::Read;

verus! {

/// The bytes that a raw DEFLATE stream (RFC 1951, no zlib wrapper) decodes to,
/// or `None` when the stream is not valid DEFLATE.
pub uninterp spec fn raw_deflate_decoded(data: Seq<u8>) -> Option<Seq<u8>>;

/// The bytes that a Zstandard stream decodes to, or `None` when it is not a
/// valid Zstandard stream.
pub uninterp spec fn zstd_decoded(data: Seq<u8>) -> Option<Seq<u8>>;

/// True when the data starts with the PNG (`137 80`) or the JPEG (`255 216`)
/// signature: such chunks are images, stored compressed already.
pub open spec fn spec_is_already_compressed(b: Seq<u8>) -> bool {
    b.len() >= 2 && ((b[0] == 137 && b[1] == 80) || (b[0] == 255 && b[1] == 216))
}

/// What `decompress_chunk` gives back: images as they are, otherwise the raw
/// DEFLATE decoding, otherwise the Zstandard decoding; `None` when both fail.
pub open spec fn spec_decompressed(b: Seq<u8>) -> Option<Seq<u8>> {
    if spec_is_already_compressed(b) {
        Some(b)
    } else if raw_deflate_decoded(b) is Some {
        raw_deflate_decoded(b)
    } else {
        zstd_decoded(b)
    }
}

/// True when the data is a PNG or JPEG image, which needs no decompression.
pub fn is_already_compressed(bytes: &[u8]) -> (r: bool)
    ensures
        r == spec_is_already_compressed(bytes@),
{
    if bytes.len() < 2 {
        return false;
    }
    if bytes[0] == 137u8 && bytes[1] == 80u8 {
        return true;
    }
    if bytes[0] == 255u8 && bytes[1] == 216u8 {
        return true;
    }
    false
}

/// Runs `flate2::read::DeflateDecoder` over the bytes to the end of the
/// stream. Claimed: it succeeds exactly when the bytes are a valid raw DEFLATE
/// stream, and then yields the decoded bytes. The error text is that of the
/// `std::io::Error` it reports; nothing is claimed of it.
#[verifier::external_body]
fn inflate_raw(bytes: &[u8]) -> (r: Result<Vec<u8>, String>)
    ensures
        r is Ok <==> raw_deflate_decoded(bytes@) is Some,
        r matches Ok(v) ==> v@ == raw_deflate_decoded(bytes@).unwrap(),
{
    let mut decoder = flate2::read::DeflateDecoder::new(bytes);
    let mut out = Vec::new();
    match decoder.read_to_end(&mut out) {
        Ok(_) => Ok(out),
        Err(e) => Err(e.to_string()),
    }
}

/// Calls `zstd::decode_all` on the bytes. Claimed: it succeeds exactly when the
/// bytes are a valid Zstandard stream, and then yields the decoded bytes. The
/// error text is that of the `std::io::Error` it reports; nothing is claimed of it.
#[verifier::external_body]
fn zstd_decode_all(bytes: &[u8]) -> (r: Result<Vec<u8>, String>)
    ensures
        r is Ok <==> zstd_decoded(bytes@) is Some,
        r matches Ok(v) ==> v@ == zstd_decoded(bytes@).unwrap(),
{
    match zstd::decode_all(bytes) {
        Ok(v) => Ok(v),
        Err(e) => Err(e.to_string()),
    }
}

/// The start of the message of a chunk that neither decoder accepts; the
/// Zstandard decoder's own message follows.
pub open spec fn decompress_failure_prefix() -> Seq<char> {
    "Failed to decompress chunk (tried both DEFLATE and Zstandard): Zstandard decompression failed: "@
}

/// Decompresses a chunk: PNG and JPEG data is returned as it is; otherwise raw
/// DEFLATE is tried first, then Zstandard.
pub fn decompress_chunk(bytes: &[u8]) -> (r: Result<Vec<u8>, FigError>)
    ensures
        match spec_decompressed(bytes@) {
            Some(d) => (r matches Ok(v) && v@ == d),
            None => (r matches Err(FigError::ZipError(m)) && decompress_failure_prefix().is_prefix_of(m@)),
        },
{
    if is_already_compressed(bytes) {
        return Ok(vstd::slice::slice_to_vec(bytes));
    }
    match inflate_raw(bytes) {
        Ok(data) => Ok(data),
        Err(_) => match zstd_decode_all(bytes) {
            Ok(data) => Ok(data),
            Err(e) => {
                let mut msg = String::from_str(
                    "Failed to decompress chunk (tried both DEFLATE and Zstandard): Zstandard decompression failed: ",
                );
                let ghost pre = msg@;
                msg.append(e.as_str());
                assert(decompress_failure_prefix().is_prefix_of(msg@)) by {
                    assert(msg@.subrange(0, pre.len() as int) =~= pre);
                }
                Err(FigError::ZipError(msg))
            },
        },
    }
}

} // verus!
