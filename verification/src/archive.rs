//! Best-effort compression of archive blobs, as an opaque byte transform:
//! whatever the encoder produces, decoding it restores the original bytes.

use vstd::prelude::*;
use crate::installation::TaskError;

verus! {

/// What gzip decoding yields on the given bytes: the decoded payload, or
/// nothing when the bytes are not a well-formed gzip stream. The decoded
/// bytes depend on the input alone.
pub uninterp spec fn gunzip_of(data: Seq<u8>) -> Option<Seq<u8>>;

/// Relies on libflate's gzip encoder (`gzip::Encoder` over an in-memory
/// buffer): decoding whatever it emits restores the bytes that were written,
/// and the encode succeeds — every error path of the encoder propagates a
/// write error of its sink, and the sink here is a `Vec`, whose writes never
/// fail.
#[verifier::external_body]
fn gzip_encode(data: &[u8]) -> (r: Result<Vec<u8>, String>)
    ensures
        r is Ok,
        r matches Ok(v) ==> gunzip_of(v@) == Some(data@),
{
    let mut encoder = libflate::gzip::Encoder::new(Vec::new()).map_err(|e| e.to_string())?;
    std::io::Write::write_all(&mut encoder, data).map_err(|e| e.to_string())?;
    encoder.finish().into_result().map_err(|e| e.to_string())
}

/// Relies on libflate's gzip decoder (`gzip::Decoder` over an in-memory
/// slice): the decoded bytes are a function of the input bytes alone, and
/// decoding fails exactly on input that is not a well-formed gzip stream.
#[verifier::external_body]
fn gzip_decode(data: &[u8]) -> (r: Result<Vec<u8>, String>)
    ensures
        r matches Ok(v) ==> gunzip_of(data@) == Some(v@),
        r matches Err(_) ==> gunzip_of(data@) is None,
{
    let mut decoder = libflate::gzip::Decoder::new(data).map_err(|e| e.to_string())?;
    let mut decoded_data = Vec::new();
    std::io::Read::read_to_end(&mut decoder, &mut decoded_data).map_err(|e| e.to_string())?;
    Ok(decoded_data)
}

/// Compresses an archive blob. Always succeeds — the whole transform happens
/// in memory — and whatever comes back decompresses to the original bytes.
pub fn compress(archive: &Vec<u8>) -> (r: Result<Vec<u8>, TaskError>)
    ensures
        r is Ok,
        r matches Ok(v) ==> gunzip_of(v@) == Some(archive@),
{
    match gzip_encode(archive.as_slice()) {
        Ok(v) => Ok(v),
        Err(m) => Err(TaskError { message: m }),
    }
}

/// Decompresses a blob produced by [`compress`]. Succeeds exactly on
/// well-formed compressed input, returning the original bytes.
pub fn decompress(encoded_data: &[u8]) -> (r: Result<Vec<u8>, TaskError>)
    ensures
        r matches Ok(v) ==> gunzip_of(encoded_data@) == Some(v@),
        r matches Err(_) ==> gunzip_of(encoded_data@) is None,
{
    match gzip_decode(encoded_data) {
        Ok(v) => Ok(v),
        Err(m) => Err(TaskError { message: m }),
    }
}

/// Fetching a remote archive is no concern of this crate; the function
/// performs no work.
pub fn download() {
}

} // verus!
