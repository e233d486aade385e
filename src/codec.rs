//! The zlib and gzip codecs of flate2, and the UTF-8 helpers of std.
use std::io::{Read, Write};
use vstd::prelude::*;

verus! {

/// What flate2's gzip decoder yields on `data`: `None` where the stream is invalid.
pub uninterp spec fn gzip_decoded(data: Seq<u8>) -> Option<Seq<u8>>;

/// What flate2's zlib decoder yields on `data`: `None` where the stream is invalid.
pub uninterp spec fn zlib_decoded(data: Seq<u8>) -> Option<Seq<u8>>;

/// What flate2's zlib encoder at the default level writes for `data`.
pub uninterp spec fn zlib_compressed(data: Seq<u8>) -> Seq<u8>;

/// What `String::from_utf8_lossy` makes of bytes that are not valid UTF-8.
pub uninterp spec fn lossy_utf8_invalid(b: Seq<u8>) -> Seq<char>;

/// What `String::from_utf8_lossy` makes of `b`: valid UTF-8 decodes unchanged.
pub open spec fn lossy_utf8(b: Seq<u8>) -> Seq<char> {
    if vstd::utf8::valid_utf8(b) {
        vstd::utf8::decode_utf8(b)
    } else {
        lossy_utf8_invalid(b)
    }
}

/// Relies on flate2::read::GzDecoder::read_to_end: the decoded bytes of one gzip
/// member, or an error.
#[verifier::external_body]
pub(crate) fn gunzip(data: &[u8]) -> (r: Option<Vec<u8>>)
    ensures
        r is Some <==> gzip_decoded(data@) is Some,
        r is Some ==> r->Some_0@ == gzip_decoded(data@)->Some_0,
{
    let mut out = Vec::new();
    flate2::read::GzDecoder::new(data).read_to_end(&mut out).ok().map(|_| out)
}

/// Relies on flate2::write::GzEncoder at the default level: its output is a gzip
/// stream that the gzip decoder turns back into the input.
#[verifier::external_body]
pub(crate) fn gzip(data: &[u8]) -> (r: Vec<u8>)
    ensures
        gzip_decoded(r@) == Some(data@),
{
    let mut enc = flate2::write::GzEncoder::new(Vec::new(), flate2::Compression::default());
    enc.write_all(data).unwrap();
    enc.finish().unwrap()
}

/// Relies on flate2::read::ZlibDecoder::read_to_end: the decoded bytes of a zlib
/// stream, or an error.
#[verifier::external_body]
pub(crate) fn inflate(data: &[u8]) -> (r: Option<Vec<u8>>)
    ensures
        r is Some <==> zlib_decoded(data@) is Some,
        r is Some ==> r->Some_0@ == zlib_decoded(data@)->Some_0,
{
    let mut out = Vec::new();
    flate2::read::ZlibDecoder::new(data).read_to_end(&mut out).ok().map(|_| out)
}

/// Relies on flate2::write::ZlibEncoder at the default level: its output depends
/// on the input alone, and is a zlib stream that the zlib decoder turns back into
/// the input.
#[verifier::external_body]
pub(crate) fn deflate(data: &[u8]) -> (r: Vec<u8>)
    ensures
        r@ == zlib_compressed(data@),
        zlib_decoded(r@) == Some(data@),
{
    let mut enc = flate2::write::ZlibEncoder::new(Vec::new(), flate2::Compression::default());
    enc.write_all(data).unwrap();
    enc.finish().unwrap()
}

/// Relies on String::from_utf8_lossy: valid UTF-8 decodes unchanged, and the
/// result depends on the bytes alone.
#[verifier::external_body]
pub(crate) fn decode_lossy(b: &[u8]) -> (r: String)
    ensures
        vstd::utf8::valid_utf8(b@) ==> r@ == vstd::utf8::decode_utf8(b@),
        !vstd::utf8::valid_utf8(b@) ==> r@ == lossy_utf8_invalid(b@),
{
    String::from_utf8_lossy(b).into_owned()
}

/// The characters of `a` followed by those of `b`.
pub(crate) fn concat(a: &str, b: &str) -> (r: String)
    ensures
        r@ == a@ + b@,
{
    let mut s = <String as vstd::string::StringExecFns>::from_str(a);
    vstd::string::StringExecFns::append(&mut s, b);
    s
}

/// What sha2's SHA-256 gives for `data`, written as lowercase hex.
pub uninterp spec fn sha256_hex(data: Seq<u8>) -> Seq<char>;

/// Relies on sha2::Sha256::digest and the `LowerHex` formatting of its output:
/// the digest of `data` as lowercase hex, a function of the bytes alone.
#[verifier::external_body]
pub(crate) fn sha256_hex_of(data: &[u8]) -> (r: String)
    ensures
        r@ == sha256_hex(data@),
{
    format!("{:x}", <sha2::Sha256 as sha2::Digest>::digest(data))
}

} // verus!
