//! The calls into outside crates that the store's logic makes: digest, compression and hex.
use std::io::{Read, Write};

use sha1::Digest;
use vstd::prelude::*;

verus! {

/// The SHA-1 digest of a byte sequence.
pub uninterp spec fn sha1_of(data: Seq<u8>) -> Seq<u8>;

/// The zlib stream that flate2 writes for a byte sequence at the default level.
pub uninterp spec fn zlib_of(data: Seq<u8>) -> Seq<u8>;

/// What flate2 inflates the zlib stream at the start of a byte sequence to, with the number
/// of bytes that the stream takes, or `None` where the stream is not valid.
pub uninterp spec fn inflate_of(data: Seq<u8>) -> Option<(Seq<u8>, nat)>;

/// The lowercase hex digit of a value below 16.
pub open spec fn hex_digit(d: u8) -> u8 {
    if d < 10 {
        (48 + d) as u8
    } else {
        (87 + d) as u8
    }
}

/// Two lowercase hex digits for each byte, high half first.
pub open spec fn hex_of(b: Seq<u8>) -> Seq<u8>
    decreases b.len(),
{
    if b.len() == 0 {
        Seq::empty()
    } else {
        hex_of(b.drop_last()) + seq![hex_digit(b.last() / 16), hex_digit(b.last() % 16)]
    }
}

/// Relies on `sha1::Sha1::digest` (through `digest::Digest`): the 20-byte SHA-1 digest of
/// `data`.
#[verifier::external_body]
pub(crate) fn sha1_digest(data: &[u8]) -> (r: [u8; 20])
    ensures
        r@ == sha1_of(data@),
{
    sha1::Sha1::digest(data).into()
}

/// Relies on `flate2::write::ZlibEncoder` at `Compression::default()`, written into a `Vec`:
/// the zlib stream of `data`. Writing into a `Vec` does not fail, and the compressor reports
/// an error only on a stream used after it finished, so the result is always there.
#[verifier::external_body]
pub(crate) fn zlib_compress(data: &[u8]) -> (r: Option<Vec<u8>>)
    ensures
        r is Some,
        r matches Some(c) ==> c@ == zlib_of(data@),
{
    let mut encoder = flate2::write::ZlibEncoder::new(Vec::new(), flate2::Compression::default());
    match encoder.write_all(data) {
        Ok(()) => encoder.finish().ok(),
        Err(_) => None,
    }
}

/// Relies on `flate2::read::ZlibDecoder` read to its end, and its `total_in`: the bytes that
/// the zlib stream at the start of `data` inflates to, with the number of input bytes that
/// the stream took, or `None` where the stream is not valid or ends early. Inflating what the
/// encoder wrote gives back what was encoded, as the format is lossless; the stream stops at
/// its end, so bytes after it are not taken; a stream cut short is an error.
#[verifier::external_body]
pub(crate) fn zlib_decompress(data: &[u8]) -> (r: Option<(Vec<u8>, u64)>)
    ensures
        r matches Some((v, n)) ==> inflate_of(data@) == Some((v@, n as nat)),
        r is None ==> inflate_of(data@) is None,
        r is Some || forall|x: Seq<u8>, e: Seq<u8>| data@ != zlib_of(x) + e,
        r matches Some((v, n)) ==> forall|x: Seq<u8>, e: Seq<u8>|
            data@ == zlib_of(x) + e ==> v@ == x && n == zlib_of(x).len(),
        r is None || forall|x: Seq<u8>, k: int|
            0 <= k < zlib_of(x).len() ==> data@ != zlib_of(x).take(k),
{
    let mut decoder = flate2::read::ZlibDecoder::new(data);
    let mut out: Vec<u8> = Vec::new();
    match decoder.read_to_end(&mut out) {
        Ok(_) => Some((out, decoder.total_in())),
        Err(_) => None,
    }
}

/// Relies on `hex::encode`: two lowercase hex digits for each byte, high half first.
#[verifier::external_body]
pub(crate) fn hex_encode(b: &[u8]) -> (r: Vec<u8>)
    ensures
        r@ == hex_of(b@),
{
    hex::encode(b).into_bytes()
}

} // verus!
