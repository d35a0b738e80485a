//! The content-addressable store: hashing, compression, and reading back with checks.
use vstd::prelude::*;
use vstd::utf8::encode_utf8;

use crate::codec::{
    all_digits, decode, decode_view, decoded, digits_value, encode, encoded, kind_name,
    lemma_decoded_exact, DecodeError, Kind, MAX_HEADER_LEN,
};
use crate::primitives::{
    hex_encode, hex_of, inflate_of, sha1_digest, sha1_of, zlib_compress, zlib_decompress, zlib_of,
};

verus! {

/// Length of an object hash written in hex.
pub const HASH_HEX_LEN: usize = 40;

/// The identity of an object: the SHA-1 digest of its canonical bytes.
#[derive(Debug, Clone, Copy)]
pub struct ObjectHash {
    pub bytes: [u8; 20],
}

/// An object as read back from the store.
#[derive(Debug)]
pub struct Object {
    pub kind: Kind,
    pub payload: Vec<u8>,
}

/// An object ready to be persisted: its hash, and the compressed canonical bytes that go in
/// the file the hash names.
#[derive(Debug)]
pub struct StoredObject {
    pub hash: ObjectHash,
    pub compressed: Vec<u8>,
}

/// Errors of the store.
#[derive(Debug, Clone, Copy, PartialEq, Eq, Structural)]
pub enum StoreError {
    /// No object is stored under the hash.
    NotFound,
    /// A hash is not 40 hex digits.
    InvalidHash,
    /// The stored file is not exactly one valid compressed stream.
    CorruptObject,
    /// The decompressed bytes are not the canonical form of an object.
    Decode(DecodeError),
    /// The operation does not apply to an object of this kind.
    UnsupportedKind,
    /// A commit identity holds a newline, which would end its header line.
    InvalidIdentity,
    /// A tree or commit payload does not follow its format.
    MalformedPayload,
    /// A payload too long for its header to be counted in memory.
    TooLarge,
}

/// The hash of the object of kind `k` with payload `p`.
pub open spec fn object_id(k: Kind, p: Seq<u8>) -> Seq<u8> {
    sha1_of(encoded(k, p))
}

/// An ASCII hex digit: `0`-`9`, `a`-`f` or `A`-`F`.
pub open spec fn is_hex_digit(c: u8) -> bool {
    (48 <= c <= 57) || (97 <= c <= 102) || (65 <= c <= 70)
}

/// Forty hex digits, either case.
pub open spec fn is_hash_hex(s: Seq<u8>) -> bool {
    s.len() == HASH_HEX_LEN && forall|i: int| 0 <= i < s.len() ==> is_hex_digit(#[trigger] s[i])
}

/// What decoding the decompressed bytes `raw` gives.
pub open spec fn decoded_stored(raw: Seq<u8>) -> Result<(Kind, Seq<u8>), StoreError> {
    match decoded(raw) {
        Ok(kp) => Ok(kp),
        Err(e) => Err(StoreError::Decode(e)),
    }
}

/// A stored file `c` that is what the compressor wrote for `x` reads as `x` decoded; one with
/// bytes appended, or one cut short, is corrupt.
pub open spec fn reads_back(c: Seq<u8>, r: Result<(Kind, Seq<u8>), StoreError>) -> bool {
    &&& forall|x: Seq<u8>| c == #[trigger] zlib_of(x) ==> r == decoded_stored(x)
    &&& forall|x: Seq<u8>, e: Seq<u8>|
        e.len() > 0 && c == #[trigger] (zlib_of(x) + e) ==> r == Err::<(Kind, Seq<u8>), StoreError>(
            StoreError::CorruptObject,
        )
    &&& forall|x: Seq<u8>, k: int|
        0 <= k < zlib_of(x).len() && c == #[trigger] zlib_of(x).take(k) ==> r == Err::<
            (Kind, Seq<u8>),
            StoreError,
        >(StoreError::CorruptObject)
}

/// What reading the stored file `file` gives, or `None` where no file is there.
pub open spec fn read_result(file: Option<Seq<u8>>) -> Result<(Kind, Seq<u8>), StoreError> {
    match file {
        None => Err(StoreError::NotFound),
        Some(c) => match inflate_of(c) {
            None => Err(StoreError::CorruptObject),
            Some((raw, n)) => if n != c.len() {
                Err(StoreError::CorruptObject)
            } else {
                decoded_stored(raw)
            },
        },
    }
}

/// The kind and payload bytes of a read result.
pub open spec fn object_view(r: Result<Object, StoreError>) -> Result<(Kind, Seq<u8>), StoreError> {
    match r {
        Ok(o) => Ok((o.kind, o.payload@)),
        Err(e) => Err(e),
    }
}

impl ObjectHash {
    /// The hash in lowercase hex, 40 digits.
    pub fn to_hex(&self) -> (r: Vec<u8>)
        ensures
            r@ == hex_of(self.bytes@),
    {
        hex_encode(self.bytes.as_slice())
    }
}

/// The hash of the canonical bytes `canonical`.
pub fn hash_of(canonical: &[u8]) -> (r: ObjectHash)
    ensures
        r.bytes@ == sha1_of(canonical@),
{
    ObjectHash { bytes: sha1_digest(canonical) }
}

/// The hash of the canonical bytes `canonical`, and those bytes compressed.
pub fn store_canonical(canonical: &[u8]) -> (r: StoredObject)
    ensures
        r.hash.bytes@ == sha1_of(canonical@),
        r.compressed@ == zlib_of(canonical@),
{
    let hash = hash_of(canonical);
    let compressed = zlib_compress(canonical).unwrap();
    StoredObject { hash, compressed }
}

/// The hash of the object of kind `kind` with payload `payload`, without storing it.
pub fn object_hash(kind: Kind, payload: &[u8]) -> (r: ObjectHash)
    requires
        payload@.len() + MAX_HEADER_LEN <= usize::MAX,
    ensures
        r.bytes@ == object_id(kind, payload@),
{
    let canonical = encode(kind, payload);
    hash_of(canonical.as_slice())
}

/// Prepares the object of kind `kind` with payload `payload` for storing.
pub fn object_write(kind: Kind, payload: &[u8]) -> (r: StoredObject)
    requires
        payload@.len() + MAX_HEADER_LEN <= usize::MAX,
    ensures
        r.hash.bytes@ == object_id(kind, payload@),
        r.compressed@ == zlib_of(encoded(kind, payload@)),
{
    let canonical = encode(kind, payload);
    store_canonical(canonical.as_slice())
}

/// Decompresses and decodes the contents of a stored file; bytes after the compressed stream
/// make it corrupt.
pub fn open_stored(compressed: &[u8]) -> (r: Result<Object, StoreError>)
    ensures
        object_view(r) == read_result(Some(compressed@)),
        reads_back(compressed@, object_view(r)),
{
    let d = zlib_decompress(compressed);
    proof {
        assert forall|x: Seq<u8>, e: Seq<u8>|
            e.len() > 0 && compressed@ == #[trigger] (zlib_of(x) + e) implies inflate_of(compressed@)
            matches Some((raw, n)) && n != compressed@.len() by {}
        assert forall|x: Seq<u8>| compressed@ == #[trigger] zlib_of(x) implies inflate_of(
            compressed@,
        ) == Some((x, compressed@.len())) by {
            assert(compressed@ == zlib_of(x) + Seq::<u8>::empty());
        }
    }
    match d {
        None => Err(StoreError::CorruptObject),
        Some((raw, n)) => {
            if n != compressed.len() as u64 {
                return Err(StoreError::CorruptObject);
            }
            match decode(raw.as_slice()) {
                Ok((kind, payload)) => Ok(Object { kind, payload }),
                Err(e) => Err(StoreError::Decode(e)),
            }
        },
    }
}

/// Reads the object named `hash_hex` from `file`, the contents of the file at its location,
/// or `None` where there is no such file.
pub fn object_read(hash_hex: &[u8], file: Option<&[u8]>) -> (r: Result<Object, StoreError>)
    ensures
        !is_hash_hex(hash_hex@) ==> r == Err::<Object, StoreError>(StoreError::InvalidHash),
        is_hash_hex(hash_hex@) ==> object_view(r) == read_result(
            match file {
                Some(f) => Some(f@),
                None => None,
            },
        ),
        is_hash_hex(hash_hex@) ==> (file matches Some(f) ==> reads_back(f@, object_view(r))),
{
    if !check_hash_hex(hash_hex) {
        return Err(StoreError::InvalidHash);
    }
    match file {
        None => Err(StoreError::NotFound),
        Some(f) => open_stored(f),
    }
}

/// Whether `s` is 40 hex digits.
pub fn check_hash_hex(s: &[u8]) -> (r: bool)
    ensures
        r == is_hash_hex(s@),
{
    if s.len() != HASH_HEX_LEN {
        return false;
    }
    let mut i: usize = 0;
    while i < s.len()
        invariant
            i <= s@.len(),
            forall|j: int| 0 <= j < i ==> is_hex_digit(#[trigger] s@[j]),
        decreases s@.len() - i,
    {
        let c = s[i];
        if !((48 <= c && c <= 57) || (97 <= c && c <= 102) || (65 <= c && c <= 70)) {
            return false;
        }
        i = i + 1;
    }
    true
}

/// Checks that `s` is an object hash in hex: 40 hex digits, either case.
pub fn validate_object_hash(s: &str) -> (r: Result<String, StoreError>)
    ensures
        r matches Ok(v) ==> v@ == s@,
        r is Ok <==> is_hash_hex(encode_utf8(s@)),
        r matches Err(e) ==> e == StoreError::InvalidHash,
{
    if check_hash_hex(s.as_bytes()) {
        Ok(s.to_owned())
    } else {
        Err(StoreError::InvalidHash)
    }
}

/// A hex digit in lowercase.
pub open spec fn lower_digit(c: u8) -> u8 {
    if 65 <= c <= 70 {
        (c + 32) as u8
    } else {
        c
    }
}

/// Hex digits in lowercase, as stored objects are named.
pub open spec fn lower_hex(s: Seq<u8>) -> Seq<u8> {
    s.map_values(|c: u8| lower_digit(c))
}

/// Where the object `hash_hex` lives under the objects directory, in lowercase: the first two
/// digits name the directory, the other 38 the file.
pub fn object_location(hash_hex: &[u8]) -> (r: Result<(Vec<u8>, Vec<u8>), StoreError>)
    ensures
        r matches Ok((d, f)) ==> is_hash_hex(hash_hex@) && d@ == lower_hex(hash_hex@).take(2) && f@
            == lower_hex(hash_hex@).skip(2),
        r is Err ==> !is_hash_hex(hash_hex@) && r == Err::<(Vec<u8>, Vec<u8>), StoreError>(
            StoreError::InvalidHash,
        ),
{
    if !check_hash_hex(hash_hex) {
        return Err(StoreError::InvalidHash);
    }
    let ghost low = lower_hex(hash_hex@);
    let mut dir: Vec<u8> = Vec::new();
    let mut file: Vec<u8> = Vec::new();
    let mut i: usize = 0;
    while i < hash_hex.len()
        invariant
            i <= hash_hex@.len() == HASH_HEX_LEN,
            low == lower_hex(hash_hex@),
            i <= 2 ==> dir@ == low.take(i as int) && file@.len() == 0,
            i > 2 ==> dir@ == low.take(2) && file@ == low.subrange(2, i as int),
        decreases hash_hex@.len() - i,
    {
        let c = hash_hex[i];
        let l = if 65 <= c && c <= 70 {
            c + 32
        } else {
            c
        };
        assert(l == low[i as int]);
        if i < 2 {
            dir.push(l);
        } else {
            file.push(l);
        }
        i = i + 1;
        assert(i <= 2 ==> dir@ =~= low.take(i as int));
        assert(i > 2 ==> file@ =~= low.subrange(2, i as int));
    }
    assert(low.skip(2) =~= low.subrange(2, 40));
    Ok((dir, file))
}

/// Writing the same object twice yields the same hash and the same stored bytes.
pub proof fn lemma_content_addressing(k: Kind, p: Seq<u8>, s1: StoredObject, s2: StoredObject)
    requires
        s1.hash.bytes@ == object_id(k, p),
        s1.compressed@ == zlib_of(encoded(k, p)),
        s2.hash.bytes@ == object_id(k, p),
        s2.compressed@ == zlib_of(encoded(k, p)),
    ensures
        s1.hash.bytes == s2.hash.bytes,
        s1.compressed@ == s2.compressed@,
{
    assert(s1.hash.bytes@ == s2.hash.bytes@);
}


/// A stored file that reads back is read whole: the compressed stream takes every byte of
/// the file, and what it inflates to is a header and the payload, whose declared length is
/// the payload's. That a file cut short or with bytes appended fails to read is stated by
/// `open_stored` and `object_read` (`reads_back`), from what the decompressor gives.
pub proof fn lemma_read_is_exact(c: Seq<u8>, k: Kind, p: Seq<u8>)
    requires
        read_result(Some(c)) == Ok::<(Kind, Seq<u8>), StoreError>((k, p)),
    ensures
        inflate_of(c) is Some,
        inflate_of(c)->Some_0.1 == c.len(),
        exists|t: Seq<u8>|
            #![trigger digits_value(t)]
            t.len() > 0 && all_digits(t) && digits_value(t) == p.len() && inflate_of(c)->Some_0.0
                == kind_name(k) + seq![32u8] + t + seq![0u8] + p,
{
    let raw = inflate_of(c)->Some_0.0;
    lemma_decoded_exact(raw, k, p);
}

} // verus!
