use objstore::codec::{encode, DecodeError, Kind};
use objstore::store::{
    hash_of, object_hash, object_location, object_read, object_write, open_stored,
    store_canonical, validate_object_hash, StoreError,
};

fn hex(kind: Kind, payload: &[u8]) -> String {
    String::from_utf8(object_hash(kind, payload).to_hex()).unwrap()
}

#[test]
fn hello_blob_has_the_well_known_hash() {
    let h = hex(Kind::Blob, b"hello\n");
    assert!(h.starts_with("ce013625030ba8dba906f756967f9e9ca394464"));
    assert_eq!(h, "ce013625030ba8dba906f756967f9e9ca394464a");
}

#[test]
fn empty_objects_have_the_well_known_hashes() {
    assert_eq!(hex(Kind::Blob, b""), "e69de29bb2d1d6434b8b29ae775ad8c2e48c5391");
    assert_eq!(hex(Kind::Tree, b""), "4b825dc642cb6eb9a060e54bf8d69288fbee4904");
}

#[test]
fn hash_is_over_the_canonical_bytes() {
    let canonical = encode(Kind::Blob, b"hello world\n");
    assert_eq!(
        hash_of(&canonical).bytes,
        object_hash(Kind::Blob, b"hello world\n").bytes
    );
    assert_eq!(
        String::from_utf8(hash_of(&canonical).to_hex()).unwrap(),
        "3b18e512dba79e4c8300dd08aeb37f8e728b8dad"
    );
}

#[test]
fn hex_has_two_digits_per_byte() {
    let h = object_hash(Kind::Blob, b"hello\n");
    let x = h.to_hex();
    assert_eq!(x.len(), 40);
    assert_eq!(x[0], b'c');
    assert_eq!(x[1], b'e');
    assert_ne!(x, h.bytes.to_vec());
}

#[test]
fn writing_twice_gives_the_same_hash_and_bytes() {
    let a = object_write(Kind::Blob, b"same content");
    let b = object_write(Kind::Blob, b"same content");
    assert_eq!(a.hash.bytes, b.hash.bytes);
    assert_eq!(a.compressed, b.compressed);
    let c = store_canonical(&encode(Kind::Blob, b"same content"));
    assert_eq!(c.hash.bytes, a.hash.bytes);
    assert_eq!(c.compressed, a.compressed);
}

#[test]
fn stored_bytes_are_compressed_and_read_back() {
    let s = object_write(Kind::Blob, b"hello\n");
    assert_ne!(s.compressed, encode(Kind::Blob, b"hello\n"));
    let o = open_stored(&s.compressed).unwrap();
    assert_eq!(o.kind, Kind::Blob);
    assert_eq!(o.payload, b"hello\n".to_vec());
}

#[test]
fn truncated_object_is_corrupt() {
    let s = object_write(Kind::Blob, b"some longer content for the stream\n");
    for cut in 0..s.compressed.len() {
        let r = open_stored(&s.compressed[..cut]);
        assert!(r.is_err(), "cut at {cut}");
    }
    assert_eq!(
        open_stored(&s.compressed[..s.compressed.len() - 1]).unwrap_err(),
        StoreError::CorruptObject
    );
}

#[test]
fn appended_bytes_make_an_object_corrupt() {
    let s = object_write(Kind::Blob, b"content\n");
    let mut longer = s.compressed.clone();
    longer.extend_from_slice(b"garbage");
    assert_eq!(open_stored(&longer).unwrap_err(), StoreError::CorruptObject);
}

#[test]
fn declared_size_must_match() {
    let s = store_canonical(b"blob 5\0abc");
    assert_eq!(
        open_stored(&s.compressed).unwrap_err(),
        StoreError::Decode(DecodeError::SizeMismatch)
    );
}

#[test]
fn reading_a_missing_object_is_not_found() {
    let h = b"ce013625030ba8dba906f756967f9e9ca394464a";
    assert_eq!(object_read(h, None).unwrap_err(), StoreError::NotFound);
}

#[test]
fn reading_with_a_bad_hash_is_refused() {
    assert_eq!(object_read(b"xyz", None).unwrap_err(), StoreError::InvalidHash);
}

#[test]
fn reading_a_present_object() {
    let s = object_write(Kind::Tree, b"");
    let h = s.hash.to_hex();
    let o = object_read(&h, Some(&s.compressed)).unwrap();
    assert_eq!(o.kind, Kind::Tree);
    assert!(o.payload.is_empty());
}

#[test]
fn location_splits_after_two_digits() {
    let (d, f) = object_location(b"ce013625030ba8dba906f756967f9e9ca394464a").unwrap();
    assert_eq!(d, b"ce".to_vec());
    assert_eq!(f, b"013625030ba8dba906f756967f9e9ca394464a".to_vec());
    assert_eq!(object_location(b"ce01").unwrap_err(), StoreError::InvalidHash);
    let (d, f) = object_location(b"CE013625030BA8DBA906F756967F9E9CA394464A").unwrap();
    assert_eq!(d, b"ce".to_vec());
    assert_eq!(f, b"013625030ba8dba906f756967f9e9ca394464a".to_vec());
}

#[test]
fn validate_accepts_forty_hex_digits() {
    let good = "CE013625030ba8dba906f756967f9e9ca394464a";
    assert_eq!(validate_object_hash(good), Ok(good.to_string()));
    assert_eq!(
        validate_object_hash("ce01"),
        Err(StoreError::InvalidHash)
    );
    assert_eq!(
        validate_object_hash("ge013625030ba8dba906f756967f9e9ca394464a"),
        Err(StoreError::InvalidHash)
    );
}
