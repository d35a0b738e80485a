use objstore::codec::{decimal_bytes, decode, encode, DecodeError, Kind};

#[test]
fn encode_writes_header_then_payload() {
    assert_eq!(encode(Kind::Blob, b"hello\n"), b"blob 6\0hello\n".to_vec());
    assert_eq!(encode(Kind::Tree, b""), b"tree 0\0".to_vec());
    assert_eq!(encode(Kind::Commit, b"ab"), b"commit 2\0ab".to_vec());
    assert_eq!(encode(Kind::Tag, b"t"), b"tag 1\0t".to_vec());
}

#[test]
fn decimal_numerals() {
    assert_eq!(decimal_bytes(0), b"0".to_vec());
    assert_eq!(decimal_bytes(7), b"7".to_vec());
    assert_eq!(decimal_bytes(1024), b"1024".to_vec());
}

#[test]
fn decode_gives_back_kind_and_payload() {
    for kind in [Kind::Blob, Kind::Tree, Kind::Commit, Kind::Tag] {
        for payload in [&b""[..], &b"x"[..], &b"hello\n"[..], &[0u8, 32, 10, 255][..]] {
            let bytes = encode(kind, payload);
            assert_eq!(decode(&bytes), Ok((kind, payload.to_vec())));
        }
    }
    let long = vec![7u8; 12345];
    assert_eq!(decode(&encode(Kind::Blob, &long)), Ok((Kind::Blob, long)));
}

#[test]
fn decode_rejects_missing_nul() {
    assert_eq!(decode(b"blob 5"), Err(DecodeError::MalformedHeader));
    assert_eq!(decode(b""), Err(DecodeError::MalformedHeader));
    let mut far = b"blob ".to_vec();
    far.extend(std::iter::repeat(b'1').take(40));
    far.push(0);
    assert_eq!(decode(&far), Err(DecodeError::MalformedHeader));
}

#[test]
fn decode_rejects_missing_space() {
    assert_eq!(decode(b"blob\0"), Err(DecodeError::MalformedHeader));
}

#[test]
fn decode_rejects_unknown_kind() {
    assert_eq!(decode(b"blub 1\0x"), Err(DecodeError::UnknownKind));
    assert_eq!(decode(b"Blob 1\0x"), Err(DecodeError::UnknownKind));
}

#[test]
fn decode_rejects_bad_length() {
    assert_eq!(decode(b"blob \0"), Err(DecodeError::InvalidLength));
    assert_eq!(decode(b"blob 1x\0x"), Err(DecodeError::InvalidLength));
    assert_eq!(decode(b"blob -1\0"), Err(DecodeError::InvalidLength));
}

#[test]
fn decode_rejects_size_mismatch() {
    assert_eq!(decode(b"blob 2\0x"), Err(DecodeError::SizeMismatch));
    assert_eq!(decode(b"blob 1\0xy"), Err(DecodeError::SizeMismatch));
    assert_eq!(
        decode(b"blob 99999999999999999999999\0x"),
        Err(DecodeError::SizeMismatch)
    );
}
