use objstore::codec::Kind;
use objstore::commit_tree::{commit_payload_bytes, invoke, kvlm_parse, write_commit};
use objstore::objects::{cat_file, write_git_object, GitBlob, GitCommit, GitObject, GitTag, GitTree};
use objstore::store::{object_hash, open_stored, Object, StoreError};

const TREE: &str = "4b825dc642cb6eb9a060e54bf8d69288fbee4904";
const PARENT: &str = "ce013625030ba8dba906f756967f9e9ca394464a";
const WHO: &str = "A U Thor <author@example.com> 1700000000 +0000";

#[test]
fn root_commit_has_tree_and_no_parent() {
    let s = invoke("init\n".to_string(), TREE.to_string(), None, WHO.to_string()).unwrap();
    let o = open_stored(&s.compressed).unwrap();
    assert_eq!(o.kind, Kind::Commit);
    let c = kvlm_parse(&o.payload).unwrap();
    assert_eq!(c.headers[0], (b"tree".to_vec(), TREE.as_bytes().to_vec()));
    assert!(c.headers.iter().all(|h| h.0 != b"parent".to_vec()));
    assert_eq!(c.message, b"init\n".to_vec());
    assert_eq!(s.hash.bytes, object_hash(Kind::Commit, &o.payload).bytes);
}

#[test]
fn commit_payload_layout() {
    let p = commit_payload_bytes(b"msg", TREE.as_bytes(), Some(PARENT.as_bytes()), b"me");
    let expected = format!("tree {TREE}\nparent {PARENT}\nauthor me\ncommitter me\n\nmsg");
    assert_eq!(p, expected.into_bytes());
    let root = commit_payload_bytes(b"m\n\nbody\n", TREE.as_bytes(), None, b"me");
    assert_eq!(root, format!("tree {TREE}\nauthor me\ncommitter me\n\nm\n\nbody\n").into_bytes());
}

#[test]
fn commit_with_parent_reads_back() {
    let s = write_commit(b"second\n", TREE.as_bytes(), Some(PARENT.as_bytes()), WHO.as_bytes()).unwrap();
    let o = open_stored(&s.compressed).unwrap();
    let c = kvlm_parse(&o.payload).unwrap();
    assert_eq!(c.headers.len(), 4);
    assert_eq!(c.headers[1], (b"parent".to_vec(), PARENT.as_bytes().to_vec()));
    assert_eq!(c.headers[2].0, b"author".to_vec());
    assert_eq!(c.headers[2].1, WHO.as_bytes().to_vec());
    assert_eq!(c.headers[3].0, b"committer".to_vec());
    assert_eq!(c.message, b"second\n".to_vec());
}

#[test]
fn commit_needs_valid_hashes() {
    assert_eq!(
        invoke("m".to_string(), "abc".to_string(), None, WHO.to_string()).unwrap_err(),
        StoreError::InvalidHash
    );
    assert_eq!(
        write_commit(b"m", TREE.as_bytes(), Some(b"zz"), b"me").unwrap_err(),
        StoreError::InvalidHash
    );
}

#[test]
fn commit_parse_refuses_malformed_payloads() {
    assert_eq!(kvlm_parse(b"tree abc\n").unwrap_err(), StoreError::MalformedPayload);
    assert_eq!(kvlm_parse(b"treeabc\n\nmsg").unwrap_err(), StoreError::MalformedPayload);
}

#[test]
fn commit_parse_needs_one_tree_and_at_most_one_parent() {
    assert_eq!(kvlm_parse(b"\nonly message").unwrap_err(), StoreError::MalformedPayload);
    assert_eq!(kvlm_parse(b"author me\n\nmsg").unwrap_err(), StoreError::MalformedPayload);
    assert_eq!(
        kvlm_parse(b"tree a\ntree b\n\nmsg").unwrap_err(),
        StoreError::MalformedPayload
    );
    assert_eq!(
        kvlm_parse(b"tree a\nparent b\nparent c\n\nmsg").unwrap_err(),
        StoreError::MalformedPayload
    );
    let c = kvlm_parse(b"author me\ntree a\nparent b\n\nmsg").unwrap();
    assert_eq!(c.headers.len(), 3);
    assert_eq!(c.message, b"msg".to_vec());
}

#[test]
fn commit_refuses_identity_with_newline() {
    assert_eq!(
        write_commit(b"m", TREE.as_bytes(), None, b"me\nparent x").unwrap_err(),
        StoreError::InvalidIdentity
    );
}

#[test]
fn cat_file_prints_blobs_only() {
    let b = Object { kind: Kind::Blob, payload: b"hello\n".to_vec() };
    assert_eq!(cat_file(&b).unwrap(), b"hello\n".to_vec());
    let t = Object { kind: Kind::Tree, payload: Vec::new() };
    assert_eq!(cat_file(&t).unwrap_err(), StoreError::UnsupportedKind);
}

#[test]
fn objects_by_kind_keep_their_payload() {
    let b = GitBlob::build(b"hello\n".to_vec());
    assert_eq!(b.serialize(), b"hello\n".to_vec());
    assert_eq!(b.format(), b"blob".to_vec());
    assert_eq!(GitTree::deserialize(b"t").format(), b"tree".to_vec());
    assert_eq!(GitCommit::deserialize(b"c").kind(), Kind::Commit);
    assert_eq!(GitTag::build(b"g".to_vec()).format(), b"tag".to_vec());
    let s = write_git_object(&b).unwrap();
    assert_eq!(
        String::from_utf8(s.hash.to_hex()).unwrap(),
        "ce013625030ba8dba906f756967f9e9ca394464a"
    );
}
