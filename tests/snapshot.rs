use objstore::codec::Kind;
use objstore::ls_tree::parse_tree_entries;
use objstore::snapshot::{snapshot, Node};
use objstore::store::{object_hash, open_stored};
use objstore::tree::{write_tree_for, Child, FileMode};

fn file(name: &str, content: &[u8]) -> Node {
    Node::File { name: name.as_bytes().to_vec(), mode: FileMode::Regular, content: content.to_vec() }
}

fn dir(name: &str, children: Vec<Node>) -> Node {
    Node::Dir { name: name.as_bytes().to_vec(), children }
}

#[test]
fn nested_empty_directories_snapshot_to_nothing() {
    let nodes = vec![dir("a", vec![dir("b", vec![]), dir("c", vec![dir("d", vec![])])]), dir("e", vec![])];
    let mut out = Vec::new();
    assert!(snapshot(&nodes, &mut out).unwrap().is_none());
    assert!(out.is_empty());
}

#[test]
fn single_file_snapshot_matches_the_tree_of_its_blob() {
    let mut out = Vec::new();
    let h = snapshot(&vec![file("a.txt", b"x")], &mut out).unwrap().unwrap();
    assert_eq!(out.len(), 2);
    let tree = open_stored(&out[1].compressed).unwrap();
    assert_eq!(tree.kind, Kind::Tree);
    let es = parse_tree_entries(&tree.payload).unwrap();
    assert_eq!(es.len(), 1);
    assert_eq!(es[0].mode, b"100644".to_vec());
    assert_eq!(es[0].name, b"a.txt".to_vec());
    assert_eq!(es[0].hash, object_hash(Kind::Blob, b"x").bytes.to_vec());
    assert_eq!(out[1].hash.bytes, h.bytes);
    let blob = open_stored(&out[0].compressed).unwrap();
    assert_eq!(blob.payload, b"x".to_vec());
}

#[test]
fn snapshot_stores_every_blob_and_subtree() {
    let mut out = Vec::new();
    let nodes = vec![dir("sub", vec![file("inner", b"i")]), file("top", b"t")];
    let h = snapshot(&nodes, &mut out).unwrap().unwrap();
    let held = |x: [u8; 20]| out.iter().any(|s| s.hash.bytes == x);
    assert!(held(h.bytes));
    assert!(held(object_hash(Kind::Blob, b"i").bytes));
    assert!(held(object_hash(Kind::Blob, b"t").bytes));
    assert_eq!(out.len(), 4);
}

#[test]
fn empty_subdirectory_is_absent_from_its_parent() {
    let mut out1 = Vec::new();
    let with_empty = snapshot(&vec![dir("empty", vec![dir("deeper", vec![])]), file("f", b"1")], &mut out1)
        .unwrap()
        .unwrap();
    let mut out2 = Vec::new();
    let without = snapshot(&vec![file("f", b"1")], &mut out2).unwrap().unwrap();
    assert_eq!(with_empty.bytes, without.bytes);
}

#[test]
fn nested_snapshot_links_subtrees_by_hash() {
    let mut out = Vec::new();
    let h = snapshot(&vec![dir("sub", vec![file("inner", b"i")]), file("top", b"t")], &mut out)
        .unwrap()
        .unwrap();
    let inner = write_tree_for(&vec![Child {
        name: b"inner".to_vec(),
        mode: FileMode::Regular,
        hash: Some(object_hash(Kind::Blob, b"i")),
    }])
    .unwrap()
    .unwrap();
    let top = write_tree_for(&vec![
        Child { name: b"top".to_vec(), mode: FileMode::Regular, hash: Some(object_hash(Kind::Blob, b"t")) },
        Child { name: b"sub".to_vec(), mode: FileMode::Directory, hash: Some(inner.hash) },
    ])
    .unwrap()
    .unwrap();
    assert_eq!(h.bytes, top.hash.bytes);
}

#[test]
fn order_at_every_level_does_not_matter() {
    let a = vec![dir("d", vec![file("x", b"1"), file("y", b"2")]), file("z", b"3")];
    let b = vec![file("z", b"3"), dir("d", vec![file("y", b"2"), file("x", b"1")])];
    let (mut o1, mut o2) = (Vec::new(), Vec::new());
    let h1 = snapshot(&a, &mut o1).unwrap().unwrap();
    let h2 = snapshot(&b, &mut o2).unwrap().unwrap();
    assert_eq!(h1.bytes, h2.bytes);
}

#[test]
fn metadata_directory_is_not_snapshotted() {
    let mut out = Vec::new();
    let nodes = vec![dir(".git", vec![file("HEAD", b"ref")])];
    assert!(snapshot(&nodes, &mut out).unwrap().is_none());
    assert!(out.is_empty());
}
