use objstore::codec::Kind;
use objstore::ls_tree::{invoke as ls_tree, parse_tree_entries};
use objstore::store::{object_hash, object_write, open_stored, Object, ObjectHash, StoreError};
use objstore::tree::{
    child_entries, entry_less, mode_bytes, mode_for, sort_entries, tree_payload_bytes,
    write_tree_for, Child, FileMode, TreeEntry,
};

fn blob(content: &[u8]) -> ObjectHash {
    object_hash(Kind::Blob, content)
}

fn file(name: &str, content: &[u8]) -> Child {
    Child { name: name.as_bytes().to_vec(), mode: FileMode::Regular, hash: Some(blob(content)) }
}

fn entry(name: &str, mode: FileMode) -> TreeEntry {
    TreeEntry { mode, name: name.as_bytes().to_vec(), hash: blob(name.as_bytes()) }
}

fn tree_of(children: &Vec<Child>) -> Object {
    let s = write_tree_for(children).unwrap().unwrap();
    open_stored(&s.compressed).unwrap()
}

#[test]
fn modes_follow_file_type_and_permissions() {
    assert_eq!(mode_for(true, false, 0o755), FileMode::Directory);
    assert_eq!(mode_for(false, true, 0o777), FileMode::Symlink);
    assert_eq!(mode_for(false, false, 0o744), FileMode::Executable);
    assert_eq!(mode_for(false, false, 0o001), FileMode::Executable);
    assert_eq!(mode_for(false, false, 0o644), FileMode::Regular);
    assert_eq!(mode_bytes(FileMode::Regular), b"100644".to_vec());
    assert_eq!(mode_bytes(FileMode::Executable), b"100755".to_vec());
    assert_eq!(mode_bytes(FileMode::Symlink), b"120000".to_vec());
    assert_eq!(mode_bytes(FileMode::Directory), b"40000".to_vec());
}

#[test]
fn one_file_tree_lists_its_blob() {
    let t = tree_of(&vec![file("a.txt", b"x")]);
    assert_eq!(t.kind, Kind::Tree);
    let es = parse_tree_entries(&t.payload).unwrap();
    assert_eq!(es.len(), 1);
    assert_eq!(es[0].mode, b"100644".to_vec());
    assert_eq!(es[0].name, b"a.txt".to_vec());
    assert_eq!(es[0].hash, blob(b"x").bytes.to_vec());
    let mut expected = b"100644 a.txt\0".to_vec();
    expected.extend_from_slice(&blob(b"x").bytes);
    assert_eq!(t.payload, expected);
}

#[test]
fn directories_sort_as_if_followed_by_a_slash() {
    let dir = entry("foo", FileMode::Directory);
    let dotted = entry("foo.txt", FileMode::Regular);
    let plain = entry("foo", FileMode::Regular);
    assert!(entry_less(&dotted, &dir));
    assert!(!entry_less(&dir, &dotted));
    assert!(entry_less(&plain, &dotted));
    let sorted = sort_entries(vec![
        entry("foo", FileMode::Directory),
        entry("b", FileMode::Regular),
        entry("foo.txt", FileMode::Regular),
        entry("a", FileMode::Executable),
        entry("foo-bar", FileMode::Regular),
    ]);
    let names: Vec<Vec<u8>> = sorted.iter().map(|e| e.name.clone()).collect();
    assert_eq!(
        names,
        vec![
            b"a".to_vec(),
            b"b".to_vec(),
            b"foo-bar".to_vec(),
            b"foo.txt".to_vec(),
            b"foo".to_vec()
        ]
    );
}

#[test]
fn enumeration_order_does_not_change_the_tree() {
    let sub = Some(object_write(Kind::Tree, b"x").hash);
    let make = |order: &[usize]| -> Vec<Child> {
        let all = [
            ("zeta", FileMode::Regular, Some(blob(b"1"))),
            ("alpha", FileMode::Executable, Some(blob(b"2"))),
            ("dir", FileMode::Directory, sub),
            ("dir.txt", FileMode::Regular, Some(blob(b"3"))),
        ];
        order
            .iter()
            .map(|&i| Child { name: all[i].0.as_bytes().to_vec(), mode: all[i].1, hash: all[i].2 })
            .collect()
    };
    let a = write_tree_for(&make(&[0, 1, 2, 3])).unwrap().unwrap();
    let b = write_tree_for(&make(&[3, 2, 1, 0])).unwrap().unwrap();
    let c = write_tree_for(&make(&[2, 0, 3, 1])).unwrap().unwrap();
    assert_eq!(a.hash.bytes, b.hash.bytes);
    assert_eq!(a.hash.bytes, c.hash.bytes);
    assert_eq!(a.compressed, c.compressed);
}

#[test]
fn empty_subdirectories_are_left_out() {
    let only_empty = vec![
        Child { name: b"e1".to_vec(), mode: FileMode::Directory, hash: None },
        Child { name: b"e2".to_vec(), mode: FileMode::Directory, hash: None },
    ];
    assert!(write_tree_for(&only_empty).unwrap().is_none());
    assert!(write_tree_for(&Vec::new()).unwrap().is_none());

    let mixed = vec![
        Child { name: b"empty".to_vec(), mode: FileMode::Directory, hash: None },
        file("a.txt", b"x"),
    ];
    let t = tree_of(&mixed);
    let es = parse_tree_entries(&t.payload).unwrap();
    assert_eq!(es.len(), 1);
    assert_eq!(es[0].name, b"a.txt".to_vec());
    assert_eq!(
        write_tree_for(&mixed).unwrap().unwrap().hash.bytes,
        write_tree_for(&vec![file("a.txt", b"x")]).unwrap().unwrap().hash.bytes
    );
}

#[test]
fn metadata_directory_is_left_out() {
    let with_meta = vec![
        Child { name: b".git".to_vec(), mode: FileMode::Directory, hash: Some(blob(b"m")) },
        file("a.txt", b"x"),
    ];
    let es = child_entries(&with_meta);
    assert_eq!(es.len(), 1);
    let only_meta = vec![Child { name: b".git".to_vec(), mode: FileMode::Directory, hash: Some(blob(b"m")) }];
    assert!(write_tree_for(&only_meta).unwrap().is_none());
}

#[test]
fn payload_concatenates_entries() {
    let es = vec![entry("a", FileMode::Regular), entry("d", FileMode::Directory)];
    let p = tree_payload_bytes(&es);
    let mut expected = b"100644 a\0".to_vec();
    expected.extend_from_slice(&blob(b"a").bytes);
    expected.extend_from_slice(b"40000 d\0");
    expected.extend_from_slice(&blob(b"d").bytes);
    assert_eq!(p, expected);
    let back = parse_tree_entries(&p).unwrap();
    assert_eq!(back.len(), 2);
    assert_eq!(back[1].mode, b"40000".to_vec());
    assert_eq!(back[1].name, b"d".to_vec());
}

#[test]
fn short_hash_in_tree_is_refused() {
    let mut p = b"100644 a\0".to_vec();
    p.extend_from_slice(&[1u8; 19]);
    assert!(parse_tree_entries(&p).is_none());
    assert!(parse_tree_entries(b"100644a\0aaaaaaaaaaaaaaaaaaaa").is_none());
    assert!(parse_tree_entries(b"100644 a").is_none());
    assert_eq!(parse_tree_entries(b"").unwrap().len(), 0);
}

#[test]
fn listing_names_only_and_full() {
    let t = tree_of(&vec![
        file("a.txt", b"x"),
        Child {
            name: b"sub".to_vec(),
            mode: FileMode::Directory,
            hash: Some(object_write(Kind::Tree, b"").hash),
        },
    ]);
    assert_eq!(ls_tree(true, &t).unwrap(), b"a.txt\nsub\n".to_vec());
    let full = String::from_utf8(ls_tree(false, &t).unwrap()).unwrap();
    let x = String::from_utf8(blob(b"x").to_hex()).unwrap();
    assert_eq!(
        full,
        format!(
            "100644 blob {x} a.txt\n040000 tree 4b825dc642cb6eb9a060e54bf8d69288fbee4904 sub\n"
        )
    );
}

#[test]
fn listing_needs_a_tree() {
    let b = Object { kind: Kind::Blob, payload: b"x".to_vec() };
    assert_eq!(ls_tree(true, &b).unwrap_err(), StoreError::UnsupportedKind);
    let bad = Object { kind: Kind::Tree, payload: b"100644 a".to_vec() };
    assert_eq!(ls_tree(false, &bad).unwrap_err(), StoreError::MalformedPayload);
}
