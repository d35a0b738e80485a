//! Snapshotting a whole directory tree, held in memory, into blob and tree objects.
use vstd::prelude::*;

use crate::codec::{copy_of, encoded, Kind, MAX_HEADER_LEN};
use crate::primitives::{sha1_of, zlib_of};
use crate::store::{object_id, object_write, ObjectHash, StoreError, StoredObject};
use crate::tree::{
    child_entry, child_views, entry_bytes, is_kept, is_metadata_dir, is_sorted_of, is_tree_of,
    kept_entries, lemma_kept_contains, lemma_tree_determinism, metadata_dir_name, mode_text,
    names_valid, tree_payload, write_tree_for, Child, ChildV, EntryV, FileMode,
};

verus! {

broadcast use vstd::std_specs::vec::axiom_vec_index_decreases;

/// A directory tree as read from disk: files with their content, directories with their
/// children.
#[derive(Debug)]
pub enum Node {
    File { name: Vec<u8>, mode: FileMode, content: Vec<u8> },
    Dir { name: Vec<u8>, children: Vec<Node> },
}

/// Whether a node, outside the metadata directory, holds a file somewhere.
pub open spec fn holds_file(n: Node) -> bool
    decreases n,
{
    match n {
        Node::File { name, .. } => name@ != metadata_dir_name(),
        Node::Dir { name, children } => name@ != metadata_dir_name() && exists|i: int|
            0 <= i < children.len() && holds_file(#[trigger] children[i]),
    }
}

/// `c` is the child that node `n` gives to its directory's tree: a file gives its blob's
/// hash, a directory its own snapshot's, and the metadata directory nothing.
pub open spec fn node_gives(n: Node, c: ChildV) -> bool
    decreases n,
{
    match n {
        Node::File { name, mode, content } => if name@ == metadata_dir_name() {
            c == (name@, mode, None::<Seq<u8>>)
        } else {
            c == (name@, mode, Some(object_id(Kind::Blob, content@)))
        },
        Node::Dir { name, children } => c.0 == name@ && c.1 == FileMode::Directory && if name@
            == metadata_dir_name() {
            c.2 is None
        } else {
            dir_snapshot(children, c.2)
        },
    }
}

/// `h` is the snapshot of a directory with children `v`: the hash of the tree object of what
/// they give, or `None` where they give no entry.
pub open spec fn dir_snapshot(v: Vec<Node>, h: Option<Seq<u8>>) -> bool
    decreases v,
{
    exists|cs: Seq<ChildV>|
        #![trigger kept_entries(cs)]
        cs.len() == v.len() && (forall|i: int| 0 <= i < v.len() ==> node_gives(v[i], #[trigger] cs[i]))
            && (kept_entries(cs).len() == 0 <==> h is None) && (h is Some ==> exists|z: Seq<u8>|
            #[trigger] is_tree_of(cs, h->Some_0, z))
}

/// The mode a node is listed with.
pub open spec fn node_mode(n: Node) -> FileMode {
    match n {
        Node::File { mode, .. } => mode,
        Node::Dir { .. } => FileMode::Directory,
    }
}

/// The length of the entry a node gives: mode, space, name, NUL and 20 hash bytes.
pub open spec fn entry_len(n: Node) -> nat {
    mode_text(node_mode(n)).len() + node_name(n).len() + 22
}

/// The length of the tree payload of a directory with children `v`: the entries of the
/// children that hold a file.
pub open spec fn level_len(v: Seq<Node>) -> nat
    decreases v.len(),
{
    if v.len() == 0 {
        0
    } else {
        level_len(v.drop_last()) + if holds_file(v.last()) {
            entry_len(v.last())
        } else {
            0
        }
    }
}

/// Every file's content and every directory's tree payload below `v`, and `v`'s own, are
/// short enough for their headers to be counted in memory.
pub open spec fn fits(v: Vec<Node>) -> bool
    decreases v,
{
    &&& level_len(v@) + MAX_HEADER_LEN <= usize::MAX
    &&& forall|i: int|
        0 <= i < v.len() ==> match #[trigger] v[i] {
            Node::File { content, .. } => content.len() + MAX_HEADER_LEN <= usize::MAX,
            Node::Dir { children, .. } => fits(children),
        }
}

/// `out` holds an object with hash `h`.
pub open spec fn holds_object(out: Seq<StoredObject>, h: Seq<u8>) -> bool {
    exists|k: int| 0 <= k < out.len() && #[trigger] out[k].hash.bytes@ == h
}

/// `out` holds what node `n` needs: a file's blob, and a directory's tree with everything
/// below it.
pub open spec fn node_stored(n: Node, out: Seq<StoredObject>) -> bool
    decreases n,
{
    match n {
        Node::File { name, content, .. } => name@ == metadata_dir_name() || holds_object(
            out,
            object_id(Kind::Blob, content@),
        ),
        Node::Dir { name, children } => name@ == metadata_dir_name() || (all_stored(children, out)
            && (holds_file(n) ==> exists|h: Seq<u8>|
            dir_snapshot(children, Some(h)) && #[trigger] holds_object(out, h))),
    }
}

/// `out` holds what each of the nodes `v` needs.
pub open spec fn all_stored(v: Vec<Node>, out: Seq<StoredObject>) -> bool
    decreases v,
{
    forall|i: int| 0 <= i < v.len() ==> node_stored(#[trigger] v[i], out)
}

/// An object held stays held as more are appended.
pub proof fn lemma_holds_object_mono(a: Seq<StoredObject>, b: Seq<StoredObject>, h: Seq<u8>)
    requires
        holds_object(a, h),
        extends(a, b),
    ensures
        holds_object(b, h),
{
    let k = choose|k: int| 0 <= k < a.len() && #[trigger] a[k].hash.bytes@ == h;
    assert(b.take(a.len() as int)[k] == b[k]);
}

/// What a node needs stays held as more objects are appended.
pub proof fn lemma_node_stored_mono(n: Node, a: Seq<StoredObject>, b: Seq<StoredObject>)
    requires
        node_stored(n, a),
        extends(a, b),
    ensures
        node_stored(n, b),
    decreases n, 0nat,
{
    match n {
        Node::File { name, content, .. } => {
            if name@ != metadata_dir_name() {
                lemma_holds_object_mono(a, b, object_id(Kind::Blob, content@));
            }
        },
        Node::Dir { name, children } => {
            if name@ != metadata_dir_name() {
                lemma_all_stored_mono(children, a, b);
                if holds_file(n) {
                    let h = choose|h: Seq<u8>| dir_snapshot(children, Some(h)) && #[trigger] holds_object(a, h);
                    lemma_holds_object_mono(a, b, h);
                }
            }
        },
    }
}

/// What the nodes need stays held as more objects are appended.
pub proof fn lemma_all_stored_mono(v: Vec<Node>, a: Seq<StoredObject>, b: Seq<StoredObject>)
    requires
        all_stored(v, a),
        extends(a, b),
    ensures
        all_stored(v, b),
    decreases v, 1nat,
{
    assert forall|i: int| 0 <= i < v.len() implies node_stored(#[trigger] v[i], b) by {
        lemma_node_stored_mono(v[i], a, b);
    }
}

/// The bytes of a snapshot's hash.
pub open spec fn hash_view(h: Option<ObjectHash>) -> Option<Seq<u8>> {
    match h {
        Some(x) => Some(x.bytes@),
        None => None,
    }
}

/// `s` holds some bytes compressed, under their hash.
pub open spec fn is_stored_form(s: StoredObject) -> bool {
    exists|x: Seq<u8>| s.hash.bytes@ == sha1_of(x) && s.compressed@ == zlib_of(x)
}

/// `out` is `before` with stored objects appended.
pub open spec fn extends(before: Seq<StoredObject>, out: Seq<StoredObject>) -> bool {
    &&& before.len() <= out.len()
    &&& out.take(before.len() as int) == before
    &&& forall|i: int| before.len() <= i < out.len() ==> is_stored_form(#[trigger] out[i])
}

/// The children `cs` that `v` gives, with a tree stored as `x` and `z`, witness the
/// snapshot `x`.
pub proof fn lemma_dir_snapshot_intro(v: Vec<Node>, x: Seq<u8>, z: Seq<u8>, cs: Seq<ChildV>)
    requires
        cs.len() == v.len(),
        forall|i: int| 0 <= i < v.len() ==> node_gives(v[i], #[trigger] cs[i]),
        kept_entries(cs).len() != 0,
        is_tree_of(cs, x, z),
    ensures
        dir_snapshot(v, Some(x)),
{
    let h = Some(x);
    assert(is_tree_of(cs, h->Some_0, z));
}

/// Appending one stored object only appends.
pub proof fn lemma_push_extends(a: Seq<StoredObject>, s: StoredObject)
    requires
        is_stored_form(s),
    ensures
        extends(a, a.push(s)),
{
    assert(a.push(s).take(a.len() as int) =~= a);
}

/// Appending to what was appended to still only appends.
pub proof fn lemma_extends_trans(a: Seq<StoredObject>, b: Seq<StoredObject>, c: Seq<StoredObject>)
    requires
        extends(a, b),
        extends(b, c),
    ensures
        extends(a, c),
{
    assert forall|k: int| a.len() <= k < c.len() implies is_stored_form(#[trigger] c[k]) by {
        if k < b.len() {
            assert(c[k] == c.take(b.len() as int)[k]);
            assert(b[k] == c[k]);
        }
    }
    assert(c.take(a.len() as int) =~= c.take(b.len() as int).take(a.len() as int));
}

/// Snapshots a directory with children `nodes`: appends to `out` a blob for each file and a
/// tree for each directory that holds a file, and returns the directory's own tree hash, or
/// `None` where it holds no file. The metadata directory is left out.
pub fn snapshot(nodes: &Vec<Node>, out: &mut Vec<StoredObject>) -> (r: Result<
    Option<ObjectHash>,
    StoreError,
>)
    ensures
        r matches Ok(h) ==> dir_snapshot(*nodes, hash_view(h)),
        r matches Ok(h) ==> (h is Some <==> exists|i: int|
            0 <= i < nodes.len() && holds_file(#[trigger] nodes[i])),
        r matches Err(e) ==> e == StoreError::TooLarge,
        fits(*nodes) ==> r is Ok,
        r is Ok ==> all_stored(*nodes, final(out)@),
        r matches Ok(Some(h)) ==> holds_object(final(out)@, h.bytes@),
        extends(old(out)@, final(out)@),
    decreases nodes,
{
    let ghost start = out@;
    assert(start.take(start.len() as int) =~= start);
    let mut children: Vec<Child> = Vec::new();
    let mut i: usize = 0;
    assert(child_views(children@) =~= Seq::<ChildV>::empty());
    assert(nodes@.take(0) =~= Seq::<Node>::empty());
    assert(kept_entries(Seq::<ChildV>::empty()) =~= Seq::<EntryV>::empty());
    while i < nodes.len()
        invariant
            i <= nodes@.len(),
            children@.len() == i,
            forall|j: int| 0 <= j < i ==> node_gives(nodes[j], #[trigger] children@[j]@),
            extends(start, out@),
            start == old(out)@,
            tree_payload(kept_entries(child_views(children@))).len() == level_len(nodes@.take(i as int)),
            forall|j: int| 0 <= j < i ==> node_stored(#[trigger] nodes[j], out@),
        decreases nodes@.len() - i,
    {
        let ghost before = out@;
        let ghost old_children = children@;
        match &nodes[i] {
            Node::File { name, mode, content } => {
                if is_metadata_dir(name) {
                    children.push(Child { name: copy_of(name.as_slice()), mode: *mode, hash: None });
                } else {
                    if content.len() > usize::MAX - MAX_HEADER_LEN {
                        assert(!fits(*nodes)) by {
                            let n = nodes[i as int];
                        }
                        return Err(StoreError::TooLarge);
                    }
                    let s = object_write(Kind::Blob, content.as_slice());
                    let h = s.hash;
                    out.push(s);
                    proof {
                        lemma_push_extends(before, s);
                        assert(out@[out@.len() - 1].hash.bytes@ == object_id(Kind::Blob, content@));
                    }
                    children.push(Child { name: copy_of(name.as_slice()), mode: *mode, hash: Some(h) });
                }
            },
            Node::Dir { name, children: sub } => {
                if is_metadata_dir(name) {
                    children.push(
                        Child { name: copy_of(name.as_slice()), mode: FileMode::Directory, hash: None },
                    );
                } else {
                    let r = snapshot(sub, out);
                    proof {
                        lemma_extends_trans(start, before, out@);
                    }
                    let h = match r {
                        Ok(h) => h,
                        Err(e) => {
                            assert(!fits(*nodes)) by {
                                let n = nodes[i as int];
                            }
                            return Err(e);
                        },
                    };
                    children.push(
                        Child { name: copy_of(name.as_slice()), mode: FileMode::Directory, hash: h },
                    );
                }
            },
        }
        proof {
            assert(extends(before, out@)) by {
                if out@ == before {
                    assert(before.take(before.len() as int) =~= before);
                }
            }
            assert forall|j: int| 0 <= j < i implies node_stored(#[trigger] nodes[j], out@) by {
                lemma_node_stored_mono(nodes[j], before, out@);
            }
            let cv = child_views(children@);
            let c = children@[i as int];
            assert(cv.drop_last() == child_views(old_children));
            assert(cv.last() == c@);
            lemma_node_kept(nodes[i as int], c@);
            assert(nodes@.take(i + 1).drop_last() == nodes@.take(i as int));
            assert(nodes@.take(i + 1).last() == nodes[i as int]);
            let old_k = kept_entries(child_views(old_children));
            let k = kept_entries(cv);
            if is_kept(c@) {
                assert(k == old_k.push(child_entry(c@)));
                assert(k.drop_last() =~= old_k);
                assert(k.last() == child_entry(c@));
                assert(tree_payload(k) == tree_payload(old_k) + entry_bytes(child_entry(c@)));
                assert(c@.2->Some_0.len() == 20);
                assert(entry_bytes(child_entry(c@)).len() == entry_len(nodes[i as int]));
            } else {
                assert(k == old_k);
            }
            if out@.len() > before.len() {
                assert(out@.take(start.len() as int) =~= before.take(start.len() as int));
                assert forall|k: int| start.len() <= k < out@.len() implies is_stored_form(
                    #[trigger] out@[k],
                ) by {
                    if k < before.len() {
                        assert(out@[k] == before[k]);
                    }
                }
            }
        }
        i = i + 1;
    }
    let ghost cs = child_views(children@);
    assert forall|j: int| 0 <= j < nodes.len() implies node_gives(nodes[j], #[trigger] cs[j]) by {
        assert(cs[j] == children@[j]@);
    }
    let ghost before = out@;
    match write_tree_for(&children) {
        Ok(Some(s)) => {
            let h = s.hash;
            out.push(s);
            proof {
                lemma_push_extends(before, s);
                assert forall|j: int| 0 <= j < nodes.len() implies node_stored(#[trigger] nodes[j], out@) by {
                    lemma_node_stored_mono(nodes[j], before, out@);
                }
                assert(out@[out@.len() - 1].hash.bytes@ == h.bytes@);
                assert(kept_entries(cs).len() != 0);
                assert(is_tree_of(cs, h.bytes@, s.compressed@));
                assert forall|k: int| start.len() <= k < out@.len() implies is_stored_form(
                    #[trigger] out@[k],
                ) by {
                    if k < before.len() {
                        assert(out@[k] == before[k]);
                    } else {
                        let es = choose|es: Seq<EntryV>|
                            #![trigger tree_payload(es)]
                            is_sorted_of(es, kept_entries(cs)) && h.bytes@ == object_id(
                                Kind::Tree,
                                tree_payload(es),
                            ) && s.compressed@ == zlib_of(encoded(Kind::Tree, tree_payload(es)));
                        assert(out@[k] == s);
                    }
                }
                assert(out@.take(start.len() as int) =~= before.take(start.len() as int));
                lemma_dir_snapshot_intro(*nodes, h.bytes@, s.compressed@, cs);
                lemma_snapshot_holds_file(*nodes, Some(h.bytes@));
            }
            Ok(Some(h))
        },
        Ok(None) => {
            assert(kept_entries(cs).len() == 0);
            assert(dir_snapshot(*nodes, None));
            proof {
                lemma_snapshot_holds_file(*nodes, None);
            }
            Ok(None)
        },
        Err(e) => {
            assert(nodes@.take(nodes@.len() as int) == nodes@);
            Err(e)
        },
    }
}

/// A node gives an entry to its directory's tree exactly where it holds a file.
pub proof fn lemma_node_kept(n: Node, c: ChildV)
    requires
        node_gives(n, c),
    ensures
        is_kept(c) <==> holds_file(n),
    decreases n, 0nat,
{
    if let Node::Dir { name, children } = n {
        if name@ != metadata_dir_name() {
            lemma_snapshot_holds_file(children, c.2);
            if c.2 is Some {
                let i = choose|i: int| 0 <= i < children.len() && holds_file(#[trigger] children[i]);
                assert(holds_file(children[i]));
            }
        }
    }
}

/// A directory snapshots to a tree exactly where it holds a file somewhere below it: one
/// that holds only empty directories, at any depth, snapshots to nothing, and an empty
/// directory below gives no entry.
pub proof fn lemma_snapshot_holds_file(v: Vec<Node>, h: Option<Seq<u8>>)
    requires
        dir_snapshot(v, h),
    ensures
        h is Some <==> exists|i: int| 0 <= i < v.len() && holds_file(#[trigger] v[i]),
    decreases v, 1nat,
{
    let cs = choose|cs: Seq<ChildV>|
        #![trigger kept_entries(cs)]
        cs.len() == v.len() && (forall|i: int| 0 <= i < v.len() ==> node_gives(v[i], #[trigger] cs[i]))
            && (kept_entries(cs).len() == 0 <==> h is None) && (h is Some ==> exists|z: Seq<u8>|
            #[trigger] is_tree_of(cs, h->Some_0, z));
    assert forall|i: int| 0 <= i < v.len() implies (is_kept(#[trigger] cs[i]) <==> holds_file(v[i])) by {
        lemma_node_kept(v[i], cs[i]);
    }
    if kept_entries(cs).len() > 0 {
        let e = kept_entries(cs)[0];
        assert(kept_entries(cs).contains(e));
        lemma_kept_contains(cs, e);
        let i = choose|i: int| 0 <= i < cs.len() && is_kept(#[trigger] cs[i]) && child_entry(cs[i]) == e;
        assert(holds_file(v[i]));
    }
    if exists|i: int| 0 <= i < v.len() && holds_file(#[trigger] v[i]) {
        let i = choose|i: int| 0 <= i < v.len() && holds_file(#[trigger] v[i]);
        assert(is_kept(cs[i]));
        lemma_kept_contains(cs, child_entry(cs[i]));
        assert(kept_entries(cs).len() > 0);
    }
}


/// The name of a node.
pub open spec fn node_name(n: Node) -> Seq<u8> {
    match n {
        Node::File { name, .. } => name@,
        Node::Dir { name, .. } => name@,
    }
}

/// Two nodes are the same file, or directories of one name whose children are the same up
/// to order.
pub open spec fn same_node(a: Node, b: Node) -> bool
    decreases a,
{
    match a {
        Node::File { name, mode, content } => b is File && b->File_name@ == name@ && b->File_mode
            == mode && b->File_content@ == content@,
        Node::Dir { name, children } => b is Dir && b->Dir_name@ == name@ && same_children(
            children,
            b->Dir_children,
        ),
    }
}

/// Each node of `v1` is the same as one of `v2`, and the other way round.
pub open spec fn same_children(v1: Vec<Node>, v2: Vec<Node>) -> bool
    decreases v1,
{
    &&& forall|i: int|
        0 <= i < v1.len() ==> exists|j: int| 0 <= j < v2.len() && same_node(#[trigger] v1[i], v2[j])
    &&& forall|j: int|
        0 <= j < v2.len() ==> exists|i: int| 0 <= i < v1.len() && same_node(v1[i], #[trigger] v2[j])
}

/// In every directory, names are unique and hold no `/`.
pub open spec fn names_ok(v: Vec<Node>) -> bool
    decreases v,
{
    &&& forall|i: int, j: int|
        0 <= i < j < v.len() ==> node_name(#[trigger] v[i]) != node_name(#[trigger] v[j])
    &&& forall|i: int, k: int|
        0 <= i < v.len() && 0 <= k < node_name(v[i]).len() ==> #[trigger] node_name(v[i])[k] != 47u8
    &&& forall|i: int| 0 <= i < v.len() ==> (#[trigger] v[i] is Dir ==> names_ok(v[i]->Dir_children))
}


/// The same node gives the same child, where names are valid below it.
pub proof fn lemma_same_node_gives(a: Node, b: Node, ca: ChildV, cb: ChildV)
    requires
        same_node(a, b),
        node_gives(a, ca),
        node_gives(b, cb),
        a is Dir ==> names_ok(a->Dir_children),
        b is Dir ==> names_ok(b->Dir_children),
    ensures
        ca == cb,
    decreases a, 0nat,
{
    if let Node::Dir { name, children } = a {
        if name@ != metadata_dir_name() {
            lemma_snapshot_determinism(children, b->Dir_children, ca.2, cb.2);
        }
    }
}

/// Two directories with the same children, in any order at every level, and valid names
/// snapshot to the same tree hash, or both to nothing.
pub proof fn lemma_snapshot_determinism(
    v1: Vec<Node>,
    v2: Vec<Node>,
    h1: Option<Seq<u8>>,
    h2: Option<Seq<u8>>,
)
    requires
        same_children(v1, v2),
        names_ok(v1),
        names_ok(v2),
        dir_snapshot(v1, h1),
        dir_snapshot(v2, h2),
    ensures
        h1 == h2,
    decreases v1, 3nat,
{
    let cs1 = choose|cs: Seq<ChildV>|
        #![trigger kept_entries(cs)]
        cs.len() == v1.len() && (forall|i: int| 0 <= i < v1.len() ==> node_gives(v1[i], #[trigger] cs[i]))
            && (kept_entries(cs).len() == 0 <==> h1 is None) && (h1 is Some ==> exists|z: Seq<u8>|
            #[trigger] is_tree_of(cs, h1->Some_0, z));
    let cs2 = choose|cs: Seq<ChildV>|
        #![trigger kept_entries(cs)]
        cs.len() == v2.len() && (forall|i: int| 0 <= i < v2.len() ==> node_gives(v2[i], #[trigger] cs[i]))
            && (kept_entries(cs).len() == 0 <==> h2 is None) && (h2 is Some ==> exists|z: Seq<u8>|
            #[trigger] is_tree_of(cs, h2->Some_0, z));
    lemma_same_children_give_same(v1, v2, cs1, cs2);
    lemma_names_valid(v1, cs1);
    lemma_names_valid(v2, cs2);
    if h1 is Some || h2 is Some {
        lemma_kept_nonempty_same(cs1, cs2);
        let z1 = choose|z: Seq<u8>| #[trigger] is_tree_of(cs1, h1->Some_0, z);
        let z2 = choose|z: Seq<u8>| #[trigger] is_tree_of(cs2, h2->Some_0, z);
        lemma_tree_determinism(cs1, cs2, h1->Some_0, z1, h2->Some_0, z2);
    }
}

/// Nodes that are the same, from node lists with valid names, give the same child.
pub proof fn lemma_pair_gives(
    v1: Vec<Node>,
    v2: Vec<Node>,
    cs1: Seq<ChildV>,
    cs2: Seq<ChildV>,
    i: int,
    j: int,
)
    requires
        0 <= i < v1.len(),
        0 <= j < v2.len(),
        same_node(v1[i], v2[j]),
        names_ok(v1),
        names_ok(v2),
        node_gives(v1[i], cs1[i]),
        node_gives(v2[j], cs2[j]),
    ensures
        cs1[i] == cs2[j],
    decreases v1, 0nat,
{
    assert(v1[i] is Dir ==> names_ok(v1[i]->Dir_children));
    assert(v2[j] is Dir ==> names_ok(v2[j]->Dir_children));
    lemma_same_node_gives(v1[i], v2[j], cs1[i], cs2[j]);
}

/// What the `i`-th node of `v1` gives, its same node in `v2` gives too.
pub proof fn lemma_give_left(v1: Vec<Node>, v2: Vec<Node>, cs1: Seq<ChildV>, cs2: Seq<ChildV>, i: int)
    requires
        0 <= i < v1.len(),
        exists|j: int| 0 <= j < v2.len() && same_node(v1[i], v2[j]),
        names_ok(v1),
        names_ok(v2),
        forall|k: int| 0 <= k < v1.len() ==> node_gives(v1[k], #[trigger] cs1[k]),
        cs2.len() == v2.len(),
        forall|k: int| 0 <= k < v2.len() ==> node_gives(v2[k], #[trigger] cs2[k]),
    ensures
        cs2.contains(cs1[i]),
    decreases v1, 1nat,
{
    let j = choose|j: int| 0 <= j < v2.len() && same_node(v1[i], v2[j]);
    lemma_pair_gives(v1, v2, cs1, cs2, i, j);
    assert(cs2[j] == cs1[i]);
}

/// What the `j`-th node of `v2` gives, its same node in `v1` gives too.
pub proof fn lemma_give_right(v1: Vec<Node>, v2: Vec<Node>, cs1: Seq<ChildV>, cs2: Seq<ChildV>, j: int)
    requires
        0 <= j < v2.len(),
        exists|i: int| 0 <= i < v1.len() && same_node(v1[i], v2[j]),
        names_ok(v1),
        names_ok(v2),
        cs1.len() == v1.len(),
        forall|k: int| 0 <= k < v1.len() ==> node_gives(v1[k], #[trigger] cs1[k]),
        forall|k: int| 0 <= k < v2.len() ==> node_gives(v2[k], #[trigger] cs2[k]),
    ensures
        cs1.contains(cs2[j]),
    decreases v1, 1nat,
{
    let i = choose|i: int| 0 <= i < v1.len() && same_node(v1[i], v2[j]);
    lemma_pair_gives(v1, v2, cs1, cs2, i, j);
    assert(cs1[i] == cs2[j]);
}

/// The same children, in any order, give the same children views.
pub proof fn lemma_same_children_give_same(
    v1: Vec<Node>,
    v2: Vec<Node>,
    cs1: Seq<ChildV>,
    cs2: Seq<ChildV>,
)
    requires
        same_children(v1, v2),
        names_ok(v1),
        names_ok(v2),
        cs1.len() == v1.len(),
        forall|k: int| 0 <= k < v1.len() ==> node_gives(v1[k], #[trigger] cs1[k]),
        cs2.len() == v2.len(),
        forall|k: int| 0 <= k < v2.len() ==> node_gives(v2[k], #[trigger] cs2[k]),
    ensures
        forall|c: ChildV| cs1.contains(c) <==> cs2.contains(c),
    decreases v1, 2nat,
{
    assert forall|c: ChildV| cs1.contains(c) implies cs2.contains(c) by {
        let i = choose|i: int| 0 <= i < cs1.len() && cs1[i] == c;
        lemma_give_left(v1, v2, cs1, cs2, i);
    }
    assert forall|c: ChildV| cs2.contains(c) implies cs1.contains(c) by {
        let j = choose|j: int| 0 <= j < cs2.len() && cs2[j] == c;
        lemma_give_right(v1, v2, cs1, cs2, j);
    }
}

/// The children of nodes with valid names have valid names.
pub proof fn lemma_names_valid(v: Vec<Node>, cs: Seq<ChildV>)
    requires
        names_ok(v),
        cs.len() == v.len(),
        forall|i: int| 0 <= i < v.len() ==> node_gives(v[i], #[trigger] cs[i]),
    ensures
        names_valid(cs),
{
    assert forall|i: int| 0 <= i < cs.len() implies (#[trigger] cs[i]).0 == node_name(v[i]) by {
        assert(node_gives(v[i], cs[i]));
    }
    assert forall|i: int, j: int| 0 <= i < j < cs.len() implies #[trigger] cs[i].0 != #[trigger] cs[j].0 by {
        assert(node_name(v[i]) != node_name(v[j]));
    }
    assert forall|i: int, k: int| 0 <= i < cs.len() && 0 <= k < cs[i].0.len() implies #[trigger] cs[i].0[k] != 47u8 by {
        assert(node_name(v[i])[k] != 47u8);
    }
}

/// Children with the same elements give entries alike: both some or both none.
pub proof fn lemma_kept_nonempty_same(cs1: Seq<ChildV>, cs2: Seq<ChildV>)
    requires
        forall|c: ChildV| cs1.contains(c) <==> cs2.contains(c),
    ensures
        kept_entries(cs1).len() == 0 <==> kept_entries(cs2).len() == 0,
{
    if kept_entries(cs1).len() > 0 {
        let e = kept_entries(cs1)[0];
        assert(kept_entries(cs1).contains(e));
        lemma_kept_contains(cs1, e);
        let i = choose|i: int| 0 <= i < cs1.len() && is_kept(#[trigger] cs1[i]) && child_entry(cs1[i]) == e;
        assert(cs1.contains(cs1[i]));
        let j = choose|j: int| 0 <= j < cs2.len() && cs2[j] == cs1[i];
        lemma_kept_contains(cs2, e);
        assert(kept_entries(cs2).contains(e));
    }
    if kept_entries(cs2).len() > 0 {
        let e = kept_entries(cs2)[0];
        assert(kept_entries(cs2).contains(e));
        lemma_kept_contains(cs2, e);
        let i = choose|i: int| 0 <= i < cs2.len() && is_kept(#[trigger] cs2[i]) && child_entry(cs2[i]) == e;
        assert(cs2.contains(cs2[i]));
        let j = choose|j: int| 0 <= j < cs1.len() && cs1[j] == cs2[i];
        lemma_kept_contains(cs1, e);
        assert(kept_entries(cs1).contains(e));
    }
}

} // verus!
