//! Directory snapshots: the entries of a tree object, their order, and their byte form.
use vstd::prelude::*;

use crate::codec::{append_bytes, copy_of, encoded, Kind, MAX_HEADER_LEN};
use crate::primitives::zlib_of;
use crate::store::{object_id, object_write, ObjectHash, StoreError, StoredObject};

verus! {

broadcast use vstd::seq_lib::group_to_multiset_ensures;

/// The mode of a tree entry.
#[derive(Debug, Clone, Copy, PartialEq, Eq, Structural)]
pub enum FileMode {
    Regular,
    Executable,
    Symlink,
    Directory,
}

/// One entry of a tree: mode, name and the hash of the object it names.
#[derive(Debug)]
pub struct TreeEntry {
    pub mode: FileMode,
    pub name: Vec<u8>,
    pub hash: ObjectHash,
}

/// One entry of a directory as enumerated: its name, its mode, and the hash of its snapshot
/// (`None` for a directory with nothing to snapshot).
#[derive(Debug)]
pub struct Child {
    pub name: Vec<u8>,
    pub mode: FileMode,
    pub hash: Option<ObjectHash>,
}

/// An entry as mode, name and hash bytes.
pub type EntryV = (FileMode, Seq<u8>, Seq<u8>);

/// A child as name, mode and hash bytes.
pub type ChildV = (Seq<u8>, FileMode, Option<Seq<u8>>);

impl View for TreeEntry {
    type V = EntryV;

    open spec fn view(&self) -> EntryV {
        (self.mode, self.name@, self.hash.bytes@)
    }
}

impl View for Child {
    type V = ChildV;

    open spec fn view(&self) -> ChildV {
        (
            self.name@,
            self.mode,
            match self.hash {
                Some(h) => Some(h.bytes@),
                None => None,
            },
        )
    }
}

/// The entries as mode, name and hash bytes.
pub open spec fn entry_views(s: Seq<TreeEntry>) -> Seq<EntryV> {
    s.map_values(|e: TreeEntry| e@)
}

/// The children as name, mode and hash bytes.
pub open spec fn child_views(s: Seq<Child>) -> Seq<ChildV> {
    s.map_values(|c: Child| c@)
}

/// The mode as written in a tree.
pub open spec fn mode_text(m: FileMode) -> Seq<u8> {
    match m {
        // "100644"
        FileMode::Regular => seq![49u8, 48u8, 48u8, 54u8, 52u8, 52u8],
        // "100755"
        FileMode::Executable => seq![49u8, 48u8, 48u8, 55u8, 53u8, 53u8],
        // "120000"
        FileMode::Symlink => seq![49u8, 50u8, 48u8, 48u8, 48u8, 48u8],
        // "40000"
        FileMode::Directory => seq![52u8, 48u8, 48u8, 48u8, 48u8],
    }
}

/// The name of the repository's own metadata directory, `.git`, which snapshots leave out.
pub open spec fn metadata_dir_name() -> Seq<u8> {
    seq![46u8, 103u8, 105u8, 116u8]
}

/// Whether a child becomes an entry of the tree.
pub open spec fn is_kept(c: ChildV) -> bool {
    c.0 != metadata_dir_name() && c.2 is Some
}

/// The entry that a kept child gives.
pub open spec fn child_entry(c: ChildV) -> EntryV {
    (c.1, c.0, c.2->Some_0)
}

/// The entries that the children give, in their order.
pub open spec fn kept_entries(cs: Seq<ChildV>) -> Seq<EntryV>
    decreases cs.len(),
{
    if cs.len() == 0 {
        Seq::empty()
    } else {
        let rest = kept_entries(cs.drop_last());
        if is_kept(cs.last()) {
            rest.push(child_entry(cs.last()))
        } else {
            rest
        }
    }
}

/// Byte-wise lexicographic order, a proper prefix first.
pub open spec fn bytes_lt(a: Seq<u8>, b: Seq<u8>) -> bool
    decreases a.len(),
{
    if a.len() == 0 {
        b.len() > 0
    } else if b.len() == 0 {
        false
    } else if a[0] != b[0] {
        a[0] < b[0]
    } else {
        bytes_lt(a.drop_first(), b.drop_first())
    }
}

/// The name that an entry is ordered by: a directory's name with a `/` after it.
pub open spec fn sort_key(e: EntryV) -> Seq<u8> {
    if e.0 == FileMode::Directory {
        e.1.push(47u8)
    } else {
        e.1
    }
}

/// Entry `a` orders before entry `b`.
pub open spec fn entry_lt(a: EntryV, b: EntryV) -> bool {
    bytes_lt(sort_key(a), sort_key(b))
}

/// No entry comes after one that orders after it.
pub open spec fn is_sorted(s: Seq<EntryV>) -> bool {
    forall|i: int, j: int| 0 <= i < j < s.len() ==> !entry_lt(#[trigger] s[j], #[trigger] s[i])
}

/// Each entry orders before every later one.
pub open spec fn is_strictly_sorted(s: Seq<EntryV>) -> bool {
    forall|i: int, j: int| 0 <= i < j < s.len() ==> entry_lt(#[trigger] s[i], #[trigger] s[j])
}

/// `r` holds the entries of `s`, sorted.
pub open spec fn is_sorted_of(r: Seq<EntryV>, s: Seq<EntryV>) -> bool {
    is_sorted(r) && r.to_multiset() == s.to_multiset()
}

/// No byte sequence orders before itself.
pub proof fn lemma_bytes_lt_irreflexive(a: Seq<u8>)
    ensures
        !bytes_lt(a, a),
    decreases a.len(),
{
    if a.len() > 0 {
        lemma_bytes_lt_irreflexive(a.drop_first());
    }
}

/// The byte order is transitive.
pub proof fn lemma_bytes_lt_transitive(a: Seq<u8>, b: Seq<u8>, c: Seq<u8>)
    requires
        bytes_lt(a, b),
        bytes_lt(b, c),
    ensures
        bytes_lt(a, c),
    decreases a.len(),
{
    if a.len() > 0 && b.len() > 0 && c.len() > 0 && a[0] == b[0] && b[0] == c[0] {
        lemma_bytes_lt_transitive(a.drop_first(), b.drop_first(), c.drop_first());
    }
}

/// Of two different byte sequences, one orders before the other.
pub proof fn lemma_bytes_lt_total(a: Seq<u8>, b: Seq<u8>)
    requires
        a != b,
    ensures
        bytes_lt(a, b) || bytes_lt(b, a),
    decreases a.len(),
{
    if a.len() == 0 {
        if b.len() == 0 {
            assert(a =~= b);
        }
    } else if b.len() > 0 && a[0] == b[0] {
        if a.drop_first() =~= b.drop_first() {
            assert forall|i: int| 0 <= i < a.len() implies a[i] == b[i] by {
                if i > 0 {
                    assert(a[i] == a.drop_first()[i - 1]);
                    assert(b[i] == b.drop_first()[i - 1]);
                }
            }
            assert(a =~= b);
        } else {
            lemma_bytes_lt_total(a.drop_first(), b.drop_first());
        }
    }
}

/// Of two byte sequences, at most one orders before the other.
pub proof fn lemma_bytes_lt_asymmetric(a: Seq<u8>, b: Seq<u8>)
    requires
        bytes_lt(a, b),
    ensures
        !bytes_lt(b, a),
{
    if bytes_lt(b, a) {
        lemma_bytes_lt_transitive(a, b, a);
        lemma_bytes_lt_irreflexive(a);
    }
}


/// The mode of a directory entry, from its file type and permission bits: any execute bit
/// makes a file executable.
pub fn mode_for(is_dir: bool, is_symlink: bool, permissions: u32) -> (r: FileMode)
    ensures
        r == (if is_dir {
            FileMode::Directory
        } else if is_symlink {
            FileMode::Symlink
        } else if permissions & 0o111 != 0 {
            FileMode::Executable
        } else {
            FileMode::Regular
        }),
{
    if is_dir {
        FileMode::Directory
    } else if is_symlink {
        FileMode::Symlink
    } else if permissions & 0o111 != 0 {
        FileMode::Executable
    } else {
        FileMode::Regular
    }
}

/// The mode as written in a tree.
pub fn mode_bytes(m: FileMode) -> (r: Vec<u8>)
    ensures
        r@ == mode_text(m),
{
    match m {
        FileMode::Regular => vec![49u8, 48u8, 48u8, 54u8, 52u8, 52u8],
        FileMode::Executable => vec![49u8, 48u8, 48u8, 55u8, 53u8, 53u8],
        FileMode::Symlink => vec![49u8, 50u8, 48u8, 48u8, 48u8, 48u8],
        FileMode::Directory => vec![52u8, 48u8, 48u8, 48u8, 48u8],
    }
}

/// Whether `name` is the repository's metadata directory.
pub fn is_metadata_dir(name: &Vec<u8>) -> (r: bool)
    ensures
        r == (name@ == metadata_dir_name()),
{
    if name.len() != 4 {
        return false;
    }
    let r = name[0] == 46u8 && name[1] == 103u8 && name[2] == 105u8 && name[3] == 116u8;
    assert(r ==> name@ =~= metadata_dir_name());
    r
}

/// The entries that the children give, in their order: the metadata directory and children
/// without a hash are left out.
pub fn child_entries(children: &Vec<Child>) -> (r: Vec<TreeEntry>)
    ensures
        entry_views(r@) == kept_entries(child_views(children@)),
{
    let mut r: Vec<TreeEntry> = Vec::new();
    let mut i: usize = 0;
    while i < children.len()
        invariant
            i <= children@.len(),
            entry_views(r@) == kept_entries(child_views(children@.take(i as int))),
        decreases children@.len() - i,
    {
        let c = &children[i];
        let ghost before = child_views(children@.take(i as int));
        assert(child_views(children@.take(i + 1 as int)).drop_last() == before);
        assert(child_views(children@.take(i + 1 as int)).last() == c@);
        if !is_metadata_dir(&c.name) {
            match c.hash {
                Some(h) => {
                    r.push(TreeEntry { mode: c.mode, name: copy_of(c.name.as_slice()), hash: h });
                    assert(entry_views(r@) =~= kept_entries(before).push(child_entry(c@)));
                },
                None => {},
            }
        }
        i = i + 1;
    }
    assert(children@.take(i as int) == children@);
    r
}

/// Whether `a` comes before `b` byte-wise.
fn bytes_less(a: &Vec<u8>, b: &Vec<u8>) -> (r: bool)
    ensures
        r == bytes_lt(a@, b@),
{
    let mut i: usize = 0;
    assert(a@.skip(0) == a@ && b@.skip(0) == b@);
    while i < a.len() && i < b.len()
        invariant
            i <= a@.len(),
            i <= b@.len(),
            bytes_lt(a@, b@) == bytes_lt(a@.skip(i as int), b@.skip(i as int)),
        decreases a@.len() - i,
    {
        if a[i] != b[i] {
            return a[i] < b[i];
        }
        assert(a@.skip(i as int).drop_first() == a@.skip(i + 1 as int));
        assert(b@.skip(i as int).drop_first() == b@.skip(i + 1 as int));
        i = i + 1;
    }
    i < b.len()
}

/// The bytes that entry `e` is ordered by.
fn sort_key_bytes(e: &TreeEntry) -> (r: Vec<u8>)
    ensures
        r@ == sort_key(e@),
{
    let mut k = copy_of(e.name.as_slice());
    if e.mode == FileMode::Directory {
        k.push(47u8);
    }
    k
}

/// Whether entry `a` orders before entry `b`.
pub fn entry_less(a: &TreeEntry, b: &TreeEntry) -> (r: bool)
    ensures
        r == entry_lt(a@, b@),
{
    let ka = sort_key_bytes(a);
    let kb = sort_key_bytes(b);
    bytes_less(&ka, &kb)
}

/// The entries in tree order.
pub fn sort_entries(entries: Vec<TreeEntry>) -> (r: Vec<TreeEntry>)
    ensures
        is_sorted_of(entry_views(r@), entry_views(entries@)),
{
    let mut rest = entries;
    let mut r: Vec<TreeEntry> = Vec::new();
    while rest.len() > 0
        invariant
            is_sorted(entry_views(r@)),
            entry_views(r@).to_multiset().add(entry_views(rest@).to_multiset())
                == entry_views(entries@).to_multiset(),
        decreases rest@.len(),
    {
        let ghost old_rest = rest@;
        let e = rest.pop().unwrap();
        assert(entry_views(old_rest) =~= entry_views(rest@).push(e@));
        let mut pos: usize = 0;
        while pos < r.len() && !entry_less(&e, &r[pos])
            invariant
                pos <= r@.len(),
                forall|k: int| 0 <= k < pos ==> !entry_lt(e@, #[trigger] r@[k]@),
            decreases r@.len() - pos,
        {
            pos = pos + 1;
        }
        let ghost old_r = entry_views(r@);
        proof {
            assert forall|k: int| pos <= k < old_r.len() implies !entry_lt(
                #[trigger] old_r[k],
                e@,
            ) by {
                assert(entry_lt(e@, old_r[pos as int]));
                lemma_bytes_lt_asymmetric(sort_key(e@), sort_key(old_r[pos as int]));
                if k > pos && entry_lt(old_r[k], e@) {
                    assert(!entry_lt(old_r[k], old_r[pos as int]));
                    lemma_bytes_lt_transitive(
                        sort_key(old_r[k]),
                        sort_key(e@),
                        sort_key(old_r[pos as int]),
                    );
                }
            }
        }
        r.insert(pos, e);
        proof {
            let nr = entry_views(r@);
            assert(nr =~= old_r.insert(pos as int, e@));
            assert forall|i: int, j: int| 0 <= i < j < nr.len() implies !entry_lt(
                #[trigger] nr[j],
                #[trigger] nr[i],
            ) by {
                if j < pos {
                    assert(nr[i] == old_r[i] && nr[j] == old_r[j]);
                } else if j == pos {
                    assert(nr[i] == old_r[i]);
                } else if i == pos {
                    assert(nr[j] == old_r[j - 1]);
                } else if i < pos {
                    assert(nr[i] == old_r[i] && nr[j] == old_r[j - 1]);
                } else {
                    assert(nr[i] == old_r[i - 1] && nr[j] == old_r[j - 1]);
                }
            }
            vstd::seq_lib::to_multiset_insert(old_r, pos as int, e@);
            assert(entry_views(r@).to_multiset().add(entry_views(rest@).to_multiset())
                =~= entry_views(entries@).to_multiset());
        }
    }
    assert(entry_views(rest@) =~= Seq::<EntryV>::empty());
    assert(entry_views(r@).to_multiset() =~= entry_views(entries@).to_multiset());
    r
}


/// The byte form of one entry: `"<mode> <name>\0"` and the 20 hash bytes.
pub open spec fn entry_bytes(e: EntryV) -> Seq<u8> {
    mode_text(e.0) + seq![32u8] + e.1 + seq![0u8] + e.2
}

/// The payload of a tree object with entries `es`, in their order.
pub open spec fn tree_payload(es: Seq<EntryV>) -> Seq<u8>
    decreases es.len(),
{
    if es.len() == 0 {
        Seq::empty()
    } else {
        tree_payload(es.drop_last()) + entry_bytes(es.last())
    }
}

/// `hash` and `compressed` are what the tree object of the children `cs` is stored as.
pub open spec fn is_tree_of(cs: Seq<ChildV>, hash: Seq<u8>, compressed: Seq<u8>) -> bool {
    exists|es: Seq<EntryV>|
        #![trigger tree_payload(es)]
        is_sorted_of(es, kept_entries(cs)) && hash == object_id(Kind::Tree, tree_payload(es))
            && compressed == zlib_of(encoded(Kind::Tree, tree_payload(es)))
}

/// The payload of a tree object with entries `entries`, in their order.
pub fn tree_payload_bytes(entries: &Vec<TreeEntry>) -> (r: Vec<u8>)
    ensures
        r@ == tree_payload(entry_views(entries@)),
{
    let mut r: Vec<u8> = Vec::new();
    let mut i: usize = 0;
    while i < entries.len()
        invariant
            i <= entries@.len(),
            r@ == tree_payload(entry_views(entries@.take(i as int))),
        decreases entries@.len() - i,
    {
        let e = &entries[i];
        let ghost before = r@;
        let m = mode_bytes(e.mode);
        append_bytes(&mut r, m.as_slice());
        r.push(32u8);
        append_bytes(&mut r, e.name.as_slice());
        r.push(0u8);
        append_bytes(&mut r, e.hash.bytes.as_slice());
        assert(entry_views(entries@.take(i + 1 as int)).drop_last() == entry_views(
            entries@.take(i as int),
        ));
        assert(entry_views(entries@.take(i + 1 as int)).last() == e@);
        assert(r@ =~= before + entry_bytes(e@));
        i = i + 1;
    }
    assert(entries@.take(i as int) == entries@);
    r
}

/// Snapshots one directory from its children: their entries, sorted, as a stored tree
/// object, or `None` where no child gives an entry. A payload too long for its header is
/// `TooLarge`.
pub fn write_tree_for(children: &Vec<Child>) -> (r: Result<Option<StoredObject>, StoreError>)
    ensures
        r matches Ok(None) <==> kept_entries(child_views(children@)).len() == 0,
        r matches Ok(Some(s)) ==> is_tree_of(
            child_views(children@),
            s.hash.bytes@,
            s.compressed@,
        ),
        r is Err <==> tree_payload(kept_entries(child_views(children@))).len() + MAX_HEADER_LEN
            > usize::MAX,
        r matches Err(e) ==> e == StoreError::TooLarge,
{
    let entries = sort_entries(child_entries(children));
    proof {
        vstd::seq_lib::to_multiset_len(entry_views(entries@));
        vstd::seq_lib::to_multiset_len(kept_entries(child_views(children@)));
        lemma_payload_len_perm(entry_views(entries@), kept_entries(child_views(children@)));
    }
    if entries.len() == 0 {
        return Ok(None);
    }
    let payload = tree_payload_bytes(&entries);
    if payload.len() > usize::MAX - MAX_HEADER_LEN {
        return Err(StoreError::TooLarge);
    }
    let s = object_write(Kind::Tree, payload.as_slice());
    assert(tree_payload(entry_views(entries@)) == payload@);
    Ok(Some(s))
}

/// The payload of entries followed by more entries is the two payloads one after the other.
pub proof fn lemma_payload_concat(a: Seq<EntryV>, c: Seq<EntryV>)
    ensures
        tree_payload(a + c) == tree_payload(a) + tree_payload(c),
    decreases c.len(),
{
    if c.len() == 0 {
        assert(a + c =~= a);
        assert(tree_payload(a) + tree_payload(c) =~= tree_payload(a));
    } else {
        lemma_payload_concat(a, c.drop_last());
        assert((a + c).drop_last() =~= a + c.drop_last());
        assert((a + c).last() == c.last());
        assert(tree_payload(a) + (tree_payload(c.drop_last()) + entry_bytes(c.last())) =~= (
        tree_payload(a) + tree_payload(c.drop_last())) + entry_bytes(c.last()));
    }
}

/// The payload's length does not depend on the order of the entries.
pub proof fn lemma_payload_len_perm(a: Seq<EntryV>, b: Seq<EntryV>)
    requires
        a.to_multiset() == b.to_multiset(),
    ensures
        tree_payload(a).len() == tree_payload(b).len(),
    decreases a.len(),
{
    vstd::seq_lib::to_multiset_len(a);
    vstd::seq_lib::to_multiset_len(b);
    if a.len() == 0 {
        assert(b.len() == 0);
        assert(b =~= Seq::<EntryV>::empty());
        assert(a =~= Seq::<EntryV>::empty());
    } else {
        let x = a.last();
        let a1 = a.drop_last();
        assert(a1.push(x) =~= a);
        vstd::seq_lib::to_multiset_build(a1, x);
        vstd::seq_lib::to_multiset_contains(a, x);
        vstd::seq_lib::to_multiset_contains(b, x);
        assert(a.contains(x)) by {
            assert(a[a.len() - 1] == x);
        }
        let i = choose|i: int| 0 <= i < b.len() && b[i] == x;
        let b1 = b.remove(i);
        vstd::seq_lib::to_multiset_remove(b, i);
        assert(a1.to_multiset() =~= b1.to_multiset());
        lemma_payload_len_perm(a1, b1);
        let l = b.take(i);
        let rr = b.skip(i + 1);
        assert(b1 =~= l + rr);
        assert(b =~= (l + seq![x]) + rr);
        lemma_payload_concat(l, rr);
        lemma_payload_concat(l + seq![x], rr);
        lemma_payload_concat(l, seq![x]);
        assert(seq![x].drop_last() =~= Seq::<EntryV>::empty());
        assert(tree_payload(seq![x]) =~= entry_bytes(x)) by {
            assert(tree_payload(Seq::<EntryV>::empty()) == Seq::<u8>::empty());
        }
    }
}

/// Names are unique among the children, and none holds a `/`.
pub open spec fn names_valid(cs: Seq<ChildV>) -> bool {
    &&& forall|i: int, j: int| 0 <= i < j < cs.len() ==> #[trigger] cs[i].0 != #[trigger] cs[j].0
    &&& forall|i: int, k: int| 0 <= i < cs.len() && 0 <= k < cs[i].0.len() ==> #[trigger] cs[i].0[k] != 47u8
}

/// Each entry comes from a child that is kept, and each kept child gives one.
pub proof fn lemma_kept_contains(cs: Seq<ChildV>, e: EntryV)
    ensures
        kept_entries(cs).contains(e) <==> exists|i: int|
            0 <= i < cs.len() && is_kept(#[trigger] cs[i]) && child_entry(cs[i]) == e,
    decreases cs.len(),
{
    if cs.len() > 0 {
        let init = cs.drop_last();
        lemma_kept_contains(init, e);
        let k = kept_entries(cs);
        if k.contains(e) {
            let m = choose|m: int| 0 <= m < k.len() && k[m] == e;
            if m < kept_entries(init).len() {
                assert(kept_entries(init)[m] == e);
                let i = choose|i: int|
                    0 <= i < init.len() && is_kept(#[trigger] init[i]) && child_entry(init[i]) == e;
                assert(cs[i] == init[i]);
            } else {
                assert(cs[cs.len() - 1] == cs.last());
            }
        }
        if exists|i: int| 0 <= i < cs.len() && is_kept(#[trigger] cs[i]) && child_entry(cs[i]) == e {
            let i = choose|i: int| 0 <= i < cs.len() && is_kept(#[trigger] cs[i]) && child_entry(cs[i]) == e;
            if i < cs.len() - 1 {
                assert(init[i] == cs[i]);
                let ki = kept_entries(init);
                let m = choose|m: int| 0 <= m < ki.len() && ki[m] == e;
                assert(k[m] == e);
            } else {
                assert(k[k.len() - 1] == e);
            }
        }
    }
}

/// Entries whose names hold no `/` and differ have different sort keys.
pub proof fn lemma_sort_key_injective(a: EntryV, b: EntryV)
    requires
        a.1 != b.1,
        forall|k: int| 0 <= k < a.1.len() ==> a.1[k] != 47u8,
        forall|k: int| 0 <= k < b.1.len() ==> b.1[k] != 47u8,
    ensures
        sort_key(a) != sort_key(b),
{
    if sort_key(a) == sort_key(b) {
        if a.0 == FileMode::Directory && b.0 != FileMode::Directory {
            assert(b.1[b.1.len() - 1] == sort_key(a)[a.1.len() as int]);
        } else if a.0 != FileMode::Directory && b.0 == FileMode::Directory {
            assert(a.1[a.1.len() - 1] == sort_key(b)[b.1.len() as int]);
        } else if a.0 == FileMode::Directory {
            assert(a.1 =~= sort_key(a).drop_last());
            assert(b.1 =~= sort_key(b).drop_last());
        }
    }
}

/// The kept entries of children with valid names have names without `/`, all different.
pub proof fn lemma_kept_names(cs: Seq<ChildV>)
    requires
        names_valid(cs),
    ensures
        forall|i: int, j: int|
            0 <= i < j < kept_entries(cs).len() ==> #[trigger] kept_entries(cs)[i].1
                != #[trigger] kept_entries(cs)[j].1,
        forall|i: int, k: int|
            0 <= i < kept_entries(cs).len() && 0 <= k < kept_entries(cs)[i].1.len()
                ==> #[trigger] kept_entries(cs)[i].1[k] != 47u8,
    decreases cs.len(),
{
    if cs.len() > 0 {
        let init = cs.drop_last();
        assert(names_valid(init)) by {
            assert forall|i: int, j: int| 0 <= i < j < init.len() implies #[trigger] init[i].0
                != #[trigger] init[j].0 by {
                assert(init[i] == cs[i] && init[j] == cs[j]);
            }
            assert forall|i: int, k: int| 0 <= i < init.len() && 0 <= k < init[i].0.len()
                implies #[trigger] init[i].0[k] != 47u8 by {
                assert(init[i] == cs[i]);
            }
        }
        lemma_kept_names(init);
        let ki = kept_entries(init);
        let k = kept_entries(cs);
        if is_kept(cs.last()) {
            let last = cs.len() - 1;
            assert(cs[last] == cs.last());
            assert forall|i: int, j: int| 0 <= i < j < k.len() implies #[trigger] k[i].1
                != #[trigger] k[j].1 by {
                if j == k.len() - 1 {
                    assert(ki.contains(k[i]));
                    lemma_kept_contains(init, k[i]);
                    let m = choose|m: int|
                        0 <= m < init.len() && is_kept(#[trigger] init[m]) && child_entry(init[m]) == k[i];
                    assert(init[m] == cs[m]);
                } else {
                    assert(k[i] == ki[i] && k[j] == ki[j]);
                }
            }
            assert forall|i: int, n: int| 0 <= i < k.len() && 0 <= n < k[i].1.len() implies #[trigger] k[i].1[n]
                != 47u8 by {
                if i < k.len() - 1 {
                    assert(k[i] == ki[i]);
                }
            }
        }
    }
}

/// Two places of one sequence that hold the same value count it twice.
pub proof fn lemma_count_two<A>(s: Seq<A>, i: int, j: int)
    requires
        0 <= i < s.len(),
        0 <= j < s.len(),
        i != j,
        s[i] == s[j],
    ensures
        s.to_multiset().count(s[i]) >= 2,
{
    let t = s.remove(j);
    vstd::seq_lib::to_multiset_remove(s, j);
    let i2 = if i < j { i } else { i - 1 };
    assert(t[i2] == s[i]);
    vstd::seq_lib::to_multiset_contains(t, s[i]);
}

/// A value counted twice stands in two places.
pub proof fn lemma_two_places<A>(s: Seq<A>, x: A)
    requires
        s.to_multiset().count(x) >= 2,
    ensures
        exists|i: int, j: int| 0 <= i < s.len() && 0 <= j < s.len() && i != j && s[i] == x && s[j] == x,
{
    vstd::seq_lib::to_multiset_contains(s, x);
    let i = choose|i: int| 0 <= i < s.len() && s[i] == x;
    let t = s.remove(i);
    vstd::seq_lib::to_multiset_remove(s, i);
    vstd::seq_lib::to_multiset_contains(t, x);
    let j2 = choose|j: int| 0 <= j < t.len() && t[j] == x;
    let j = if j2 < i { j2 } else { j2 + 1 };
    assert(s[j] == x);
}

/// A sorted arrangement of entries whose sort keys all differ is strictly sorted.
pub proof fn lemma_strict(r: Seq<EntryV>, k: Seq<EntryV>)
    requires
        is_sorted_of(r, k),
        forall|i: int, j: int| 0 <= i < j < k.len() ==> sort_key(#[trigger] k[i]) != sort_key(#[trigger] k[j]),
    ensures
        is_strictly_sorted(r),
{
    assert forall|i: int, j: int| 0 <= i < j < r.len() implies entry_lt(#[trigger] r[i], #[trigger] r[j]) by {
        if r[i] == r[j] {
            lemma_count_two(r, i, j);
            lemma_two_places(k, r[i]);
            let (a, b) = choose|a: int, b: int|
                0 <= a < k.len() && 0 <= b < k.len() && a != b && k[a] == r[i] && k[b] == r[i];
            if a < b {
                assert(sort_key(k[a]) != sort_key(k[b]));
            } else {
                assert(sort_key(k[b]) != sort_key(k[a]));
            }
        } else {
            vstd::seq_lib::to_multiset_contains(r, r[i]);
            vstd::seq_lib::to_multiset_contains(r, r[j]);
            vstd::seq_lib::to_multiset_contains(k, r[i]);
            vstd::seq_lib::to_multiset_contains(k, r[j]);
            let a = choose|a: int| 0 <= a < k.len() && k[a] == r[i];
            let b = choose|b: int| 0 <= b < k.len() && k[b] == r[j];
            if a < b {
                assert(sort_key(k[a]) != sort_key(k[b]));
            } else {
                assert(sort_key(k[b]) != sort_key(k[a]));
            }
            lemma_bytes_lt_total(sort_key(r[i]), sort_key(r[j]));
        }
    }
}

/// Two strictly sorted sequences with the same elements are equal.
pub proof fn lemma_sorted_unique(r1: Seq<EntryV>, r2: Seq<EntryV>)
    requires
        is_strictly_sorted(r1),
        is_strictly_sorted(r2),
        forall|e: EntryV| r1.contains(e) <==> r2.contains(e),
    ensures
        r1 == r2,
    decreases r1.len(),
{
    if r1.len() == 0 {
        if r2.len() > 0 {
            assert(r2.contains(r2[0]));
        }
        assert(r1 =~= r2);
    } else {
        assert(r1.contains(r1[0]));
        let j = choose|j: int| 0 <= j < r2.len() && r2[j] == r1[0];
        assert(r2.contains(r2[0]));
        let i = choose|i: int| 0 <= i < r1.len() && r1[i] == r2[0];
        if j > 0 {
            assert(entry_lt(r2[0], r2[j]));
            if i > 0 {
                assert(entry_lt(r1[0], r1[i]));
                lemma_bytes_lt_asymmetric(sort_key(r1[0]), sort_key(r1[i]));
            } else {
                lemma_bytes_lt_irreflexive(sort_key(r1[0]));
            }
        }
        let t1 = r1.drop_first();
        let t2 = r2.drop_first();
        assert forall|e: EntryV| t1.contains(e) <==> t2.contains(e) by {
            if t1.contains(e) {
                let m = choose|m: int| 0 <= m < t1.len() && t1[m] == e;
                assert(r1[m + 1] == e);
                assert(r1.contains(e));
                let n = choose|n: int| 0 <= n < r2.len() && r2[n] == e;
                if n == 0 {
                    assert(entry_lt(r1[0], r1[m + 1]));
                    lemma_bytes_lt_irreflexive(sort_key(e));
                }
                assert(t2[n - 1] == e);
            }
            if t2.contains(e) {
                let m = choose|m: int| 0 <= m < t2.len() && t2[m] == e;
                assert(r2[m + 1] == e);
                assert(r2.contains(e));
                let n = choose|n: int| 0 <= n < r1.len() && r1[n] == e;
                if n == 0 {
                    assert(entry_lt(r2[0], r2[m + 1]));
                    lemma_bytes_lt_irreflexive(sort_key(e));
                }
                assert(t1[n - 1] == e);
            }
        }
        assert forall|a: int, b: int| 0 <= a < b < t1.len() implies entry_lt(#[trigger] t1[a], #[trigger] t1[b]) by {
            assert(t1[a] == r1[a + 1] && t1[b] == r1[b + 1]);
        }
        assert forall|a: int, b: int| 0 <= a < b < t2.len() implies entry_lt(#[trigger] t2[a], #[trigger] t2[b]) by {
            assert(t2[a] == r2[a + 1] && t2[b] == r2[b + 1]);
        }
        lemma_sorted_unique(t1, t2);
        assert(r1 =~= seq![r1[0]] + t1);
        assert(r2 =~= seq![r2[0]] + t2);
    }
}


/// Two directories whose children are the same (name, mode, hash) triples, enumerated in
/// any order, with names that are unique and hold no `/`, snapshot to the same tree object:
/// the same hash and the same stored bytes.
pub proof fn lemma_tree_determinism(
    c1: Seq<ChildV>,
    c2: Seq<ChildV>,
    h1: Seq<u8>,
    z1: Seq<u8>,
    h2: Seq<u8>,
    z2: Seq<u8>,
)
    requires
        forall|c: ChildV| c1.contains(c) <==> c2.contains(c),
        names_valid(c1),
        names_valid(c2),
        is_tree_of(c1, h1, z1),
        is_tree_of(c2, h2, z2),
    ensures
        h1 == h2,
        z1 == z2,
{
    let k1 = kept_entries(c1);
    let k2 = kept_entries(c2);
    let r1 = choose|es: Seq<EntryV>|
        #![trigger tree_payload(es)]
        is_sorted_of(es, k1) && h1 == object_id(Kind::Tree, tree_payload(es)) && z1 == zlib_of(
            encoded(Kind::Tree, tree_payload(es)),
        );
    let r2 = choose|es: Seq<EntryV>|
        #![trigger tree_payload(es)]
        is_sorted_of(es, k2) && h2 == object_id(Kind::Tree, tree_payload(es)) && z2 == zlib_of(
            encoded(Kind::Tree, tree_payload(es)),
        );
    lemma_distinct_keys(c1);
    lemma_distinct_keys(c2);
    lemma_strict(r1, k1);
    lemma_strict(r2, k2);
    assert forall|e: EntryV| r1.contains(e) <==> r2.contains(e) by {
        vstd::seq_lib::to_multiset_contains(r1, e);
        vstd::seq_lib::to_multiset_contains(r2, e);
        vstd::seq_lib::to_multiset_contains(k1, e);
        vstd::seq_lib::to_multiset_contains(k2, e);
        lemma_kept_contains(c1, e);
        lemma_kept_contains(c2, e);
        if k1.contains(e) {
            let i = choose|i: int| 0 <= i < c1.len() && is_kept(#[trigger] c1[i]) && child_entry(c1[i]) == e;
            assert(c1.contains(c1[i]));
            let j = choose|j: int| 0 <= j < c2.len() && c2[j] == c1[i];
            assert(is_kept(c2[j]));
        }
        if k2.contains(e) {
            let i = choose|i: int| 0 <= i < c2.len() && is_kept(#[trigger] c2[i]) && child_entry(c2[i]) == e;
            assert(c2.contains(c2[i]));
            let j = choose|j: int| 0 <= j < c1.len() && c1[j] == c2[i];
            assert(is_kept(c1[j]));
        }
    }
    lemma_sorted_unique(r1, r2);
}

/// The kept entries of children with valid names have different sort keys.
pub proof fn lemma_distinct_keys(cs: Seq<ChildV>)
    requires
        names_valid(cs),
    ensures
        forall|i: int, j: int|
            0 <= i < j < kept_entries(cs).len() ==> sort_key(#[trigger] kept_entries(cs)[i])
                != sort_key(#[trigger] kept_entries(cs)[j]),
{
    lemma_kept_names(cs);
    let k = kept_entries(cs);
    assert forall|i: int, j: int| 0 <= i < j < k.len() implies sort_key(#[trigger] k[i]) != sort_key(
        #[trigger] k[j],
    ) by {
        assert forall|n: int| 0 <= n < k[i].1.len() implies k[i].1[n] != 47u8 by {}
        assert forall|n: int| 0 <= n < k[j].1.len() implies k[j].1[n] != 47u8 by {}
        lemma_sort_key_injective(k[i], k[j]);
    }
}

/// A directory whose children are all empty subdirectories (children without a hash)
/// gives no entries, so it snapshots to nothing.
pub proof fn lemma_empty_subtrees(cs: Seq<ChildV>)
    requires
        forall|i: int| 0 <= i < cs.len() ==> (#[trigger] cs[i]).2 is None,
    ensures
        kept_entries(cs).len() == 0,
{
    if kept_entries(cs).len() > 0 {
        let e = kept_entries(cs)[0];
        assert(kept_entries(cs).contains(e));
        lemma_kept_contains(cs, e);
    }
}

/// Every entry of a snapshot names a child with a hash: a child without one, such as an
/// empty subdirectory, is absent from the entries.
pub proof fn lemma_entries_have_hashes(cs: Seq<ChildV>, e: EntryV)
    requires
        kept_entries(cs).contains(e),
    ensures
        exists|i: int|
            0 <= i < cs.len() && #[trigger] cs[i].2 == Some(e.2) && cs[i].0 == e.1 && cs[i].1 == e.0,
{
    lemma_kept_contains(cs, e);
    let i = choose|i: int| 0 <= i < cs.len() && is_kept(#[trigger] cs[i]) && child_entry(cs[i]) == e;
    assert(cs[i].2 == Some(e.2));
}

} // verus!
