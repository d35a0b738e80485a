//! Reading a tree payload back into entries, and listing them.
use vstd::prelude::*;

use crate::codec::{
    append_bytes, copy_range, find_in, index_of, kind_name, kind_name_bytes, lemma_index_of,
    lemma_index_of_at, Kind,
};
use crate::primitives::{hex_encode, hex_of};
use crate::store::{Object, StoreError};
use crate::tree::{entry_bytes, mode_text, tree_payload, EntryV};

verus! {

/// An entry read from a tree payload: mode and name as written, and the 20 hash bytes.
#[derive(Debug)]
pub struct RawEntry {
    pub mode: Vec<u8>,
    pub name: Vec<u8>,
    pub hash: Vec<u8>,
}

/// Mode, name and hash bytes of an entry read from a tree.
pub type RawEntryV = (Seq<u8>, Seq<u8>, Seq<u8>);

impl View for RawEntry {
    type V = RawEntryV;

    open spec fn view(&self) -> RawEntryV {
        (self.mode@, self.name@, self.hash@)
    }
}

/// The entries as byte sequences.
pub open spec fn raw_views(s: Seq<RawEntry>) -> Seq<RawEntryV> {
    s.map_values(|e: RawEntry| e@)
}

/// The entries of a tree payload: each is `"<mode> <name>\0"` followed by 20 hash bytes,
/// the mode ending at the first space; `None` where the payload does not split so.
pub open spec fn parse_tree(p: Seq<u8>) -> Option<Seq<RawEntryV>>
    decreases p.len(),
{
    if p.len() == 0 {
        Some(Seq::empty())
    } else {
        let z = index_of(p, 0);
        if z < 0 || p.len() < z + 21 {
            None
        } else {
            let h = p.take(z);
            let s = index_of(h, 32);
            if s < 0 {
                None
            } else {
                match parse_tree(p.skip(z + 21)) {
                    None => None,
                    Some(rest) => Some(
                        seq![(h.take(s), h.subrange(s + 1, z), p.subrange(z + 1, z + 21))] + rest,
                    ),
                }
            }
        }
    }
}

/// Entries `a` in front of a parse result, which stays `None` where it is.
pub open spec fn prepend(a: Seq<RawEntryV>, r: Option<Seq<RawEntryV>>) -> Option<Seq<RawEntryV>> {
    match r {
        None => None,
        Some(rest) => Some(a + rest),
    }
}

/// Splits a tree payload into its entries.
pub fn parse_tree_entries(p: &[u8]) -> (r: Option<Vec<RawEntry>>)
    ensures
        match r {
            None => parse_tree(p@) is None,
            Some(es) => parse_tree(p@) == Some(raw_views(es@)),
        },
{
    let mut acc: Vec<RawEntry> = Vec::new();
    let mut i: usize = 0;
    assert(p@.skip(0) == p@);
    assert(raw_views(acc@) + Seq::<RawEntryV>::empty() == raw_views(acc@));
    while i < p.len()
        invariant
            i <= p@.len(),
            parse_tree(p@) == prepend(raw_views(acc@), parse_tree(p@.skip(i as int))),
        decreases p@.len() - i,
    {
        let ghost q = p@.skip(i as int);
        assert(q == p@.subrange(i as int, p@.len() as int));
        let z = match find_in(p, 0u8, i, p.len()) {
            None => return None,
            Some(z) => z,
        };
        proof {
            lemma_index_of(q, 0u8);
        }
        if p.len() - i - z < 21 {
            return None;
        }
        let s = match find_in(p, 32u8, i, i + z) {
            None => {
                assert(q.take(z as int) == p@.subrange(i as int, i + z));
                return None;
            },
            Some(s) => s,
        };
        let ghost h = q.take(z as int);
        assert(h == p@.subrange(i as int, i + z));
        proof {
            lemma_index_of(h, 32u8);
        }
        let mode = copy_range(p, i, i + s);
        let name = copy_range(p, i + s + 1, i + z);
        let hash = copy_range(p, i + z + 1, i + z + 21);
        let ghost e: RawEntryV = (mode@, name@, hash@);
        assert(e == (h.take(s as int), h.subrange(s + 1, z as int), q.subrange(z + 1, z + 21)));
        assert(q.skip(z + 21) == p@.skip(i + z + 21));
        let ghost old_acc = raw_views(acc@);
        acc.push(RawEntry { mode, name, hash });
        assert(raw_views(acc@) == old_acc.push(e));
        i = i + z + 21;
        proof {
            match parse_tree(p@.skip(i as int)) {
                None => {},
                Some(rest) => {
                    assert(old_acc + (seq![e] + rest) == old_acc.push(e) + rest);
                },
            }
        }
    }
    assert(p@.skip(i as int) == Seq::<u8>::empty());
    assert(raw_views(acc@) + Seq::<RawEntryV>::empty() == raw_views(acc@));
    Some(acc)
}


/// The kind of object that an entry with mode `m` names: a directory names a tree, a
/// submodule (`160000`) a commit, anything else a blob.
pub open spec fn kind_of_mode(m: Seq<u8>) -> Kind {
    if m == seq![52u8, 48u8, 48u8, 48u8, 48u8] {
        Kind::Tree
    } else if m == seq![49u8, 54u8, 48u8, 48u8, 48u8, 48u8] {
        Kind::Commit
    } else {
        Kind::Blob
    }
}

/// A mode padded with zeros on the left to six digits.
pub open spec fn padded_mode(m: Seq<u8>) -> Seq<u8> {
    if m.len() < 6 {
        Seq::new((6 - m.len()) as nat, |i: int| 48u8) + m
    } else {
        m
    }
}

/// The line that lists one entry: its name, or `"<mode> <kind> <hex hash> <name>"`.
pub open spec fn entry_line(name_only: bool, e: RawEntryV) -> Seq<u8> {
    if name_only {
        e.1.push(10u8)
    } else {
        padded_mode(e.0) + seq![32u8] + kind_name(kind_of_mode(e.0)) + seq![32u8] + hex_of(e.2)
            + seq![32u8] + e.1.push(10u8)
    }
}

/// The listing of entries `es`, one line each, in their order.
pub open spec fn listing(name_only: bool, es: Seq<RawEntryV>) -> Seq<u8>
    decreases es.len(),
{
    if es.len() == 0 {
        Seq::empty()
    } else {
        listing(name_only, es.drop_last()) + entry_line(name_only, es.last())
    }
}

/// The kind of object that an entry with mode `m` names.
fn mode_kind(m: &Vec<u8>) -> (r: Kind)
    ensures
        r == kind_of_mode(m@),
{
    if m.len() == 5 && m[0] == 52u8 && m[1] == 48u8 && m[2] == 48u8 && m[3] == 48u8 && m[4] == 48u8 {
        assert(m@ =~= seq![52u8, 48u8, 48u8, 48u8, 48u8]);
        Kind::Tree
    } else if m.len() == 6 && m[0] == 49u8 && m[1] == 54u8 && m[2] == 48u8 && m[3] == 48u8
        && m[4] == 48u8 && m[5] == 48u8 {
        assert(m@ =~= seq![49u8, 54u8, 48u8, 48u8, 48u8, 48u8]);
        Kind::Commit
    } else {
        proof {
            if m@ == seq![52u8, 48u8, 48u8, 48u8, 48u8] {
                assert(m@[4] == 48u8);
            }
            if m@ == seq![49u8, 54u8, 48u8, 48u8, 48u8, 48u8] {
                assert(m@[5] == 48u8);
            }
        }
        Kind::Blob
    }
}

/// Appends the line that lists entry `e`.
fn push_entry_line(out: &mut Vec<u8>, name_only: bool, e: &RawEntry)
    ensures
        final(out)@ == old(out)@ + entry_line(name_only, e@),
{
    if name_only {
        append_bytes(out, e.name.as_slice());
        out.push(10u8);
        assert(final(out)@ =~= old(out)@ + entry_line(name_only, e@));
    } else {
        let ghost start = out@;
        let mut i: usize = e.mode.len();
        while i < 6
            invariant
                e.mode@.len() <= i <= 6 || (i == e.mode@.len() && i >= 6),
                out@ == start + Seq::new((i - e.mode@.len()) as nat, |k: int| 48u8),
            decreases 6 - i,
        {
            out.push(48u8);
            i = i + 1;
            assert(out@ =~= start + Seq::new((i - e.mode@.len()) as nat, |k: int| 48u8));
        }
        append_bytes(out, e.mode.as_slice());
        assert(out@ =~= start + padded_mode(e.mode@));
        out.push(32u8);
        let k = kind_name_bytes(mode_kind(&e.mode));
        append_bytes(out, k.as_slice());
        out.push(32u8);
        let h = hex_encode(e.hash.as_slice());
        append_bytes(out, h.as_slice());
        out.push(32u8);
        append_bytes(out, e.name.as_slice());
        out.push(10u8);
        assert(final(out)@ =~= old(out)@ + entry_line(name_only, e@));
    }
}

/// Lists the entries of a tree object: each entry's name, or its mode, kind, hash and name,
/// one line each.
pub fn invoke(name_only: bool, object: &Object) -> (r: Result<Vec<u8>, StoreError>)
    ensures
        object.kind != Kind::Tree ==> r == Err::<Vec<u8>, StoreError>(StoreError::UnsupportedKind),
        object.kind == Kind::Tree && parse_tree(object.payload@) is None ==> r == Err::<
            Vec<u8>,
            StoreError,
        >(StoreError::MalformedPayload),
        r matches Ok(out) ==> object.kind == Kind::Tree && parse_tree(object.payload@) is Some
            && out@ == listing(name_only, parse_tree(object.payload@)->Some_0),
        object.kind == Kind::Tree && parse_tree(object.payload@) is Some ==> r is Ok,
{
    if object.kind != Kind::Tree {
        return Err(StoreError::UnsupportedKind);
    }
    let entries = match parse_tree_entries(object.payload.as_slice()) {
        None => return Err(StoreError::MalformedPayload),
        Some(es) => es,
    };
    let mut out: Vec<u8> = Vec::new();
    let mut i: usize = 0;
    while i < entries.len()
        invariant
            i <= entries@.len(),
            out@ == listing(name_only, raw_views(entries@.take(i as int))),
        decreases entries@.len() - i,
    {
        push_entry_line(&mut out, name_only, &entries[i]);
        assert(raw_views(entries@.take(i + 1 as int)).drop_last() == raw_views(entries@.take(i as int)));
        i = i + 1;
    }
    assert(entries@.take(i as int) == entries@);
    Ok(out)
}


/// An entry as it reads back from a tree payload.
pub open spec fn raw_of(e: EntryV) -> RawEntryV {
    (mode_text(e.0), e.1, e.2)
}

/// An entry whose name holds no NUL and whose hash is 20 bytes.
pub open spec fn entry_well_formed(e: EntryV) -> bool {
    e.2.len() == 20 && forall|i: int| 0 <= i < e.1.len() ==> e.1[i] != 0u8
}

/// A payload is its first entry's bytes followed by the rest's.
pub proof fn lemma_payload_front(e: EntryV, es: Seq<EntryV>)
    ensures
        tree_payload(seq![e] + es) == entry_bytes(e) + tree_payload(es),
    decreases es.len(),
{
    if es.len() == 0 {
        assert(seq![e] + es == seq![e]);
        assert(seq![e].drop_last() == Seq::<EntryV>::empty());
        assert(tree_payload(Seq::<EntryV>::empty()) == Seq::<u8>::empty());
        assert(seq![e].last() == e);
        assert(tree_payload(seq![e]) == tree_payload(seq![e].drop_last()) + entry_bytes(e));
        assert(tree_payload(seq![e]) =~= entry_bytes(e));
        assert(entry_bytes(e) + tree_payload(es) =~= entry_bytes(e));
    } else {
        lemma_payload_front(e, es.drop_last());
        assert((seq![e] + es).drop_last() == seq![e] + es.drop_last());
        assert((seq![e] + es).last() == es.last());
        assert((entry_bytes(e) + tree_payload(es.drop_last())) + entry_bytes(es.last())
            =~= entry_bytes(e) + (tree_payload(es.drop_last()) + entry_bytes(es.last())));
    }
}

/// A well-formed entry in front of a payload reads back first.
pub proof fn lemma_parse_entry(e: EntryV, rest: Seq<u8>)
    requires
        entry_well_formed(e),
    ensures
        parse_tree(entry_bytes(e) + rest) == prepend(seq![raw_of(e)], parse_tree(rest)),
{
    let m = mode_text(e.0);
    let p = entry_bytes(e) + rest;
    let z: int = m.len() + 1 + e.1.len() as int;
    assert forall|j: int| 0 <= j < m.len() implies m[j] != 0u8 && m[j] != 32u8 by {}
    assert forall|j: int| 0 <= j < z implies p[j] != 0u8 by {
        if j < m.len() {
            assert(p[j] == m[j]);
        } else if j > m.len() {
            assert(p[j] == e.1[j - m.len() - 1]);
        }
    }
    lemma_index_of_at(p, 0u8, z);
    let h = p.take(z);
    assert forall|j: int| 0 <= j < m.len() implies h[j] != 32u8 by {
        assert(h[j] == m[j]);
    }
    lemma_index_of_at(h, 32u8, m.len() as int);
    assert(h.take(m.len() as int) == m);
    assert(h.subrange(m.len() + 1 as int, z) == e.1);
    assert(p.subrange(z + 1, z + 21) == e.2);
    assert(p.skip(z + 21) == rest);
    match parse_tree(rest) {
        None => {},
        Some(r) => {},
    }
}

/// A tree payload reads back as the entries it was written from, in their order, where
/// no name holds a NUL and each hash is 20 bytes.
pub proof fn lemma_tree_round_trip(es: Seq<EntryV>)
    requires
        forall|i: int| 0 <= i < es.len() ==> entry_well_formed(#[trigger] es[i]),
    ensures
        parse_tree(tree_payload(es)) == Some(es.map_values(|e: EntryV| raw_of(e))),
    decreases es.len(),
{
    if es.len() == 0 {
        assert(es.map_values(|e: EntryV| raw_of(e)) == Seq::<RawEntryV>::empty());
    } else {
        let t = es.drop_first();
        assert forall|i: int| 0 <= i < t.len() implies entry_well_formed(#[trigger] t[i]) by {
            assert(t[i] == es[i + 1]);
        }
        lemma_tree_round_trip(t);
        assert(es == seq![es[0]] + t);
        lemma_payload_front(es[0], t);
        assert(entry_well_formed(es[0]));
        lemma_parse_entry(es[0], tree_payload(t));
        assert(seq![raw_of(es[0])] + t.map_values(|e: EntryV| raw_of(e)) == es.map_values(
            |e: EntryV| raw_of(e),
        ));
    }
}

} // verus!
