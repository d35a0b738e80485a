//! Commit objects: the payload that links a tree to its parent commit, and reading it back.
use vstd::prelude::*;
use vstd::utf8::encode_utf8;

use crate::codec::{
    append_bytes, copy_range, encoded, find_in, index_of, lemma_index_of, lemma_index_of_at,
    range_eq, Kind, MAX_HEADER_LEN,
};
use crate::primitives::zlib_of;
use crate::store::{check_hash_hex, is_hash_hex, object_id, object_write, StoreError, StoredObject};

verus! {

/// `tree`
pub open spec fn tree_key() -> Seq<u8> {
    seq![116u8, 114u8, 101u8, 101u8]
}

/// `parent`
pub open spec fn parent_key() -> Seq<u8> {
    seq![112u8, 97u8, 114u8, 101u8, 110u8, 116u8]
}

/// `author`
pub open spec fn author_key() -> Seq<u8> {
    seq![97u8, 117u8, 116u8, 104u8, 111u8, 114u8]
}

/// `committer`
pub open spec fn committer_key() -> Seq<u8> {
    seq![99u8, 111u8, 109u8, 109u8, 105u8, 116u8, 116u8, 101u8, 114u8]
}

/// One header line: key, space, value, newline.
pub open spec fn header_line(key: Seq<u8>, value: Seq<u8>) -> Seq<u8> {
    key + seq![32u8] + value + seq![10u8]
}

/// The payload of a commit: `tree`, an optional `parent`, `author` and `committer` lines, a
/// blank line, and the message as given.
pub open spec fn commit_payload(
    tree: Seq<u8>,
    parent: Option<Seq<u8>>,
    identity: Seq<u8>,
    message: Seq<u8>,
) -> Seq<u8> {
    header_line(tree_key(), tree) + match parent {
        Some(p) => header_line(parent_key(), p),
        None => Seq::empty(),
    } + header_line(author_key(), identity) + header_line(committer_key(), identity) + seq![10u8]
        + message
}

/// The bytes of an optional hash.
pub open spec fn opt_view(o: Option<&[u8]>) -> Option<Seq<u8>> {
    match o {
        Some(p) => Some(p@),
        None => None,
    }
}

/// What `write_commit` makes of a valid commit's payload: the stored commit object, or
/// `TooLarge` where the payload is too long for its header.
pub open spec fn commit_written(
    r: Result<StoredObject, StoreError>,
    payload: Seq<u8>,
) -> bool {
    if payload.len() + MAX_HEADER_LEN <= usize::MAX {
        r matches Ok(s) && s.hash.bytes@ == object_id(Kind::Commit, payload) && s.compressed@
            == zlib_of(encoded(Kind::Commit, payload))
    } else {
        r == Err::<StoredObject, StoreError>(StoreError::TooLarge)
    }
}

/// The arguments of a commit are valid: both hashes are 40 hex digits, and the identity
/// holds no newline.
pub open spec fn commit_args_valid(
    tree: Seq<u8>,
    parent: Option<Seq<u8>>,
    identity: Seq<u8>,
) -> bool {
    &&& is_hash_hex(tree)
    &&& parent matches Some(p) ==> is_hash_hex(p)
    &&& has_no(identity, 10u8)
}

/// Appends the header line `key value`.
fn push_header(out: &mut Vec<u8>, key: Vec<u8>, value: &[u8])
    ensures
        final(out)@ == old(out)@ + header_line(key@, value@),
{
    append_bytes(out, key.as_slice());
    out.push(32u8);
    append_bytes(out, value);
    out.push(10u8);
    assert(final(out)@ =~= old(out)@ + header_line(key@, value@));
}

/// The payload of a commit of tree `tree_hash`, with parent `parent_hash` where there is one.
pub fn commit_payload_bytes(
    message: &[u8],
    tree_hash: &[u8],
    parent_hash: Option<&[u8]>,
    identity: &[u8],
) -> (r: Vec<u8>)
    ensures
        r@ == commit_payload(tree_hash@, opt_view(parent_hash), identity@, message@),
{
    let mut r: Vec<u8> = Vec::new();
    push_header(&mut r, vec![116u8, 114u8, 101u8, 101u8], tree_hash);
    let ghost after_tree = r@;
    match parent_hash {
        Some(p) => push_header(&mut r, vec![112u8, 97u8, 114u8, 101u8, 110u8, 116u8], p),
        None => {},
    }
    let ghost after_parent = r@;
    push_header(&mut r, vec![97u8, 117u8, 116u8, 104u8, 111u8, 114u8], identity);
    push_header(
        &mut r,
        vec![99u8, 111u8, 109u8, 109u8, 105u8, 116u8, 116u8, 101u8, 114u8],
        identity,
    );
    r.push(10u8);
    append_bytes(&mut r, message);
    assert(r@ =~= commit_payload(tree_hash@, opt_view(parent_hash), identity@, message@));
    r
}

/// Prepares the commit of tree `tree_hash` with optional parent `parent_hash` for storing.
/// Both hashes are 40 hex digits, else the result is `InvalidHash`; an identity with a
/// newline is `InvalidIdentity`.
pub fn write_commit(
    message: &[u8],
    tree_hash: &[u8],
    parent_hash: Option<&[u8]>,
    identity: &[u8],
) -> (r: Result<StoredObject, StoreError>)
    ensures
        !is_hash_hex(tree_hash@) ==> r == Err::<StoredObject, StoreError>(StoreError::InvalidHash),
        (parent_hash matches Some(p) && !is_hash_hex(p@)) ==> r == Err::<StoredObject, StoreError>(
            StoreError::InvalidHash,
        ),
        is_hash_hex(tree_hash@) && !(parent_hash matches Some(p) && !is_hash_hex(p@)) && !has_no(
            identity@,
            10u8,
        ) ==> r == Err::<StoredObject, StoreError>(StoreError::InvalidIdentity),
        commit_args_valid(tree_hash@, opt_view(parent_hash), identity@) ==> commit_written(
            r,
            commit_payload(tree_hash@, opt_view(parent_hash), identity@, message@),
        ),
{
    if !check_hash_hex(tree_hash) {
        return Err(StoreError::InvalidHash);
    }
    match parent_hash {
        Some(p) => {
            if !check_hash_hex(p) {
                return Err(StoreError::InvalidHash);
            }
        },
        None => {},
    }
    let mut k: usize = 0;
    while k < identity.len()
        invariant
            k <= identity@.len(),
            forall|j: int| 0 <= j < k ==> identity@[j] != 10u8,
            is_hash_hex(tree_hash@),
            !(parent_hash matches Some(p) && !is_hash_hex(p@)),
        decreases identity@.len() - k,
    {
        if identity[k] == 10u8 {
            return Err(StoreError::InvalidIdentity);
        }
        k = k + 1;
    }
    let payload = commit_payload_bytes(message, tree_hash, parent_hash, identity);
    if payload.len() > usize::MAX - MAX_HEADER_LEN {
        return Err(StoreError::TooLarge);
    }
    Ok(object_write(Kind::Commit, payload.as_slice()))
}

/// Prepares the commit with message `message` of tree `tree_hash`, with parent
/// `parent_tree_hash` where there is one, authored and committed by `identity`.
pub fn invoke(
    message: String,
    tree_hash: String,
    parent_tree_hash: Option<String>,
    identity: String,
) -> (r: Result<StoredObject, StoreError>)
    ensures
        ({
            let parent = match parent_tree_hash {
                Some(p) => Some(encode_utf8(p@)),
                None => None,
            };
            let tree = encode_utf8(tree_hash@);
            &&& !is_hash_hex(tree) ==> r == Err::<StoredObject, StoreError>(StoreError::InvalidHash)
            &&& (parent matches Some(p) && !is_hash_hex(p)) ==> r == Err::<StoredObject, StoreError>(
                StoreError::InvalidHash,
            )
            &&& is_hash_hex(tree) && !(parent matches Some(p) && !is_hash_hex(p)) && !has_no(
                encode_utf8(identity@),
                10u8,
            ) ==> r == Err::<StoredObject, StoreError>(StoreError::InvalidIdentity)
            &&& commit_args_valid(tree, parent, encode_utf8(identity@)) ==> commit_written(
                r,
                commit_payload(tree, parent, encode_utf8(identity@), encode_utf8(message@)),
            )
        }),
{
    let parent: Option<&[u8]> = match &parent_tree_hash {
        Some(p) => Some(p.as_str().as_bytes()),
        None => None,
    };
    write_commit(
        message.as_str().as_bytes(),
        tree_hash.as_str().as_bytes(),
        parent,
        identity.as_str().as_bytes(),
    )
}


/// A commit payload read back: its header lines as (key, value) pairs in order, and the
/// message after the first blank line.
#[derive(Debug)]
pub struct CommitRecord {
    pub headers: Vec<(Vec<u8>, Vec<u8>)>,
    pub message: Vec<u8>,
}

pub type HeaderV = (Seq<u8>, Seq<u8>);

/// The header lines as byte sequences.
pub open spec fn header_views(s: Seq<(Vec<u8>, Vec<u8>)>) -> Seq<HeaderV> {
    s.map_values(|h: (Vec<u8>, Vec<u8>)| (h.0@, h.1@))
}

/// The header lines and message of a commit payload: lines up to the first empty one, each
/// split at its first space; `None` where a line has no space or no empty line comes.
pub open spec fn parse_commit(p: Seq<u8>) -> Option<(Seq<HeaderV>, Seq<u8>)>
    decreases p.len(),
{
    let nl = index_of(p, 10);
    if nl < 0 || nl >= p.len() {
        None
    } else if nl == 0 {
        Some((Seq::empty(), p.skip(1)))
    } else {
        let line = p.take(nl);
        let sp = index_of(line, 32);
        if sp < 0 {
            None
        } else {
            match parse_commit(p.skip(nl + 1)) {
                None => None,
                Some((hs, m)) => Some(
                    (seq![(line.take(sp), line.subrange(sp + 1, nl))] + hs, m),
                ),
            }
        }
    }
}

/// Headers `a` in front of a parse result, which stays `None` where it is.
pub open spec fn prepend_headers(a: Seq<HeaderV>, r: Option<(Seq<HeaderV>, Seq<u8>)>) -> Option<
    (Seq<HeaderV>, Seq<u8>),
> {
    match r {
        None => None,
        Some((hs, m)) => Some((a + hs, m)),
    }
}

/// How many header lines have key `key`.
pub open spec fn key_count(hs: Seq<HeaderV>, key: Seq<u8>) -> nat
    decreases hs.len(),
{
    if hs.len() == 0 {
        0
    } else {
        key_count(hs.drop_last(), key) + if hs.last().0 == key {
            1nat
        } else {
            0nat
        }
    }
}

/// A commit payload read back: its lines split as `parse_commit` splits them, with exactly
/// one `tree` line and at most one `parent` line; `None` otherwise.
pub open spec fn commit_parsed(p: Seq<u8>) -> Option<(Seq<HeaderV>, Seq<u8>)> {
    match parse_commit(p) {
        Some((hs, m)) => if key_count(hs, tree_key()) == 1 && key_count(hs, parent_key()) <= 1 {
            Some((hs, m))
        } else {
            None
        },
        None => None,
    }
}

/// Reads a commit payload back into its header lines and message: one `tree` line, at most
/// one `parent` line, else `MalformedPayload`.
pub fn kvlm_parse(raw: &[u8]) -> (r: Result<CommitRecord, StoreError>)
    ensures
        r matches Ok(c) ==> commit_parsed(raw@) == Some((header_views(c.headers@), c.message@)),
        r is Err ==> commit_parsed(raw@) is None && r == Err::<CommitRecord, StoreError>(
            StoreError::MalformedPayload,
        ),
{
    let c = match split_commit(raw) {
        None => return Err(StoreError::MalformedPayload),
        Some(c) => c,
    };
    let tree = vec![116u8, 114u8, 101u8, 101u8];
    let parent = vec![112u8, 97u8, 114u8, 101u8, 110u8, 116u8];
    let mut trees: usize = 0;
    let mut parents: usize = 0;
    let mut i: usize = 0;
    while i < c.headers.len()
        invariant
            i <= c.headers@.len(),
            tree@ == tree_key(),
            parent@ == parent_key(),
            trees == key_count(header_views(c.headers@.take(i as int)), tree_key()),
            parents == key_count(header_views(c.headers@.take(i as int)), parent_key()),
            trees <= i,
            parents <= i,
        decreases c.headers@.len() - i,
    {
        let key = &c.headers[i].0;
        let ghost hs = header_views(c.headers@.take(i + 1 as int));
        assert(hs.drop_last() == header_views(c.headers@.take(i as int)));
        assert(hs.last().0 == key@);
        assert(key@.subrange(0, key@.len() as int) == key@);
        if range_eq(key.as_slice(), 0, key.len(), tree.as_slice()) {
            trees = trees + 1;
        }
        if range_eq(key.as_slice(), 0, key.len(), parent.as_slice()) {
            parents = parents + 1;
        }
        i = i + 1;
    }
    assert(c.headers@.take(i as int) == c.headers@);
    if trees != 1 || parents > 1 {
        return Err(StoreError::MalformedPayload);
    }
    Ok(c)
}

/// Splits a commit payload into its header lines and message.
fn split_commit(raw: &[u8]) -> (r: Option<CommitRecord>)
    ensures
        r matches Some(c) ==> parse_commit(raw@) == Some((header_views(c.headers@), c.message@)),
        r is None ==> parse_commit(raw@) is None,
{
    let mut headers: Vec<(Vec<u8>, Vec<u8>)> = Vec::new();
    let mut i: usize = 0;
    assert(raw@.skip(0) == raw@);
    assert(header_views(headers@) + Seq::<HeaderV>::empty() == header_views(headers@));
    loop
        invariant
            i <= raw@.len(),
            parse_commit(raw@) == prepend_headers(header_views(headers@), parse_commit(raw@.skip(i as int))),
        decreases raw@.len() - i,
    {
        let ghost q = raw@.skip(i as int);
        assert(q == raw@.subrange(i as int, raw@.len() as int));
        let nl = match find_in(raw, 10u8, i, raw.len()) {
            None => return None,
            Some(nl) => nl,
        };
        proof {
            lemma_index_of(q, 10u8);
        }
        if nl == 0 {
            let message = copy_range(raw, i + 1, raw.len());
            assert(q.skip(1) == message@);
            assert(header_views(headers@) + Seq::<HeaderV>::empty() == header_views(headers@));
            return Some(CommitRecord { headers, message });
        }
        let sp = match find_in(raw, 32u8, i, i + nl) {
            None => {
                assert(q.take(nl as int) == raw@.subrange(i as int, i + nl));
                return None;
            },
            Some(sp) => sp,
        };
        let ghost line = q.take(nl as int);
        assert(line == raw@.subrange(i as int, i + nl));
        proof {
            lemma_index_of(line, 32u8);
        }
        let key = copy_range(raw, i, i + sp);
        let value = copy_range(raw, i + sp + 1, i + nl);
        let ghost h: HeaderV = (key@, value@);
        assert(h == (line.take(sp as int), line.subrange(sp + 1, nl as int)));
        assert(q.skip(nl + 1) == raw@.skip(i + nl + 1));
        let ghost old_h = header_views(headers@);
        headers.push((key, value));
        assert(header_views(headers@) == old_h.push(h));
        i = i + nl + 1;
        proof {
            match parse_commit(raw@.skip(i as int)) {
                None => {},
                Some((hs, m)) => {
                    assert(old_h + (seq![h] + hs) == old_h.push(h) + hs);
                },
            }
        }
    }
}


/// `s` does not hold `x`.
pub open spec fn has_no(s: Seq<u8>, x: u8) -> bool {
    forall|i: int| 0 <= i < s.len() ==> s[i] != x
}

/// The header lines that `commit_payload` writes, as (key, value) pairs.
pub open spec fn commit_headers(
    tree: Seq<u8>,
    parent: Option<Seq<u8>>,
    identity: Seq<u8>,
) -> Seq<HeaderV> {
    seq![(tree_key(), tree)] + match parent {
        Some(p) => seq![(parent_key(), p)],
        None => Seq::empty(),
    } + seq![(author_key(), identity), (committer_key(), identity)]
}

/// One header line in front of the rest reads as that header in front of the rest's.
pub proof fn lemma_parse_header_line(key: Seq<u8>, value: Seq<u8>, rest: Seq<u8>)
    requires
        key.len() > 0,
        has_no(key, 10u8),
        has_no(key, 32u8),
        has_no(value, 10u8),
    ensures
        parse_commit(header_line(key, value) + rest) == prepend_headers(
            seq![(key, value)],
            parse_commit(rest),
        ),
{
    let p = header_line(key, value) + rest;
    let nl: int = key.len() + 1 + value.len() as int;
    assert forall|j: int| 0 <= j < nl implies p[j] != 10u8 by {
        if j < key.len() {
            assert(p[j] == key[j]);
        } else if j > key.len() {
            assert(p[j] == value[j - key.len() - 1]);
        }
    }
    lemma_index_of_at(p, 10u8, nl);
    let line = p.take(nl);
    assert forall|j: int| 0 <= j < key.len() implies line[j] != 32u8 by {
        assert(line[j] == key[j]);
    }
    lemma_index_of_at(line, 32u8, key.len() as int);
    assert(line.take(key.len() as int) == key);
    assert(line.subrange(key.len() + 1 as int, nl) == value);
    assert(p.skip(nl + 1) == rest);
    match parse_commit(rest) {
        None => {},
        Some((hs, m)) => {},
    }
}

/// The keys that commits use are non-empty and hold neither a newline nor a space.
pub proof fn lemma_keys_plain(key: Seq<u8>)
    requires
        key == tree_key() || key == parent_key() || key == author_key() || key == committer_key(),
    ensures
        key.len() > 0,
        has_no(key, 10u8),
        has_no(key, 32u8),
{
    assert forall|i: int| 0 <= i < key.len() implies key[i] >= 97u8 by {}
}

/// A blank line ends the headers; what follows is the message.
pub proof fn lemma_parse_blank(message: Seq<u8>)
    ensures
        parse_commit(seq![10u8] + message) == Some((Seq::<HeaderV>::empty(), message)),
{
    let blank = seq![10u8] + message;
    assert(blank.skip(1) == message);
    lemma_index_of_at(blank, 10u8, 0);
}

/// A commit payload reads back as the header lines it was written with and its message,
/// verbatim, where the hashes and the identity hold no newline.
pub proof fn lemma_commit_round_trip(
    tree: Seq<u8>,
    parent: Option<Seq<u8>>,
    identity: Seq<u8>,
    message: Seq<u8>,
)
    requires
        has_no(tree, 10u8),
        parent matches Some(p) ==> has_no(p, 10u8),
        has_no(identity, 10u8),
    ensures
        parse_commit(commit_payload(tree, parent, identity, message)) == Some(
            (commit_headers(tree, parent, identity), message),
        ),
        commit_parsed(commit_payload(tree, parent, identity, message)) == Some(
            (commit_headers(tree, parent, identity), message),
        ),
{
    lemma_commit_split(tree, parent, identity, message);
    lemma_commit_keys(tree, parent, identity);
}

/// The keys a commit writes differ from each other.
pub proof fn lemma_keys_differ()
    ensures
        tree_key() != parent_key(),
        tree_key() != author_key(),
        tree_key() != committer_key(),
        parent_key() != author_key(),
        parent_key() != committer_key(),
{
    assert(tree_key().len() != parent_key().len());
    assert(tree_key().len() != author_key().len());
    assert(tree_key().len() != committer_key().len());
    assert(parent_key()[0] != author_key()[0]);
    assert(parent_key().len() != committer_key().len());
}

/// The counts of keys in the first `n` header lines of a commit.
pub proof fn lemma_key_counts(hs: Seq<HeaderV>, n: int)
    requires
        1 <= n <= hs.len(),
        hs[0].0 == tree_key(),
        forall|i: int| 1 <= i < hs.len() ==> #[trigger] hs[i].0 != tree_key(),
        forall|i: int, j: int| 1 <= i < j < hs.len() ==> !(#[trigger] hs[i].0 == parent_key() && #[trigger] hs[j].0 == parent_key()),
    ensures
        key_count(hs.take(n), tree_key()) == 1,
        key_count(hs.take(n), parent_key()) <= 1,
        key_count(hs.take(n), parent_key()) == 1 ==> exists|i: int| 1 <= i < n && #[trigger] hs[i].0 == parent_key(),
    decreases n,
{
    let t = hs.take(n);
    lemma_keys_differ();
    if n == 1 {
        assert(t.drop_last() =~= Seq::<HeaderV>::empty());
        assert(t.last() == hs[0]);
        assert(key_count(Seq::<HeaderV>::empty(), tree_key()) == 0);
        assert(key_count(Seq::<HeaderV>::empty(), parent_key()) == 0);
        assert(key_count(t, tree_key()) == 1);
        assert(key_count(t, parent_key()) == 0);
    } else {
        lemma_key_counts(hs, n - 1);
        assert(t.drop_last() =~= hs.take(n - 1));
        assert(t.last() == hs[n - 1]);
    }
}

/// The header lines of a commit hold one `tree` key and at most one `parent` key.
pub proof fn lemma_commit_keys(tree: Seq<u8>, parent: Option<Seq<u8>>, identity: Seq<u8>)
    ensures
        key_count(commit_headers(tree, parent, identity), tree_key()) == 1,
        key_count(commit_headers(tree, parent, identity), parent_key()) <= 1,
{
    lemma_keys_differ();
    let hs = commit_headers(tree, parent, identity);
    match parent {
        Some(p) => {
            assert(hs =~= seq![
                (tree_key(), tree),
                (parent_key(), p),
                (author_key(), identity),
                (committer_key(), identity),
            ]);
        },
        None => {
            assert(hs =~= seq![(tree_key(), tree), (author_key(), identity), (committer_key(), identity)]);
        },
    }
    lemma_key_counts(hs, hs.len() as int);
    assert(hs.take(hs.len() as int) =~= hs);
}

/// A commit payload splits into the header lines it was written with and its message.
pub proof fn lemma_commit_split(
    tree: Seq<u8>,
    parent: Option<Seq<u8>>,
    identity: Seq<u8>,
    message: Seq<u8>,
)
    requires
        has_no(tree, 10u8),
        parent matches Some(p) ==> has_no(p, 10u8),
        has_no(identity, 10u8),
    ensures
        parse_commit(commit_payload(tree, parent, identity, message)) == Some(
            (commit_headers(tree, parent, identity), message),
        ),
{
    lemma_keys_plain(tree_key());
    lemma_keys_plain(parent_key());
    lemma_keys_plain(author_key());
    lemma_keys_plain(committer_key());
    let blank = seq![10u8] + message;
    lemma_parse_blank(message);
    let c = header_line(committer_key(), identity) + blank;
    lemma_parse_header_line(committer_key(), identity, blank);
    let hc = seq![(committer_key(), identity)];
    assert(parse_commit(c) == Some((hc, message))) by {
        assert(hc + Seq::<HeaderV>::empty() == hc);
    }
    let a = header_line(author_key(), identity) + c;
    lemma_parse_header_line(author_key(), identity, c);
    let ha = seq![(author_key(), identity), (committer_key(), identity)];
    assert(parse_commit(a) == Some((ha, message))) by {
        assert(seq![(author_key(), identity)] + hc == ha);
    }
    let pl = match parent {
        Some(p) => header_line(parent_key(), p),
        None => Seq::empty(),
    };
    let hp = match parent {
        Some(p) => seq![(parent_key(), p)],
        None => Seq::<HeaderV>::empty(),
    };
    let t = pl + a;
    assert(parse_commit(t) == Some((hp + ha, message))) by {
        match parent {
            Some(p) => {
                lemma_parse_header_line(parent_key(), p, a);
            },
            None => {
                assert(t == a);
                assert(hp + ha == ha);
            },
        }
    }
    lemma_parse_header_line(tree_key(), tree, t);
    assert(commit_payload(tree, parent, identity, message) == header_line(tree_key(), tree) + t);
    assert(seq![(tree_key(), tree)] + (hp + ha) == commit_headers(tree, parent, identity));
}

} // verus!
