//! The canonical byte form of an object: `"<kind> <len>\0"` followed by the payload.
use vstd::prelude::*;

verus! {

/// Longest header (kind name, space, decimal length and NUL) that `decode` looks through.
pub const MAX_HEADER_LEN: usize = 32;

/// The kinds of object the store holds.
#[derive(Debug, Clone, Copy, PartialEq, Eq, Structural)]
pub enum Kind {
    Blob,
    Tree,
    Commit,
    Tag,
}

/// Why a byte sequence is not the canonical form of an object.
#[derive(Debug, Clone, Copy, PartialEq, Eq, Structural)]
pub enum DecodeError {
    /// No NUL within the header bound, or no space before it.
    MalformedHeader,
    /// The kind token names no known kind.
    UnknownKind,
    /// The length token is empty or holds a byte that is not a decimal digit.
    InvalidLength,
    /// The number of payload bytes differs from the declared length.
    SizeMismatch,
}

/// The lowercase name of a kind, as the header writes it.
pub open spec fn kind_name(k: Kind) -> Seq<u8> {
    match k {
        // "blob"
        Kind::Blob => seq![98u8, 108u8, 111u8, 98u8],
        // "tree"
        Kind::Tree => seq![116u8, 114u8, 101u8, 101u8],
        // "commit"
        Kind::Commit => seq![99u8, 111u8, 109u8, 109u8, 105u8, 116u8],
        // "tag"
        Kind::Tag => seq![116u8, 97u8, 103u8],
    }
}

/// The kind that a header token names, if any.
pub open spec fn kind_of_name(s: Seq<u8>) -> Option<Kind> {
    if s == kind_name(Kind::Blob) {
        Some(Kind::Blob)
    } else if s == kind_name(Kind::Tree) {
        Some(Kind::Tree)
    } else if s == kind_name(Kind::Commit) {
        Some(Kind::Commit)
    } else if s == kind_name(Kind::Tag) {
        Some(Kind::Tag)
    } else {
        None
    }
}

/// An ASCII decimal digit, `'0'` (48) to `'9'` (57).
pub open spec fn is_digit(b: u8) -> bool {
    48u8 <= b <= 57u8
}

/// Every byte of `s` is a decimal digit.
pub open spec fn all_digits(s: Seq<u8>) -> bool {
    forall|i: int| 0 <= i < s.len() ==> is_digit(#[trigger] s[i])
}

/// The decimal numeral of `n`, without leading zeros.
pub open spec fn decimal(n: nat) -> Seq<u8>
    decreases n,
{
    if n < 10 {
        seq![(48u8 + n) as u8]
    } else {
        decimal(n / 10).push((48u8 + n % 10) as u8)
    }
}

/// The value of a string of decimal digits.
pub open spec fn digits_value(s: Seq<u8>) -> nat
    decreases s.len(),
{
    if s.len() == 0 {
        0
    } else {
        digits_value(s.drop_last()) * 10 + (s.last() - 48u8) as nat
    }
}

/// The index of the first `x` in `s`, or -1.
pub open spec fn index_of(s: Seq<u8>, x: u8) -> int
    decreases s.len(),
{
    if s.len() == 0 {
        -1
    } else {
        let r = index_of(s.drop_last(), x);
        if r >= 0 {
            r
        } else if s.last() == x {
            s.len() - 1
        } else {
            -1
        }
    }
}

/// The smaller of two integers.
pub open spec fn min(a: int, b: int) -> int {
    if a <= b {
        a
    } else {
        b
    }
}

/// The canonical bytes of an object of kind `k` with payload `p`.
pub open spec fn encoded(k: Kind, p: Seq<u8>) -> Seq<u8> {
    kind_name(k) + seq![32u8] + decimal(p.len()) + seq![0u8] + p
}

/// What `decode` makes of the bytes `b`.
pub open spec fn decoded(b: Seq<u8>) -> Result<(Kind, Seq<u8>), DecodeError> {
    let z = index_of(b.take(min(b.len() as int, MAX_HEADER_LEN as int)), 0);
    if z < 0 {
        Err(DecodeError::MalformedHeader)
    } else {
        let header = b.take(z);
        let s = index_of(header, 32u8);
        if s < 0 {
            Err(DecodeError::MalformedHeader)
        } else {
            match kind_of_name(header.take(s)) {
                None => Err(DecodeError::UnknownKind),
                Some(k) => {
                    let t = header.subrange(s + 1, z);
                    if t.len() == 0 || !all_digits(t) {
                        Err(DecodeError::InvalidLength)
                    } else if digits_value(t) != b.len() - z - 1 {
                        Err(DecodeError::SizeMismatch)
                    } else {
                        Ok((k, b.skip(z + 1)))
                    }
                },
            }
        }
    }
}

/// The name of a kind, as the header writes it.
pub fn kind_name_bytes(k: Kind) -> (r: Vec<u8>)
    ensures
        r@ == kind_name(k),
{
    match k {
        Kind::Blob => vec![98u8, 108u8, 111u8, 98u8],
        Kind::Tree => vec![116u8, 114u8, 101u8, 101u8],
        Kind::Commit => vec![99u8, 111u8, 109u8, 109u8, 105u8, 116u8],
        Kind::Tag => vec![116u8, 97u8, 103u8],
    }
}


/// The view of what `decode` returns.
pub open spec fn decode_view(r: Result<(Kind, Vec<u8>), DecodeError>) -> Result<(Kind, Seq<u8>), DecodeError> {
    match r {
        Ok((k, p)) => Ok((k, p@)),
        Err(e) => Err(e),
    }
}

/// `index_of` gives the first occurrence, or -1 where there is none.
pub proof fn lemma_index_of(s: Seq<u8>, x: u8)
    ensures
        -1 <= index_of(s, x) < s.len(),
        index_of(s, x) >= 0 ==> s[index_of(s, x)] == x,
        forall|i: int|
            0 <= i < (if index_of(s, x) >= 0 { index_of(s, x) } else { s.len() as int })
                ==> s[i] != x,
    decreases s.len(),
{
    if s.len() > 0 {
        let t = s.drop_last();
        lemma_index_of(t, x);
        assert forall|i: int| 0 <= i < t.len() implies t[i] == s[i] by {}
    }
}

/// `index_of` is pinned down by its first occurrence.
pub proof fn lemma_index_of_at(s: Seq<u8>, x: u8, i: int)
    requires
        0 <= i < s.len(),
        s[i] == x,
        forall|j: int| 0 <= j < i ==> s[j] != x,
    ensures
        index_of(s, x) == i,
{
    lemma_index_of(s, x);
}

/// `index_of` is -1 where the value does not occur.
pub proof fn lemma_index_of_none(s: Seq<u8>, x: u8)
    requires
        forall|j: int| 0 <= j < s.len() ==> s[j] != x,
    ensures
        index_of(s, x) == -1,
{
    lemma_index_of(s, x);
}

/// A decimal numeral is a non-empty string of digits whose value is the number.
pub proof fn lemma_decimal(n: nat)
    ensures
        decimal(n).len() >= 1,
        all_digits(decimal(n)),
        digits_value(decimal(n)) == n,
    decreases n,
{
    let d = decimal(n);
    if n >= 10 {
        lemma_decimal(n / 10);
        assert(d.drop_last() == decimal(n / 10));
        assert forall|i: int| 0 <= i < d.len() implies is_digit(#[trigger] d[i]) by {
            if i < d.len() - 1 {
                assert(d[i] == decimal(n / 10)[i]);
            }
        }
        assert(n == (n / 10) * 10 + n % 10);
    } else {
        assert(d.drop_last().len() == 0);
        assert(digits_value(d.drop_last()) == 0);
    }
}

/// A number below `10^k` has at most `k` digits.
pub proof fn lemma_decimal_len(n: nat, bound: nat, k: nat)
    requires
        n < bound,
        bound == pow10(k),
        k >= 1,
    ensures
        decimal(n).len() <= k,
    decreases n,
{
    if n >= 10 {
        assert(k >= 2) by {
            if k == 1 {
                assert(pow10(1) == 10 * pow10(0));
            }
        }
        let b2 = pow10((k - 1) as nat);
        assert(bound == 10 * b2);
        assert(n / 10 < b2) by (nonlinear_arith)
            requires
                n < 10 * b2,
        ;
        lemma_decimal_len(n / 10, b2, (k - 1) as nat);
    }
}

/// `10^k`.
pub open spec fn pow10(k: nat) -> nat
    decreases k,
{
    if k == 0 {
        1
    } else {
        10 * pow10((k - 1) as nat)
    }
}


/// The decimal numeral of `n`.
pub fn decimal_bytes(n: usize) -> (r: Vec<u8>)
    ensures
        r@ == decimal(n as nat),
    decreases n,
{
    if n < 10 {
        vec![48u8 + n as u8]
    } else {
        let mut r = decimal_bytes(n / 10);
        r.push(48u8 + (n % 10) as u8);
        r
    }
}

/// Appends `src` to `dst`.
pub fn append_bytes(dst: &mut Vec<u8>, src: &[u8])
    ensures
        final(dst)@ == old(dst)@ + src@,
{
    let mut i: usize = 0;
    while i < src.len()
        invariant
            i <= src@.len(),
            dst@ == old(dst)@ + src@.take(i as int),
        decreases src@.len() - i,
    {
        dst.push(src[i]);
        i = i + 1;
        assert(src@.take(i as int) == src@.take(i - 1 as int).push(src@[i - 1]));
    }
    assert(src@.take(i as int) == src@);
}

/// A copy of `b[lo..hi]`.
pub fn copy_range(b: &[u8], lo: usize, hi: usize) -> (r: Vec<u8>)
    requires
        lo <= hi <= b@.len(),
    ensures
        r@ == b@.subrange(lo as int, hi as int),
{
    let mut r: Vec<u8> = Vec::new();
    let mut i: usize = lo;
    while i < hi
        invariant
            lo <= i <= hi <= b@.len(),
            r@ == b@.subrange(lo as int, i as int),
        decreases hi - i,
    {
        r.push(b[i]);
        i = i + 1;
    }
    r
}

/// A copy of `b`.
pub fn copy_of(b: &[u8]) -> (r: Vec<u8>)
    ensures
        r@ == b@,
{
    let mut r: Vec<u8> = Vec::new();
    append_bytes(&mut r, b);
    r
}

/// The canonical bytes of an object of kind `kind` with payload `payload`.
pub fn encode(kind: Kind, payload: &[u8]) -> (r: Vec<u8>)
    requires
        payload@.len() + MAX_HEADER_LEN <= usize::MAX,
    ensures
        r@ == encoded(kind, payload@),
{
    let mut r = kind_name_bytes(kind);
    r.push(32u8);
    let digits = decimal_bytes(payload.len());
    append_bytes(&mut r, digits.as_slice());
    r.push(0u8);
    append_bytes(&mut r, payload);
    r
}

/// The index, counted from `lo`, of the first `x` in `b[lo..hi]`.
pub fn find_in(b: &[u8], x: u8, lo: usize, hi: usize) -> (r: Option<usize>)
    requires
        lo <= hi <= b@.len(),
    ensures
        match r {
            None => index_of(b@.subrange(lo as int, hi as int), x) == -1,
            Some(i) => index_of(b@.subrange(lo as int, hi as int), x) == i,
        },
{
    let ghost t = b@.subrange(lo as int, hi as int);
    let mut i: usize = lo;
    while i < hi
        invariant
            lo <= i <= hi <= b@.len(),
            t == b@.subrange(lo as int, hi as int),
            forall|j: int| 0 <= j < i - lo ==> t[j] != x,
        decreases hi - i,
    {
        if b[i] == x {
            proof {
                lemma_index_of_at(t, x, i - lo);
            }
            return Some(i - lo);
        }
        i = i + 1;
    }
    proof {
        lemma_index_of_none(t, x);
    }
    None
}

/// Whether `b[lo..hi]` equals `name`.
pub fn range_eq(b: &[u8], lo: usize, hi: usize, name: &[u8]) -> (r: bool)
    requires
        lo <= hi <= b@.len(),
    ensures
        r == (b@.subrange(lo as int, hi as int) == name@),
{
    if hi - lo != name.len() {
        return false;
    }
    let mut i: usize = 0;
    while i < name.len()
        invariant
            hi - lo == name@.len(),
            lo <= hi <= b@.len(),
            i <= name@.len(),
            forall|j: int| 0 <= j < i ==> b@[lo + j] == name@[j],
        decreases name@.len() - i,
    {
        if b[lo + i] != name[i] {
            assert(b@.subrange(lo as int, hi as int)[i as int] != name@[i as int]);
            return false;
        }
        i = i + 1;
    }
    assert(b@.subrange(lo as int, hi as int) == name@);
    true
}

/// The kind named by `b[lo..hi]`.
fn kind_from_name(b: &[u8], lo: usize, hi: usize) -> (r: Option<Kind>)
    requires
        lo <= hi <= b@.len(),
    ensures
        r == kind_of_name(b@.subrange(lo as int, hi as int)),
{
    if range_eq(b, lo, hi, kind_name_bytes(Kind::Blob).as_slice()) {
        Some(Kind::Blob)
    } else if range_eq(b, lo, hi, kind_name_bytes(Kind::Tree).as_slice()) {
        Some(Kind::Tree)
    } else if range_eq(b, lo, hi, kind_name_bytes(Kind::Commit).as_slice()) {
        Some(Kind::Commit)
    } else if range_eq(b, lo, hi, kind_name_bytes(Kind::Tag).as_slice()) {
        Some(Kind::Tag)
    } else {
        None
    }
}

/// Reads the digits `b[lo..hi]`: `None` when there are none or one is not a digit, else their
/// value, or `cap + 1` where the value exceeds `cap`.
fn parse_length(b: &[u8], lo: usize, hi: usize, cap: usize) -> (r: Option<u128>)
    requires
        lo <= hi <= b@.len(),
    ensures
        ({
            let t = b@.subrange(lo as int, hi as int);
            match r {
                None => t.len() == 0 || !all_digits(t),
                Some(v) => t.len() > 0 && all_digits(t) && v == min(
                    digits_value(t) as int,
                    cap + 1,
                ),
            }
        }),
{
    let ghost t = b@.subrange(lo as int, hi as int);
    if lo == hi {
        return None;
    }
    let mut acc: u128 = 0;
    let mut i: usize = lo;
    while i < hi
        invariant
            lo <= i <= hi <= b@.len(),
            t == b@.subrange(lo as int, hi as int),
            all_digits(t.take(i - lo)),
            acc == min(digits_value(t.take(i - lo)) as int, cap + 1),
        decreases hi - i,
    {
        let c = b[i];
        if c < 48u8 || c > 57u8 {
            assert(t[i - lo] == c);
            return None;
        }
        let ghost prev = t.take(i - lo);
        let ghost next = t.take(i - lo + 1);
        assert(next.drop_last() == prev);
        assert(next.last() == c);
        if acc > cap as u128 {
            assert(digits_value(next) >= digits_value(prev));
        } else {
            acc = acc * 10 + (c - 48u8) as u128;
            if acc > cap as u128 {
                acc = cap as u128 + 1;
            }
        }
        i = i + 1;
        assert forall|j: int| 0 <= j < next.len() implies is_digit(#[trigger] next[j]) by {
            if j < prev.len() {
                assert(next[j] == prev[j]);
            }
        }
    }
    assert(t.take(hi - lo) == t);
    Some(acc)
}

/// Splits canonical bytes into kind and payload.
pub fn decode(b: &[u8]) -> (r: Result<(Kind, Vec<u8>), DecodeError>)
    ensures
        decode_view(r) == decoded(b@),
{
    let limit = if b.len() < MAX_HEADER_LEN {
        b.len()
    } else {
        MAX_HEADER_LEN
    };
    assert(b@.subrange(0, limit as int) == b@.take(limit as int));
    let z = match find_in(b, 0u8, 0, limit) {
        None => return Err(DecodeError::MalformedHeader),
        Some(z) => z,
    };
    proof {
        lemma_index_of(b@.take(limit as int), 0u8);
        assert(b@.take(z as int).take(z as int) == b@.take(z as int));
    }
    assert(b@.subrange(0, z as int) == b@.take(z as int));
    let s = match find_in(b, 32u8, 0, z) {
        None => return Err(DecodeError::MalformedHeader),
        Some(s) => s,
    };
    proof {
        lemma_index_of(b@.take(z as int), 32u8);
        assert(b@.take(z as int).take(s as int) == b@.subrange(0, s as int));
        assert(b@.take(z as int).subrange(s + 1, z as int) == b@.subrange(s + 1, z as int));
    }
    let kind = match kind_from_name(b, 0, s) {
        None => return Err(DecodeError::UnknownKind),
        Some(k) => k,
    };
    let rest = b.len() - z - 1;
    let v = match parse_length(b, s + 1, z, rest) {
        None => return Err(DecodeError::InvalidLength),
        Some(v) => v,
    };
    if v != rest as u128 {
        return Err(DecodeError::SizeMismatch);
    }
    let payload = copy_range(b, z + 1, b.len());
    Ok((kind, payload))
}

/// Decoding the canonical bytes of an object gives back its kind and payload.
pub proof fn lemma_round_trip(k: Kind, p: Seq<u8>)
    requires
        p.len() <= usize::MAX,
    ensures
        decoded(encoded(k, p)) == Ok::<(Kind, Seq<u8>), DecodeError>((k, p)),
{
    let name = kind_name(k);
    let d = decimal(p.len());
    let b = encoded(k, p);
    lemma_decimal(p.len());
    reveal_with_fuel(pow10, 21);
    assert(pow10(20) == 100000000000000000000);
    lemma_decimal_len(p.len(), pow10(20), 20);
    let z: int = name.len() + 1 + d.len() as int;
    assert(z < MAX_HEADER_LEN);
    assert(b[z] == 0);
    let lim = b.take(min(b.len() as int, MAX_HEADER_LEN as int));
    assert forall|j: int| 0 <= j < z implies lim[j] != 0u8 by {
        if j < name.len() {
        } else if j == name.len() {
        } else {
            assert(lim[j] == d[j - name.len() - 1]);
            assert(is_digit(d[j - name.len() - 1]));
        }
    }
    lemma_index_of_at(lim, 0u8, z);
    let header = b.take(z);
    assert forall|j: int| 0 <= j < name.len() implies header[j] != 32u8 by {}
    lemma_index_of_at(header, 32u8, name.len() as int);
    assert(header.take(name.len() as int) == name);
    assert(kind_of_name(name) == Some(k));
    assert(header.subrange(name.len() + 1 as int, z) == d);
    assert(b.skip(z + 1) == p);
}


/// Bytes that decode are exactly a header and the payload, with the declared length equal
/// to the payload's: nothing is cut off and nothing is left over.
pub proof fn lemma_decoded_exact(b: Seq<u8>, k: Kind, p: Seq<u8>)
    requires
        decoded(b) == Ok::<(Kind, Seq<u8>), DecodeError>((k, p)),
    ensures
        exists|t: Seq<u8>|
            #![trigger digits_value(t)]
            t.len() > 0 && all_digits(t) && digits_value(t) == p.len() && b == kind_name(k)
                + seq![32u8] + t + seq![0u8] + p,
{
    let lim = b.take(min(b.len() as int, MAX_HEADER_LEN as int));
    let z = index_of(lim, 0);
    lemma_index_of(lim, 0);
    let header = b.take(z);
    let s = index_of(header, 32);
    lemma_index_of(header, 32);
    let t = header.subrange(s + 1, z);
    assert(header.take(s) == kind_name(k));
    assert(b == header.take(s) + seq![32u8] + t + seq![0u8] + b.skip(z + 1));
    assert(digits_value(t) == p.len());
}

} // verus!
