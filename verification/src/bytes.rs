//! Byte-string helpers: substring search, prefix tests and ASCII case
//! folding, with exact specifications.  The rest of the library states
//! its contracts over these spec functions.

use vstd::prelude::*;
use vstd::slice::slice_to_vec;

verus! {

/// The needle `n` occurs in `h` at position `i`.
pub open spec fn match_at(h: Seq<u8>, n: Seq<u8>, i: int) -> bool {
    &&& 0 <= i
    &&& i + n.len() <= h.len()
    &&& h.subrange(i, i + n.len() as int) == n
}

/// Position of the first occurrence of `n` in `h` at or after `i`.
pub open spec fn find_from(h: Seq<u8>, n: Seq<u8>, i: int) -> Option<int>
    decreases h.len() - i + 1,
{
    if i < 0 || i + n.len() > h.len() {
        None
    } else if match_at(h, n, i) {
        Some(i)
    } else {
        find_from(h, n, i + 1)
    }
}

/// Position of the first occurrence of `n` in `h`.
pub open spec fn find_seq(h: Seq<u8>, n: Seq<u8>) -> Option<int> {
    find_from(h, n, 0)
}

/// `n` occurs somewhere in `h`.
pub open spec fn contains_seq(h: Seq<u8>, n: Seq<u8>) -> bool {
    find_seq(h, n) is Some
}

pub proof fn lemma_find_from_is_match(h: Seq<u8>, n: Seq<u8>, i: int)
    ensures
        find_from(h, n, i) matches Some(j) ==> i <= j && match_at(h, n, j),
    decreases h.len() - i + 1,
{
    if !(i < 0 || i + n.len() > h.len()) && !match_at(h, n, i) {
        lemma_find_from_is_match(h, n, i + 1);
    }
}

/// Whether `n` occurs in `h` at position `i`.
pub fn is_match_at(h: &[u8], n: &[u8], i: usize) -> (r: bool)
    requires
        i <= h@.len(),
    ensures
        r == match_at(h@, n@, i as int),
{
    if n.len() > h.len() - i {
        return false;
    }
    let mut j: usize = 0;
    while j < n.len()
        invariant
            h@.len() <= usize::MAX,
            i + n@.len() <= h@.len(),
            j <= n@.len(),
            forall|k: int| 0 <= k < j ==> h@[i + k] == n@[k],
        decreases n@.len() - j,
    {
        if h[i + j] != n[j] {
            assert(h@.subrange(i as int, i + n@.len() as int)[j as int] != n@[j as int]);
            return false;
        }
        j += 1;
    }
    assert(h@.subrange(i as int, i + n@.len() as int) =~= n@);
    true
}

/// First occurrence of `n` in `h`, if any.
pub fn first_occurrence(h: &[u8], n: &[u8]) -> (r: Option<usize>)
    ensures
        match r {
            Some(i) => find_seq(h@, n@) == Some(i as int),
            None => find_seq(h@, n@) is None,
        },
{
    let mut i: usize = 0;
    if n.len() > h.len() {
        assert(find_from(h@, n@, 0) is None);
        return None;
    }
    if n.len() == 0 {
        assert(h@.subrange(0, 0) =~= n@);
        return Some(0);
    }
    while i <= h.len() - n.len()
        invariant
            h@.len() <= usize::MAX,
            1 <= n@.len() <= h@.len(),
            i <= h@.len(),
            i + n@.len() <= h@.len() + 1,
            find_from(h@, n@, 0) == find_from(h@, n@, i as int),
        decreases h@.len() - i,
    {
        if is_match_at(h, n, i) {
            return Some(i);
        }
        assert(find_from(h@, n@, i as int) == find_from(h@, n@, i + 1));
        i += 1;
    }
    assert(find_from(h@, n@, i as int) is None);
    None
}

/// First occurrence of `n` in `h` at or after `from`, if any.
pub fn first_occurrence_from(h: &[u8], n: &[u8], from: usize) -> (r: Option<usize>)
    ensures
        match r {
            Some(i) => find_from(h@, n@, from as int) == Some(i as int),
            None => find_from(h@, n@, from as int) is None,
        },
{
    let mut i: usize = from;
    if n.len() > h.len() || from > h.len() - n.len() {
        proof {
            lemma_find_from_is_match(h@, n@, from as int);
        }
        return None;
    }
    if n.len() == 0 {
        assert(h@.subrange(from as int, from as int) =~= n@);
        return Some(from);
    }
    while i <= h.len() - n.len()
        invariant
            h@.len() <= usize::MAX,
            1 <= n@.len() <= h@.len(),
            from <= i <= h@.len(),
            i + n@.len() <= h@.len() + 1,
            find_from(h@, n@, from as int) == find_from(h@, n@, i as int),
        decreases h@.len() - i,
    {
        if is_match_at(h, n, i) {
            return Some(i);
        }
        assert(find_from(h@, n@, i as int) == find_from(h@, n@, i + 1));
        i += 1;
    }
    assert(find_from(h@, n@, i as int) is None);
    None
}

/// `h` contains `n` somewhere.
pub fn contains_bytes(h: &[u8], n: &[u8]) -> (r: bool)
    ensures
        r == contains_seq(h@, n@),
{
    first_occurrence(h, n).is_some()
}

/// `h` begins with `n`.
pub open spec fn starts_with(h: Seq<u8>, n: Seq<u8>) -> bool {
    match_at(h, n, 0)
}

/// Whether `h` begins with `n`.
pub fn begins_with(h: &[u8], n: &[u8]) -> (r: bool)
    ensures
        r == starts_with(h@, n@),
{
    is_match_at(h, n, 0)
}

/// Split `s` at every occurrence of the separator `sep`.  The pieces
/// do not contain the separator; `n` occurrences give `n + 1` pieces.
pub open spec fn split_seq(s: Seq<u8>, sep: Seq<u8>) -> Seq<Seq<u8>>
    decreases s.len(),
    via split_seq_decreases
{
    if sep.len() == 0 {
        seq![s]
    } else {
        match find_seq(s, sep) {
            Some(i) => seq![s.subrange(0, i)] + split_seq(
                s.subrange(i + sep.len() as int, s.len() as int),
                sep,
            ),
            None => seq![s],
        }
    }
}

#[via_fn]
proof fn split_seq_decreases(s: Seq<u8>, sep: Seq<u8>) {
    if sep.len() > 0 {
        if find_seq(s, sep) is Some {
            lemma_find_from_is_match(s, sep, 0);
        }
    }
}

/// Split a byte string at every occurrence of `sep`.
pub fn split_bytes(s: &[u8], sep: &[u8]) -> (r: Vec<Vec<u8>>)
    ensures
        r.deep_view() == split_seq(s@, sep@),
{
    let mut out: Vec<Vec<u8>> = Vec::new();
    if sep.len() == 0 {
        out.push(slice_to_vec(s));
        assert(out.deep_view() =~~= split_seq(s@, sep@));
        return out;
    }
    let mut rem: &[u8] = s;
    loop
        invariant
            sep@.len() > 0,
            out.deep_view() + split_seq(rem@, sep@) == split_seq(s@, sep@),
        decreases rem@.len(),
    {
        match first_occurrence(rem, sep) {
            Some(i) => {
                proof {
                    lemma_find_from_is_match(rem@, sep@, 0);
                }
                let ghost prev = out.deep_view();
                let piece = slice_to_vec(&rem[0..i]);
                out.push(piece);
                assert(out.deep_view() =~~= prev + seq![rem@.subrange(0, i as int)]);
                let rl = rem.len();
                assert(i + sep@.len() <= rl);
                let next = i + sep.len();
                let ghost old_rem = rem@;
                rem = &rem[next..rem.len()];
                proof {
                    assert(split_seq(old_rem, sep@) == seq![old_rem.subrange(0, i as int)]
                        + split_seq(rem@, sep@));
                    assert(out.deep_view() + split_seq(rem@, sep@) =~~= split_seq(s@, sep@));
                }
            },
            None => {
                let ghost prev = out.deep_view();
                out.push(slice_to_vec(rem));
                assert(split_seq(rem@, sep@) == seq![rem@]);
                assert(out.deep_view() =~~= prev + seq![rem@]);
                assert(out.deep_view() =~~= split_seq(s@, sep@));
                return out;
            },
        }
    }
}

/// A space or horizontal tab.
pub open spec fn is_ws(b: u8) -> bool {
    b == 32 || b == 9
}

/// Drop leading spaces and tabs.
pub open spec fn trim_start(s: Seq<u8>) -> Seq<u8>
    decreases s.len(),
{
    if s.len() > 0 && is_ws(s[0]) {
        trim_start(s.drop_first())
    } else {
        s
    }
}

/// Drop trailing spaces and tabs.
pub open spec fn trim_end(s: Seq<u8>) -> Seq<u8>
    decreases s.len(),
{
    if s.len() > 0 && is_ws(s[s.len() - 1]) {
        trim_end(s.drop_last())
    } else {
        s
    }
}

/// Drop leading and trailing spaces and tabs.
pub open spec fn trim_of(s: Seq<u8>) -> Seq<u8> {
    trim_end(trim_start(s))
}

/// Trim spaces and tabs from both ends.
pub fn trim(s: &[u8]) -> (r: Vec<u8>)
    ensures
        r@ == trim_of(s@),
{
    let mut a: usize = 0;
    assert(s@.subrange(0, s@.len() as int) =~= s@);
    while a < s.len() && (s[a] == 32 || s[a] == 9)
        invariant
            a <= s@.len(),
            trim_start(s@.subrange(a as int, s@.len() as int)) == trim_start(s@),
        decreases s@.len() - a,
    {
        proof {
            let cur = s@.subrange(a as int, s@.len() as int);
            assert(cur.drop_first() =~= s@.subrange(a + 1, s@.len() as int));
        }
        a += 1;
    }
    proof {
        let cur = s@.subrange(a as int, s@.len() as int);
        assert(trim_start(cur) == cur);
    }
    let mut b: usize = s.len();
    while b > a && (s[b - 1] == 32 || s[b - 1] == 9)
        invariant
            a <= b <= s@.len(),
            trim_start(s@) == s@.subrange(a as int, s@.len() as int),
            trim_end(s@.subrange(a as int, b as int)) == trim_of(s@),
        decreases b,
    {
        proof {
            let cur = s@.subrange(a as int, b as int);
            assert(cur.drop_last() =~= s@.subrange(a as int, b - 1));
        }
        b -= 1;
    }
    proof {
        let cur = s@.subrange(a as int, b as int);
        assert(trim_end(cur) == cur);
    }
    slice_to_vec(&s[a..b])
}

/// ASCII lower-casing of one byte.
pub open spec fn lower(b: u8) -> u8 {
    if 65 <= b <= 90 {
        (b + 32) as u8
    } else {
        b
    }
}

/// ASCII lower-casing of a byte string.
pub open spec fn lower_seq(s: Seq<u8>) -> Seq<u8> {
    s.map(|_i: int, b: u8| lower(b))
}

/// ASCII-case-insensitive equality of two byte strings.
pub open spec fn eq_ignore_case(a: Seq<u8>, b: Seq<u8>) -> bool {
    lower_seq(a) == lower_seq(b)
}

/// Lower-case a byte string (ASCII letters only).
pub fn to_lower(s: &[u8]) -> (r: Vec<u8>)
    ensures
        r@ == lower_seq(s@),
{
    let mut out: Vec<u8> = Vec::new();
    let mut i: usize = 0;
    while i < s.len()
        invariant
            i <= s@.len(),
            out@.len() == i,
            forall|k: int| 0 <= k < i ==> out@[k] == lower(s@[k]),
        decreases s@.len() - i,
    {
        let b = s[i];
        if 65 <= b && b <= 90 {
            out.push(b + 32);
        } else {
            out.push(b);
        }
        i += 1;
    }
    assert(out@ =~= lower_seq(s@));
    out
}

/// Exact equality of two byte strings.
pub fn eq_bytes(a: &[u8], b: &[u8]) -> (r: bool)
    ensures
        r == (a@ == b@),
{
    if a.len() != b.len() {
        return false;
    }
    let mut i: usize = 0;
    while i < a.len()
        invariant
            a@.len() == b@.len(),
            i <= a@.len(),
            forall|k: int| 0 <= k < i ==> a@[k] == b@[k],
        decreases a@.len() - i,
    {
        if a[i] != b[i] {
            return false;
        }
        i += 1;
    }
    assert(a@ =~= b@);
    true
}

/// ASCII-case-insensitive comparison.
pub fn eq_ignore_ascii_case(a: &[u8], b: &[u8]) -> (r: bool)
    ensures
        r == eq_ignore_case(a@, b@),
{
    if a.len() != b.len() {
        assert(lower_seq(a@).len() != lower_seq(b@).len());
        return false;
    }
    let mut i: usize = 0;
    while i < a.len()
        invariant
            a@.len() == b@.len(),
            i <= a@.len(),
            forall|k: int| 0 <= k < i ==> lower(a@[k]) == lower(b@[k]),
        decreases a@.len() - i,
    {
        let x = a[i];
        let y = b[i];
        let lx = if 65 <= x && x <= 90 { x + 32 } else { x };
        let ly = if 65 <= y && y <= 90 { y + 32 } else { y };
        if lx != ly {
            assert(lower_seq(a@)[i as int] != lower_seq(b@)[i as int]);
            return false;
        }
        i += 1;
    }
    assert(lower_seq(a@) =~= lower_seq(b@));
    true
}

} // verus!
