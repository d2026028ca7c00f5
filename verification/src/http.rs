//! Splitting an HTTP response payload into its header block and body,
//! and reading the charset label out of a `Content-type` header.
//!
//! The header block is the bytes up to the first blank line
//! (`\r\n\r\n`); its first line is the status line, each further line
//! one `name: value` header.  A payload whose header block cannot be
//! parsed is used whole as the body, with no headers (permissive
//! fallback).

use vstd::prelude::*;
use crate::bytes::{
    eq_ignore_ascii_case, eq_ignore_case, find_seq, first_occurrence, split_bytes, split_seq,
    trim, trim_of,
};
use vstd::slice::slice_to_vec;

verus! {

/// `\r\n`.
pub open spec fn crlf() -> Seq<u8> {
    seq![13u8, 10u8]
}

/// `\r\n\r\n`, the header block terminator.
pub open spec fn crlf2() -> Seq<u8> {
    seq![13u8, 10u8, 13u8, 10u8]
}

/// The most headers a response block may carry.
pub const MAX_HEADERS: usize = 64;

/// One `name: value` header line: the name is everything before the
/// first colon, the value everything after it, trimmed.
pub open spec fn header_pair_of(line: Seq<u8>) -> Option<(Seq<u8>, Seq<u8>)> {
    match find_seq(line, seq![58u8]) {
        Some(i) => Some((line.subrange(0, i), trim_of(line.subrange(i + 1, line.len() as int)))),
        None => None,
    }
}

/// Parse every line as a header; any malformed line spoils the block.
pub open spec fn headers_of_lines(lines: Seq<Seq<u8>>) -> Option<Seq<(Seq<u8>, Seq<u8>)>>
    decreases lines.len(),
{
    if lines.len() == 0 {
        Some(Seq::empty())
    } else {
        match header_pair_of(lines[0]) {
            Some(p) => match headers_of_lines(lines.drop_first()) {
                Some(r) => Some(seq![p] + r),
                None => None,
            },
            None => None,
        }
    }
}

/// Where the body starts and which headers precede it, if the payload
/// carries a well-formed header block of at most [`MAX_HEADERS`]
/// headers.
pub open spec fn http_split_of(p: Seq<u8>) -> Option<(int, Seq<(Seq<u8>, Seq<u8>)>)> {
    match find_seq(p, crlf2()) {
        Some(i) => {
            let lines = split_seq(p.subrange(0, i), crlf());
            if lines.len() <= MAX_HEADERS + 1 {
                match headers_of_lines(lines.drop_first()) {
                    Some(hs) => Some((i + 4, hs)),
                    None => None,
                }
            } else {
                None
            }
        },
        None => None,
    }
}

/// Parse one header line into its name and trimmed value.
fn parse_header_line(line: &[u8]) -> (r: Option<(Vec<u8>, Vec<u8>)>)
    ensures
        match r {
            Some(p) => header_pair_of(line@) == Some((p.0@, p.1@)),
            None => header_pair_of(line@) is None,
        },
{
    let colon: [u8; 1] = [58u8];
    assert(colon@ =~= seq![58u8]);
    let n = line.len();
    match first_occurrence(line, colon.as_slice()) {
        Some(i) => {
            proof {
                crate::bytes::lemma_find_from_is_match(line@, colon@, 0);
            }
            let name = slice_to_vec(&line[0..i]);
            let value = trim(&line[i + 1..n]);
            Some((name, value))
        },
        None => None,
    }
}

/// Parse every line after the first as a `name: value` header.
pub fn parse_header_lines(lines: &Vec<Vec<u8>>) -> (r: Option<Vec<(Vec<u8>, Vec<u8>)>>)
    requires
        lines@.len() >= 1,
    ensures
        match r {
            Some(hs) => headers_of_lines(lines.deep_view().drop_first()) == Some(hs.deep_view()),
            None => headers_of_lines(lines.deep_view().drop_first()) is None,
        },
{
    let mut headers: Vec<(Vec<u8>, Vec<u8>)> = Vec::new();
    let mut k: usize = 1;
    let ghost line_views = lines.deep_view();
    let ghost s1 = line_views.drop_first();
    assert(s1 =~= line_views.subrange(1, line_views.len() as int));
    while k < lines.len()
        invariant
            1 <= k <= line_views.len(),
            lines.deep_view() == line_views,
            line_views.len() >= 1,
            s1 == line_views.drop_first(),
            s1 == line_views.subrange(1, line_views.len() as int),
            headers_of_lines(line_views.subrange(k as int, line_views.len() as int)) matches Some(
                rest,
            ) ==> headers_of_lines(s1) == Some(headers.deep_view() + rest),
            headers_of_lines(line_views.subrange(k as int, line_views.len() as int)) is None
                ==> headers_of_lines(s1) is None,
        decreases line_views.len() - k,
    {
        let line: &Vec<u8> = &lines[k];
        proof {
            assert(line@ =~= line_views[k as int]);
        }
        match parse_header_line(line.as_slice()) {
            Some(pair) => {
                proof {
                    let cur = line_views.subrange(k as int, line_views.len() as int);
                    let nxt = line_views.subrange(k + 1, line_views.len() as int);
                    assert(cur[0] == line_views[k as int]);
                    assert(cur.drop_first() =~= nxt);
                    let ghost hv = headers.deep_view();
                    if let Some(rest2) = headers_of_lines(nxt) {
                        assert(headers_of_lines(cur) == Some(seq![(pair.0@, pair.1@)] + rest2));
                        assert(hv + (seq![(pair.0@, pair.1@)] + rest2) =~~= (hv + seq![
                            (pair.0@, pair.1@),
                        ]) + rest2);
                    }
                }
                let ghost prev = headers.deep_view();
                headers.push(pair);
                assert(headers.deep_view() =~~= prev + seq![(pair.0@, pair.1@)]);
            },
            None => {
                proof {
                    let cur = line_views.subrange(k as int, line_views.len() as int);
                    assert(cur[0] == line_views[k as int]);
                    assert(headers_of_lines(cur) is None);
                }
                return None;
            },
        }
        k += 1;
    }
    proof {
        let tail = line_views.subrange(k as int, line_views.len() as int);
        assert(tail.len() == 0);
        assert(headers_of_lines(tail) == Some(Seq::<(Seq<u8>, Seq<u8>)>::empty()));
        assert(headers.deep_view() + Seq::<(Seq<u8>, Seq<u8>)>::empty() =~~= headers.deep_view());
    }
    Some(headers)
}

/// Split a response payload into its body offset and header list.
/// Returns `None` when the payload has no parseable header block; the
/// caller then treats the whole payload as body.
pub fn split_response(p: &[u8]) -> (r: Option<(usize, Vec<(Vec<u8>, Vec<u8>)>)>)
    ensures
        match r {
            Some((off, hs)) => http_split_of(p@) == Some((off as int, hs.deep_view())),
            None => http_split_of(p@) is None,
        },
{
    let terminator: [u8; 4] = [13u8, 10u8, 13u8, 10u8];
    let sep: [u8; 2] = [13u8, 10u8];
    assert(terminator@ =~= crlf2());
    assert(sep@ =~= crlf());
    let pl = p.len();
    let i = match first_occurrence(p, terminator.as_slice()) {
        Some(i) => i,
        None => {
            return None;
        },
    };
    proof {
        crate::bytes::lemma_find_from_is_match(p@, terminator@, 0);
    }
    let block = &p[0..i];
    let lines = split_bytes(block, sep.as_slice());
    let ghost line_views = lines.deep_view();
    assert(line_views == split_seq(p@.subrange(0, i as int), crlf()));
    if lines.len() > MAX_HEADERS + 1 {
        return None;
    }
    assert(lines@.len() >= 1) by {
        assert(line_views.len() >= 1);
    }
    let headers = match parse_header_lines(&lines) {
        Some(hs) => hs,
        None => {
            return None;
        },
    };
    Some((i + 4, headers))
}

/// First header (in order) whose name equals `name` up to ASCII case.
pub open spec fn header_lookup(hs: Seq<(Seq<u8>, Seq<u8>)>, name: Seq<u8>) -> Option<Seq<u8>>
    decreases hs.len(),
{
    if hs.len() == 0 {
        None
    } else if eq_ignore_case(hs[0].0, name) {
        Some(hs[0].1)
    } else {
        header_lookup(hs.drop_first(), name)
    }
}

/// Look a header up by name, ignoring ASCII case.
pub fn find_header(hs: &Vec<(Vec<u8>, Vec<u8>)>, name: &[u8]) -> (r: Option<Vec<u8>>)
    ensures
        match r {
            Some(v) => header_lookup(hs.deep_view(), name@) == Some(v@),
            None => header_lookup(hs.deep_view(), name@) is None,
        },
{
    let ghost views = hs.deep_view();
    assert(views.subrange(0, views.len() as int) =~= views);
    let mut k: usize = 0;
    while k < hs.len()
        invariant
            k <= views.len(),
            hs.deep_view() == views,
            header_lookup(views.subrange(k as int, views.len() as int), name@) == header_lookup(
                views,
                name@,
            ),
        decreases views.len() - k,
    {
        proof {
            let cur = views.subrange(k as int, views.len() as int);
            assert(cur[0] == views[k as int]);
            assert(cur.drop_first() =~= views.subrange(k + 1, views.len() as int));
            assert(views[k as int].0 =~= hs@[k as int].0@);
            assert(views[k as int].1 =~= hs@[k as int].1@);
        }
        if eq_ignore_ascii_case(hs[k].0.as_slice(), name) {
            return Some(slice_to_vec(hs[k].1.as_slice()));
        }
        k += 1;
    }
    proof {
        assert(views.subrange(k as int, views.len() as int).len() == 0);
    }
    None
}

/// `; charset=`, the label separator inside a `Content-type` value.
pub open spec fn charset_sep() -> Seq<u8> {
    seq![59u8, 32u8, 99u8, 104u8, 97u8, 114u8, 115u8, 101u8, 116u8, 61u8]
}

/// The charset label of a `Content-type` value: what stands between
/// the first `; charset=` and the next one (or the end).
pub open spec fn charset_label_of(ct: Seq<u8>) -> Option<Seq<u8>> {
    match find_seq(ct, charset_sep()) {
        Some(i) => {
            let rest = ct.subrange(i + charset_sep().len() as int, ct.len() as int);
            match find_seq(rest, charset_sep()) {
                Some(j) => Some(rest.subrange(0, j)),
                None => Some(rest),
            }
        },
        None => None,
    }
}

/// Extract the charset label from a `Content-type` value, if any.
pub fn charset_label(ct: &[u8]) -> (r: Option<Vec<u8>>)
    ensures
        match r {
            Some(v) => charset_label_of(ct@) == Some(v@),
            None => charset_label_of(ct@) is None,
        },
{
    let sep: [u8; 10] = [59u8, 32u8, 99u8, 104u8, 97u8, 114u8, 115u8, 101u8, 116u8, 61u8];
    assert(sep@ =~= charset_sep());
    let cl = ct.len();
    match first_occurrence(ct, sep.as_slice()) {
        Some(i) => {
            proof {
                crate::bytes::lemma_find_from_is_match(ct@, sep@, 0);
            }
            let rest = &ct[i + 10..cl];
            match first_occurrence(rest, sep.as_slice()) {
                Some(j) => {
                    proof {
                        crate::bytes::lemma_find_from_is_match(rest@, sep@, 0);
                    }
                    Some(slice_to_vec(&rest[0..j]))
                },
                None => Some(slice_to_vec(rest)),
            }
        },
        None => None,
    }
}

} // verus!
