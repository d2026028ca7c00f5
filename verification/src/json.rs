//! The canonical JSON form of an archive summary, as it is stored on
//! disk: compact, fields in a fixed order, strings escaped the
//! conventional way (quote, backslash, and control characters; the
//! five short escapes, `\u00XY` otherwise).
//!
//! [`json_summary`] is the storage format's definition.  The writer
//! emits exactly these bytes; the reader accepts exactly them, so a
//! loaded summary re-serializes to the very bytes of its file.

use vstd::prelude::*;
use crate::dec::{dec_of, dec_value, is_digits, u64_to_dec};
use crate::summary::{wf_v, ArchiveSummary, ArchiveSummaryV, URLSummary, URLSummaryV};
use crate::text::strings_bytes;
use vstd::utf8::valid_utf8;

verus! {

/// Low hex digit of a byte, lower case.
pub open spec fn hex_lo(b: u8) -> u8 {
    if b % 16 < 10 {
        (48 + b % 16) as u8
    } else {
        (87 + b % 16) as u8
    }
}

/// High hex digit of a byte, lower case.
pub open spec fn hex_hi(b: u8) -> u8 {
    if b / 16 < 10 {
        (48 + b / 16) as u8
    } else {
        (87 + b / 16) as u8
    }
}

/// The escape of one byte of string content.
pub open spec fn esc_byte(b: u8) -> Seq<u8> {
    if b == 34 {
        seq![92u8, 34u8]
    } else if b == 92 {
        seq![92u8, 92u8]
    } else if b == 8 {
        seq![92u8, 98u8]
    } else if b == 9 {
        seq![92u8, 116u8]
    } else if b == 10 {
        seq![92u8, 110u8]
    } else if b == 12 {
        seq![92u8, 102u8]
    } else if b == 13 {
        seq![92u8, 114u8]
    } else if b < 32 {
        seq![92u8, 117u8, 48u8, 48u8, hex_hi(b), hex_lo(b)]
    } else {
        seq![b]
    }
}

/// The escaped form of string content.
pub open spec fn esc_seq(s: Seq<u8>) -> Seq<u8>
    decreases s.len(),
{
    if s.len() == 0 {
        Seq::empty()
    } else {
        esc_byte(s[0]) + esc_seq(s.drop_first())
    }
}

/// Escaping distributes over appending one byte at the end.
pub proof fn lemma_esc_snoc(s: Seq<u8>)
    requires
        s.len() > 0,
    ensures
        esc_seq(s) == esc_seq(s.drop_last()) + esc_byte(s.last()),
    decreases s.len(),
{
    if s.len() == 1 {
        assert(s.drop_last() =~= Seq::<u8>::empty());
        assert(s.drop_first() =~= Seq::<u8>::empty());
        assert(esc_seq(s) =~= esc_byte(s[0]) + esc_seq(s.drop_first()));
        assert(esc_seq(s.drop_last()) + esc_byte(s.last()) =~= esc_byte(s[0]));
        assert(esc_byte(s[0]) + Seq::<u8>::empty() =~= esc_byte(s[0]));
    } else {
        let t = s.drop_first();
        lemma_esc_snoc(t);
        assert(t.drop_last() =~= s.drop_last().drop_first());
        assert(t.last() == s.last());
        assert(esc_seq(s) == esc_byte(s[0]) + (esc_seq(t.drop_last()) + esc_byte(s.last())));
        assert(esc_seq(s.drop_last()) == esc_byte(s[0]) + esc_seq(s.drop_last().drop_first()));
        assert(esc_byte(s[0]) + (esc_seq(t.drop_last()) + esc_byte(s.last())) =~= (esc_byte(s[0])
            + esc_seq(t.drop_last())) + esc_byte(s.last()));
    }
}

/// Escaping distributes over concatenation.
pub proof fn lemma_esc_concat(a: Seq<u8>, b: Seq<u8>)
    ensures
        esc_seq(a + b) == esc_seq(a) + esc_seq(b),
    decreases a.len(),
{
    if a.len() == 0 {
        assert(a + b =~= b);
        assert(esc_seq(a) =~= Seq::<u8>::empty());
        assert(esc_seq(a) + esc_seq(b) =~= esc_seq(b));
    } else {
        assert((a + b).drop_first() =~= a.drop_first() + b);
        lemma_esc_concat(a.drop_first(), b);
        assert((a + b)[0] == a[0]);
        assert(esc_seq(a + b) == esc_byte(a[0]) + (esc_seq(a.drop_first()) + esc_seq(b)));
        assert(esc_byte(a[0]) + (esc_seq(a.drop_first()) + esc_seq(b)) =~= (esc_byte(a[0])
            + esc_seq(a.drop_first())) + esc_seq(b));
    }
}

/// A JSON string: quoted, escaped content.
pub open spec fn json_string(s: Seq<u8>) -> Seq<u8> {
    seq![34u8] + esc_seq(s) + seq![34u8]
}

/// Comma-separated JSON strings.
pub open spec fn string_items(v: Seq<Seq<u8>>) -> Seq<u8>
    decreases v.len(),
{
    if v.len() == 0 {
        Seq::empty()
    } else if v.len() == 1 {
        json_string(v[0])
    } else {
        string_items(v.drop_last()) + seq![44u8] + json_string(v.last())
    }
}

/// A JSON array of strings.
pub open spec fn json_strings_array(v: Seq<Seq<u8>>) -> Seq<u8> {
    seq![91u8] + string_items(v) + seq![93u8]
}

/// `{"nr_unknown_encoding":`
pub open spec fn key_unknown() -> Seq<u8> {
    seq![123u8, 34u8, 110u8, 114u8, 95u8, 117u8, 110u8, 107u8, 110u8, 111u8, 119u8, 110u8, 95u8,
        101u8, 110u8, 99u8, 111u8, 100u8, 105u8, 110u8, 103u8, 34u8, 58u8]
}

/// `,"nr_urls_without_patterns":`
pub open spec fn key_without() -> Seq<u8> {
    seq![44u8, 34u8, 110u8, 114u8, 95u8, 117u8, 114u8, 108u8, 115u8, 95u8, 119u8, 105u8, 116u8,
        104u8, 111u8, 117u8, 116u8, 95u8, 112u8, 97u8, 116u8, 116u8, 101u8, 114u8, 110u8, 115u8,
        34u8, 58u8]
}

/// `,"nr_forms_without_patterns":`
pub open spec fn key_forms() -> Seq<u8> {
    seq![44u8, 34u8, 110u8, 114u8, 95u8, 102u8, 111u8, 114u8, 109u8, 115u8, 95u8, 119u8, 105u8,
        116u8, 104u8, 111u8, 117u8, 116u8, 95u8, 112u8, 97u8, 116u8, 116u8, 101u8, 114u8, 110u8,
        115u8, 34u8, 58u8]
}

/// `,"urls_with_pattern_forms":`
pub open spec fn key_urls() -> Seq<u8> {
    seq![44u8, 34u8, 117u8, 114u8, 108u8, 115u8, 95u8, 119u8, 105u8, 116u8, 104u8, 95u8, 112u8,
        97u8, 116u8, 116u8, 101u8, 114u8, 110u8, 95u8, 102u8, 111u8, 114u8, 109u8, 115u8, 34u8,
        58u8]
}

/// `{"url":`
pub open spec fn key_url() -> Seq<u8> {
    seq![123u8, 34u8, 117u8, 114u8, 108u8, 34u8, 58u8]
}

/// `,"with_patterns":`
pub open spec fn key_wp() -> Seq<u8> {
    seq![44u8, 34u8, 119u8, 105u8, 116u8, 104u8, 95u8, 112u8, 97u8, 116u8, 116u8, 101u8, 114u8,
        110u8, 115u8, 34u8, 58u8]
}

/// The JSON object of one URL summary.
pub open spec fn json_url(u: URLSummaryV) -> Seq<u8> {
    key_url() + json_string(u.url) + key_wp() + json_strings_array(u.with_patterns) + seq![125u8]
}

/// Comma-separated URL summaries.
pub open spec fn url_items(v: Seq<URLSummaryV>) -> Seq<u8>
    decreases v.len(),
{
    if v.len() == 0 {
        Seq::empty()
    } else if v.len() == 1 {
        json_url(v[0])
    } else {
        url_items(v.drop_last()) + seq![44u8] + json_url(v.last())
    }
}

/// The canonical JSON of a whole archive summary.
pub open spec fn json_summary(a: ArchiveSummaryV) -> Seq<u8> {
    key_unknown() + dec_of(a.nr_unknown_encoding) + key_without() + dec_of(
        a.nr_urls_without_patterns,
    ) + key_forms() + dec_of(a.nr_forms_without_patterns) + key_urls() + seq![91u8] + url_items(
        a.urls_with_pattern_forms,
    ) + seq![93u8, 125u8]
}

/// Append bytes to the output.
fn push_bytes(out: &mut Vec<u8>, s: &[u8])
    ensures
        final(out)@ == old(out)@ + s@,
{
    let mut k: usize = 0;
    while k < s.len()
        invariant
            k <= s@.len(),
            out@ == old(out)@ + s@.subrange(0, k as int),
        decreases s@.len() - k,
    {
        out.push(s[k]);
        proof {
            assert(old(out)@ + s@.subrange(0, k as int) + seq![s@[k as int]] =~= old(out)@
                + s@.subrange(0, k + 1));
        }
        k += 1;
    }
    proof {
        assert(s@.subrange(0, s@.len() as int) =~= s@);
    }
}

/// Append the escaped content of a string.
fn push_escaped(out: &mut Vec<u8>, s: &[u8])
    ensures
        final(out)@ == old(out)@ + esc_seq(s@),
{
    let mut k: usize = 0;
    proof {
        assert(s@.subrange(0, 0) =~= Seq::<u8>::empty());
        assert(esc_seq(s@.subrange(0, 0)) =~= Seq::<u8>::empty());
        assert(out@ =~= old(out)@ + esc_seq(s@.subrange(0, 0)));
    }
    while k < s.len()
        invariant
            k <= s@.len(),
            out@ == old(out)@ + esc_seq(s@.subrange(0, k as int)),
        decreases s@.len() - k,
    {
        let b = s[k];
        let ghost prev = out@;
        if b == 34 {
            out.push(92);
            out.push(34);
        } else if b == 92 {
            out.push(92);
            out.push(92);
        } else if b == 8 {
            out.push(92);
            out.push(98);
        } else if b == 9 {
            out.push(92);
            out.push(116);
        } else if b == 10 {
            out.push(92);
            out.push(110);
        } else if b == 12 {
            out.push(92);
            out.push(102);
        } else if b == 13 {
            out.push(92);
            out.push(114);
        } else if b < 32 {
            out.push(92);
            out.push(117);
            out.push(48);
            out.push(48);
            let hi = b / 16;
            let lo = b % 16;
            out.push(if hi < 10 { 48 + hi } else { 87 + hi });
            out.push(if lo < 10 { 48 + lo } else { 87 + lo });
        } else {
            out.push(b);
        }
        proof {
            assert(out@ =~= prev + esc_byte(s@[k as int]));
            let pre = s@.subrange(0, k + 1);
            assert(pre.drop_last() =~= s@.subrange(0, k as int));
            assert(pre.last() == s@[k as int]);
            lemma_esc_snoc(pre);
            assert(out@ =~= old(out)@ + esc_seq(pre));
        }
        k += 1;
    }
    proof {
        assert(s@.subrange(0, s@.len() as int) =~= s@);
    }
}

/// Append one JSON string.
fn push_json_string(out: &mut Vec<u8>, s: &String)
    ensures
        final(out)@ == old(out)@ + json_string(vstd::utf8::encode_utf8(s@)),
{
    out.push(34);
    push_escaped(out, s.as_str().as_bytes());
    out.push(34);
    proof {
        assert(old(out)@ + seq![34u8] + esc_seq(vstd::utf8::encode_utf8(s@)) + seq![34u8]
            =~= old(out)@ + json_string(vstd::utf8::encode_utf8(s@)));
    }
}

/// Append a non-negative counter in decimal.
fn push_counter(out: &mut Vec<u8>, n: i64)
    requires
        n >= 0,
    ensures
        final(out)@ == old(out)@ + dec_of(n as int),
{
    let d = u64_to_dec(n as u64);
    push_bytes(out, d.as_slice());
}

/// Append a JSON array of strings.
fn push_strings_array(out: &mut Vec<u8>, v: &Vec<String>)
    ensures
        final(out)@ == old(out)@ + json_strings_array(strings_bytes(v@)),
{
    let ghost items = strings_bytes(v@);
    out.push(91);
    proof {
        assert(out@ =~= old(out)@ + seq![91u8]);
        assert(items.subrange(0, 0) =~= Seq::<Seq<u8>>::empty());
        assert(string_items(items.subrange(0, 0)) =~= Seq::<u8>::empty());
        assert(out@ =~= old(out)@ + seq![91u8] + string_items(items.subrange(0, 0)));
    }
    let mut k: usize = 0;
    while k < v.len()
        invariant
            k <= v@.len(),
            strings_bytes(v@) == items,
            v@.len() == items.len(),
            out@ == old(out)@ + seq![91u8] + string_items(items.subrange(0, k as int)),
        decreases v@.len() - k,
    {
        if k > 0 {
            out.push(44);
        }
        push_json_string(out, &v[k]);
        proof {
            assert(vstd::utf8::encode_utf8(v@[k as int]@) == items[k as int]);
            let pre = items.subrange(0, k + 1);
            assert(pre.drop_last() =~= items.subrange(0, k as int));
            assert(pre.last() == items[k as int]);
            if k == 0 {
                assert(string_items(pre) == json_string(items[0]));
            } else {
                assert(string_items(pre) == string_items(pre.drop_last()) + seq![44u8]
                    + json_string(items[k as int]));
            }
            assert(out@ =~= old(out)@ + seq![91u8] + string_items(pre));
        }
        k += 1;
    }
    proof {
        assert(items.subrange(0, items.len() as int) =~= items);
    }
    out.push(93);
    proof {
        assert(out@ =~= old(out)@ + json_strings_array(items));
    }
}

/// Append the JSON object of one URL summary.
fn push_url(out: &mut Vec<u8>, u: &URLSummary)
    ensures
        final(out)@ == old(out)@ + json_url(u@),
{
    let kurl: [u8; 7] = [123u8, 34u8, 117u8, 114u8, 108u8, 34u8, 58u8];
    assert(kurl@ =~= key_url());
    push_bytes(out, kurl.as_slice());
    push_json_string(out, &u.url);
    let kwp: [u8; 17] = [44u8, 34u8, 119u8, 105u8, 116u8, 104u8, 95u8, 112u8, 97u8, 116u8, 116u8,
        101u8, 114u8, 110u8, 115u8, 34u8, 58u8];
    assert(kwp@ =~= key_wp());
    push_bytes(out, kwp.as_slice());
    push_strings_array(out, &u.with_patterns);
    out.push(125);
    proof {
        assert(strings_bytes(u.with_patterns@) =~~= u@.with_patterns);
        assert(out@ =~= old(out)@ + json_url(u@));
    }
}

/// Serialize a summary to its canonical JSON bytes.
pub fn ser_summary(a: &ArchiveSummary) -> (r: Vec<u8>)
    requires
        wf_v(a@),
    ensures
        r@ == json_summary(a@),
{
    let mut out: Vec<u8> = Vec::new();
    let k1: [u8; 23] = [123u8, 34u8, 110u8, 114u8, 95u8, 117u8, 110u8, 107u8, 110u8, 111u8, 119u8,
        110u8, 95u8, 101u8, 110u8, 99u8, 111u8, 100u8, 105u8, 110u8, 103u8, 34u8, 58u8];
    assert(k1@ =~= key_unknown());
    push_bytes(&mut out, k1.as_slice());
    push_counter(&mut out, a.nr_unknown_encoding);
    let k2: [u8; 28] = [44u8, 34u8, 110u8, 114u8, 95u8, 117u8, 114u8, 108u8, 115u8, 95u8, 119u8,
        105u8, 116u8, 104u8, 111u8, 117u8, 116u8, 95u8, 112u8, 97u8, 116u8, 116u8, 101u8, 114u8,
        110u8, 115u8, 34u8, 58u8];
    assert(k2@ =~= key_without());
    push_bytes(&mut out, k2.as_slice());
    push_counter(&mut out, a.nr_urls_without_patterns);
    let k3: [u8; 29] = [44u8, 34u8, 110u8, 114u8, 95u8, 102u8, 111u8, 114u8, 109u8, 115u8, 95u8,
        119u8, 105u8, 116u8, 104u8, 111u8, 117u8, 116u8, 95u8, 112u8, 97u8, 116u8, 116u8, 101u8,
        114u8, 110u8, 115u8, 34u8, 58u8];
    assert(k3@ =~= key_forms());
    push_bytes(&mut out, k3.as_slice());
    push_counter(&mut out, a.nr_forms_without_patterns);
    let k4: [u8; 27] = [44u8, 34u8, 117u8, 114u8, 108u8, 115u8, 95u8, 119u8, 105u8, 116u8, 104u8,
        95u8, 112u8, 97u8, 116u8, 116u8, 101u8, 114u8, 110u8, 95u8, 102u8, 111u8, 114u8, 109u8,
        115u8, 34u8, 58u8];
    assert(k4@ =~= key_urls());
    push_bytes(&mut out, k4.as_slice());
    let ghost items = a@.urls_with_pattern_forms;
    out.push(91);
    proof {
        assert(items.subrange(0, 0) =~= Seq::<URLSummaryV>::empty());
        assert(url_items(items.subrange(0, 0)) =~= Seq::<u8>::empty());
        let head = key_unknown() + dec_of(a@.nr_unknown_encoding) + key_without() + dec_of(
            a@.nr_urls_without_patterns,
        ) + key_forms() + dec_of(a@.nr_forms_without_patterns) + key_urls() + seq![91u8];
        assert(out@ =~= head + url_items(items.subrange(0, 0)));
    }
    let ghost head = key_unknown() + dec_of(a@.nr_unknown_encoding) + key_without() + dec_of(
        a@.nr_urls_without_patterns,
    ) + key_forms() + dec_of(a@.nr_forms_without_patterns) + key_urls() + seq![91u8];
    let mut k: usize = 0;
    while k < a.urls_with_pattern_forms.len()
        invariant
            k <= items.len(),
            a@.urls_with_pattern_forms == items,
            a.urls_with_pattern_forms@.len() == items.len(),
            out@ == head + url_items(items.subrange(0, k as int)),
        decreases items.len() - k,
    {
        if k > 0 {
            out.push(44);
        }
        push_url(&mut out, &a.urls_with_pattern_forms[k]);
        proof {
            assert(a.urls_with_pattern_forms@[k as int]@ == items[k as int]);
            let pre = items.subrange(0, k + 1);
            assert(pre.drop_last() =~= items.subrange(0, k as int));
            assert(pre.last() == items[k as int]);
            if k == 0 {
                assert(url_items(pre) == json_url(items[0]));
            } else {
                assert(url_items(pre) == url_items(pre.drop_last()) + seq![44u8] + json_url(
                    items[k as int],
                ));
            }
            assert(out@ =~= head + url_items(pre));
        }
        k += 1;
    }
    proof {
        assert(items.subrange(0, items.len() as int) =~= items);
    }
    out.push(93);
    out.push(125);
    proof {
        assert(out@ =~= json_summary(a@));
    }
    out
}

/// The views of a sequence of URL summaries.
pub open spec fn urls_view(v: Seq<URLSummary>) -> Seq<URLSummaryV> {
    Seq::new(v.len(), |i: int| v[i]@)
}

/// Match a literal at `pos`.
fn expect_lit(b: &[u8], pos: usize, lit: &[u8]) -> (r: Option<usize>)
    requires
        pos <= b@.len(),
    ensures
        r matches Some(p) ==> p as int == pos + lit@.len() && p <= b@.len() && b@.subrange(
            pos as int,
            p as int,
        ) == lit@,
        crate::bytes::match_at(b@, lit@, pos as int) ==> r is Some,
{
    if crate::bytes::is_match_at(b, lit, pos) {
        let bl = b.len();
        proof {
            assert(pos + lit@.len() <= bl);
        }
        Some(pos + lit.len())
    } else {
        None
    }
}

/// A maximal digit scan over the canonical form of `c` stops exactly
/// at its end.
proof fn lemma_counter_scan_shape(b: Seq<u8>, pos: int, j: int, c: int)
    requires
        0 <= pos <= j <= b.len(),
        forall|i: int| pos <= i < j ==> 48 <= #[trigger] b[i] <= 57,
        j == b.len() || !(48 <= b[j] <= 57),
        c >= 0,
        crate::bytes::match_at(b, dec_of(c), pos),
        pos + dec_of(c).len() == b.len() || !(48 <= b[pos + dec_of(c).len()] <= 57),
    ensures
        b.subrange(pos, j) == dec_of(c),
        j == pos + dec_of(c).len(),
{
    crate::dec::lemma_dec_roundtrip(c);
    let l = dec_of(c).len() as int;
    assert(b.subrange(pos, pos + l) == dec_of(c));
    if pos + l < j {
        assert(48 <= b[pos + l] <= 57);
        assert(false);
    }
    if pos + l > j {
        assert(j < b.len());
        assert(b[j] == b.subrange(pos, pos + l)[j - pos]);
        assert(48 <= b[j] <= 57);
        assert(false);
    }
    assert(b.subrange(pos, j) =~= dec_of(c));
}

/// Parse a canonical counter: digits only, no leading zero, fits `i64`.
fn parse_counter_at(b: &[u8], pos: usize) -> (r: Option<(i64, usize)>)
    requires
        pos <= b@.len(),
    ensures
        r matches Some((n, p)) ==> 0 <= n && pos <= p <= b@.len() && b@.subrange(
            pos as int,
            p as int,
        ) == dec_of(n as int),
        forall|c: int|
            (0 <= c <= i64::MAX && crate::bytes::match_at(b@, #[trigger] dec_of(c), pos as int)
                && (pos + dec_of(c).len() == b@.len() || !(48 <= b@[pos + dec_of(c).len()]
                <= 57))) ==> r == Some((c as i64, (pos + dec_of(c).len()) as usize)),
{
    let bl = b.len();
    let mut j = pos;
    while j < bl && 48 <= b[j] && b[j] <= 57
        invariant
            pos <= j <= b@.len(),
            bl == b@.len(),
            forall|i: int| pos <= i < j ==> 48 <= #[trigger] b@[i] <= 57,
        decreases b@.len() - j,
    {
        j += 1;
    }
    assert(j == b@.len() || !(48 <= b@[j as int] <= 57));
    if j == pos {
        proof {
            assert forall|c: int|
                (0 <= c <= i64::MAX && crate::bytes::match_at(b@, #[trigger] dec_of(c), pos as int)
                    && (pos + dec_of(c).len() == b@.len() || !(48 <= b@[pos + dec_of(c).len()]
                    <= 57))) implies false by {
                lemma_counter_scan_shape(b@, pos as int, j as int, c);
                crate::dec::lemma_dec_roundtrip(c);
            }
        }
        return None;
    }
    let ds = &b[pos..j];
    proof {
        assert(forall|i: int| 0 <= i < ds@.len() ==> 48 <= #[trigger] ds@[i] <= 57);
        assert(is_digits(ds@));
    }
    if ds.len() > 1 && ds[0] == 48 {
        proof {
            assert forall|c: int|
                (0 <= c <= i64::MAX && crate::bytes::match_at(b@, #[trigger] dec_of(c), pos as int)
                    && (pos + dec_of(c).len() == b@.len() || !(48 <= b@[pos + dec_of(c).len()]
                    <= 57))) implies false by {
                lemma_counter_scan_shape(b@, pos as int, j as int, c);
                crate::dec::lemma_dec_roundtrip(c);
                assert(dec_of(c)[0] == b@[pos as int]);
                assert(c < 10);
                assert(dec_of(c).len() == 1);
                assert(j == pos + 1);
            }
        }
        return None;
    }
    let v = match crate::dec::parse_dec_u64(ds) {
        Some(v) => v,
        None => {
            proof {
                assert forall|c: int|
                    (0 <= c <= i64::MAX && crate::bytes::match_at(
                        b@,
                        #[trigger] dec_of(c),
                        pos as int,
                    ) && (pos + dec_of(c).len() == b@.len() || !(48 <= b@[pos + dec_of(c).len()]
                        <= 57))) implies false by {
                    lemma_counter_scan_shape(b@, pos as int, j as int, c);
                    crate::dec::lemma_dec_roundtrip(c);
                    assert(dec_value(ds@) == c);
                }
            }
            return None;
        },
    };
    if v > i64::MAX as u64 {
        proof {
            assert forall|c: int|
                (0 <= c <= i64::MAX && crate::bytes::match_at(b@, #[trigger] dec_of(c), pos as int)
                    && (pos + dec_of(c).len() == b@.len() || !(48 <= b@[pos + dec_of(c).len()]
                    <= 57))) implies false by {
                lemma_counter_scan_shape(b@, pos as int, j as int, c);
                crate::dec::lemma_dec_roundtrip(c);
                assert(dec_value(ds@) == c);
            }
        }
        return None;
    }
    proof {
        crate::dec::lemma_dec_canonical(ds@);
        assert forall|c: int|
            (0 <= c <= i64::MAX && crate::bytes::match_at(b@, #[trigger] dec_of(c), pos as int)
                && (pos + dec_of(c).len() == b@.len() || !(48 <= b@[pos + dec_of(c).len()]
                <= 57))) implies c as i64 == v as i64 && (pos + dec_of(c).len()) as usize == j by {
            lemma_counter_scan_shape(b@, pos as int, j as int, c);
            crate::dec::lemma_dec_roundtrip(c);
            assert(dec_value(ds@) == c);
        }
    }
    Some((v as i64, j))
}

/// `b` carries the serialization of string content `u` at `pos`.
pub open spec fn string_at(b: Seq<u8>, pos: int, u: Seq<u8>) -> bool {
    &&& valid_utf8(u)
    &&& crate::bytes::match_at(b, json_string(u), pos)
}

/// The escaped content region of a serialized string.
proof fn lemma_string_region(b: Seq<u8>, pos: int, u: Seq<u8>)
    requires
        string_at(b, pos, u),
    ensures
        pos + 1 + esc_seq(u).len() + 1 <= b.len(),
        b.subrange(pos + 1, pos + 1 + esc_seq(u).len() as int) == esc_seq(u),
        b[pos] == 34,
        b[pos + 1 + esc_seq(u).len() as int] == 34,
{
    let js = json_string(u);
    let e = esc_seq(u);
    assert(b.subrange(pos, pos + js.len() as int) == js);
    assert(b[pos] == b.subrange(pos, pos + js.len() as int)[0]);
    assert(b[pos + 1 + e.len() as int] == b.subrange(pos, pos + js.len() as int)[js.len() - 1]);
    assert(forall|t: int| 0 <= t < e.len() ==> js[1 + t] == #[trigger] e[t]) by {
        assert(forall|t: int|
            0 <= t < e.len() ==> js[1 + t] == (seq![34u8] + e)[1 + t] && (seq![34u8] + e)[1 + t]
                == #[trigger] e[t]);
    }
    assert(forall|t: int|
        0 <= t < e.len() ==> b[pos + 1 + t] == #[trigger] b.subrange(
            pos,
            pos + js.len() as int,
        )[1 + t]);
    assert(b.subrange(pos + 1, pos + 1 + e.len() as int) =~= e);
}

/// Mid-string, the bytes at the cursor are the escape of the next
/// content byte.
proof fn lemma_string_step(b: Seq<u8>, pos: int, u: Seq<u8>, m: int, j: int)
    requires
        string_at(b, pos, u),
        0 <= m < u.len(),
        0 <= pos,
        j == pos + 1 + esc_seq(u.take(m)).len(),
    ensures
        j + esc_byte(u[m]).len() + 1 <= b.len(),
        b.subrange(j, j + esc_byte(u[m]).len() as int) == esc_byte(u[m]),
{
    lemma_string_region(b, pos, u);
    lemma_esc_concat(u.take(m), u.skip(m));
    assert(u.take(m) + u.skip(m) =~= u);
    assert(u.skip(m)[0] == u[m]);
    assert(u.skip(m).drop_first() =~= u.skip(m + 1));
    assert(esc_seq(u.skip(m)) == esc_byte(u[m]) + esc_seq(u.skip(m + 1)));
    let off = esc_seq(u.take(m)).len() as int;
    let ch = esc_byte(u[m]);
    assert(esc_seq(u) == esc_seq(u.take(m)) + (ch + esc_seq(u.skip(m + 1))));
    assert(forall|t: int|
        0 <= t < ch.len() ==> esc_seq(u)[off + t] == #[trigger] ch[t]);
    assert(b.subrange(j, j + ch.len() as int) =~= ch) by {
        let region = b.subrange(pos + 1, pos + 1 + esc_seq(u).len() as int);
        assert(forall|t: int|
            0 <= t < ch.len() ==> b[j + t] == #[trigger] region[off + t]);
    }
}

/// At the end of the content, the closing quote follows.
proof fn lemma_string_close(b: Seq<u8>, pos: int, u: Seq<u8>, j: int)
    requires
        string_at(b, pos, u),
        0 <= pos,
        j == pos + 1 + esc_seq(u).len(),
    ensures
        j < b.len(),
        b[j] == 34,
        j + 1 == pos + json_string(u).len(),
{
    lemma_string_region(b, pos, u);
}

/// No escape chunk is a proper prefix of a different one: the escape
/// coding parses unambiguously.
proof fn lemma_esc_byte_prefix(p: u8, q: u8)
    requires
        esc_byte(p).len() <= esc_byte(q).len(),
        esc_byte(q).subrange(0, esc_byte(p).len() as int) == esc_byte(p),
    ensures
        p == q,
{
    let a = esc_byte(p);
    let c = esc_byte(q);
    assert(a[0] == c.subrange(0, a.len() as int)[0]);
    if a.len() == 6 && c.len() == 6 {
        assert(a[4] == c.subrange(0, 6)[4]);
        assert(a[5] == c.subrange(0, 6)[5]);
        assert(hex_hi(p) == hex_hi(q) && hex_lo(p) == hex_lo(q));
        assert(p / 16 == q / 16 && p % 16 == q % 16);
        assert(p == q) by {
            assert(p == 16 * (p / 16) + p % 16 && q == 16 * (q / 16) + q % 16);
        }
    } else if a.len() == 2 && c.len() >= 2 {
        assert(a[1] == c.subrange(0, 2)[1]);
    }
}

/// Decode one lower-case hex digit.
fn hex_val(c: u8) -> (r: Option<u8>)
    ensures
        r matches Some(v) ==> v < 16 && (if v < 10 {
            c == 48 + v
        } else {
            c == 87 + v
        }),
        r is None ==> !(48 <= c <= 57 || 97 <= c <= 102),
{
    if 48 <= c && c <= 57 {
        Some(c - 48)
    } else if 97 <= c && c <= 102 {
        Some(c - 87)
    } else {
        None
    }
}

/// Parse a JSON string at `pos`; only the canonical escapes are
/// accepted, so the consumed bytes are exactly the string's
/// serialization, and every serialized string is accepted.
fn parse_string_at(b: &[u8], pos: usize) -> (r: Option<(String, usize)>)
    requires
        pos <= b@.len(),
    ensures
        r matches Some((s, p)) ==> pos < p <= b@.len() && b@.subrange(pos as int, p as int)
            == json_string(vstd::utf8::encode_utf8(s@)),
        forall|w: Seq<u8>| #[trigger] string_at(b@, pos as int, w) ==> (r matches Some(x)
            && vstd::utf8::encode_utf8(x.0@) == w && x.1 as int == pos + json_string(w).len()),
{
    let bl = b.len();
    if pos >= bl {
        proof {
            assert forall|w: Seq<u8>| #[trigger] string_at(b@, pos as int, w) implies false by {
                lemma_string_region(b@, pos as int, w);
            }
        }
        return None;
    }
    if b[pos] != 34 {
        proof {
            assert forall|w: Seq<u8>| #[trigger] string_at(b@, pos as int, w) implies false by {
                lemma_string_region(b@, pos as int, w);
            }
        }
        return None;
    }
    let mut u: Vec<u8> = Vec::new();
    let mut j = pos + 1;
    proof {
        assert(b@.subrange(pos + 1, pos + 1) =~= Seq::<u8>::empty());
        assert(b@.subrange(pos + 1, pos + 1) =~= esc_seq(u@));
        assert forall|w: Seq<u8>| #[trigger] string_at(b@, pos as int, w) implies w.len()
            >= u@.len() && w.take(u@.len() as int) == u@ by {
            assert(w.take(0) =~= Seq::<u8>::empty());
        }
    }
    loop
        invariant
            pos + 1 <= j <= b@.len(),
            b@.len() == bl,
            b@[pos as int] == 34,
            b@.subrange(pos + 1, j as int) == esc_seq(u@),
            forall|w: Seq<u8>| #[trigger] string_at(b@, pos as int, w) ==> w.len() >= u@.len()
                && w.take(u@.len() as int) == u@,
        decreases b@.len() - j,
    {
        proof {
            assert(j - (pos + 1) == esc_seq(u@).len());
        }
        if j >= bl {
            proof {
                assert forall|w: Seq<u8>| #[trigger] string_at(b@, pos as int, w) implies
                    false by {
                    let m = u@.len() as int;
                    if w.len() > m {
                        assert(esc_seq(w.take(m)) == esc_seq(u@));
                        lemma_string_step(b@, pos as int, w, m, j as int);
                    } else {
                        assert(w =~= u@);
                        lemma_string_close(b@, pos as int, w, j as int);
                    }
                }
            }
            return None;
        }
        let c = b[j];
        if c == 34 {
            proof {
                assert forall|w: Seq<u8>| #[trigger] string_at(b@, pos as int, w) implies w
                    == u@ by {
                    let m = u@.len() as int;
                    if w.len() > m {
                        assert(esc_seq(w.take(m)) == esc_seq(u@));
                        lemma_string_step(b@, pos as int, w, m, j as int);
                        let ch = esc_byte(w[m]);
                        assert(b@[j as int] == b@.subrange(j as int, j + ch.len() as int)[0]);
                        assert(ch[0] != 34);
                        assert(false);
                    } else {
                        assert(w =~= u@);
                    }
                }
            }
            let ghost uv = u@;
            let s = match crate::text::string_from_utf8(u) {
                Some(s) => s,
                None => {
                    proof {
                        assert forall|w: Seq<u8>| #[trigger] string_at(b@, pos as int, w) implies
                            false by {
                            assert(w == uv);
                            assert(valid_utf8(uv));
                        }
                    }
                    return None;
                },
            };
            proof {
                assert(vstd::utf8::encode_utf8(s@) == uv);
                assert(b@.subrange(pos as int, j + 1) =~= seq![34u8] + esc_seq(uv) + seq![34u8]);
                assert forall|w: Seq<u8>| #[trigger] string_at(b@, pos as int, w) implies
                    vstd::utf8::encode_utf8(s@) == w && j + 1 == pos + json_string(w).len() by {
                    assert(w == uv);
                }
            }
            return Some((s, j + 1));
        }
        let ghost up = u@;
        let j0 = j;
        proof {
            assert forall|w: Seq<u8>| #[trigger] string_at(b@, pos as int, w) implies w.len()
                > up.len() by {
                let m = up.len() as int;
                if w.len() == m {
                    assert(w =~= up);
                    lemma_string_close(b@, pos as int, w, j as int);
                    assert(false);
                }
            }
        }
        if c == 92 {
            if bl - j < 2 {
                proof {
                    assert forall|w: Seq<u8>| #[trigger] string_at(b@, pos as int, w) implies
                        false by {
                        let m = up.len() as int;
                        assert(esc_seq(w.take(m)) == esc_seq(up));
                        lemma_string_step(b@, pos as int, w, m, j0 as int);
                        let ch = esc_byte(w[m]);
                        assert(b@[j0 as int] == b@.subrange(j0 as int, j0 + ch.len() as int)[0]);
                        assert(ch[0] == 92);
                        assert(ch.len() >= 2);
                    }
                }
                return None;
            }
            let e = b[j + 1];
            proof {
                assert forall|w: Seq<u8>| #[trigger] string_at(b@, pos as int, w) implies {
                    let ch = esc_byte(w[up.len() as int]);
                    ch[0] == 92 && ch.len() >= 2 && ch[1] == e && j0 + ch.len() + 1 <= b@.len()
                        && b@.subrange(j0 as int, j0 + ch.len() as int) == ch
                } by {
                    let m = up.len() as int;
                    assert(esc_seq(w.take(m)) == esc_seq(up));
                    lemma_string_step(b@, pos as int, w, m, j0 as int);
                    let ch = esc_byte(w[m]);
                    assert(b@[j0 as int] == b@.subrange(j0 as int, j0 + ch.len() as int)[0]);
                    assert(ch[0] == 92);
                    assert(b@[j0 + 1] == b@.subrange(j0 as int, j0 + ch.len() as int)[1]);
                }
            }
            if e == 34 {
                u.push(34);
                j = j + 2;
            } else if e == 92 {
                u.push(92);
                j = j + 2;
            } else if e == 98 {
                u.push(8);
                j = j + 2;
            } else if e == 116 {
                u.push(9);
                j = j + 2;
            } else if e == 110 {
                u.push(10);
                j = j + 2;
            } else if e == 102 {
                u.push(12);
                j = j + 2;
            } else if e == 114 {
                u.push(13);
                j = j + 2;
            } else if e == 117 {
                if bl - j < 6 {
                    proof {
                        assert forall|w: Seq<u8>| #[trigger] string_at(b@, pos as int, w) implies
                            false by {
                            let ch = esc_byte(w[up.len() as int]);
                            assert(ch.len() == 6);
                        }
                    }
                    return None;
                }
                if b[j + 2] != 48 || b[j + 3] != 48 {
                    proof {
                        assert forall|w: Seq<u8>| #[trigger] string_at(b@, pos as int, w) implies
                            false by {
                            let ch = esc_byte(w[up.len() as int]);
                            assert(ch.len() == 6);
                            assert(b@[j0 + 2] == b@.subrange(j0 as int, j0 + 6)[2]);
                            assert(b@[j0 + 3] == b@.subrange(j0 as int, j0 + 6)[3]);
                        }
                    }
                    return None;
                }
                let h1 = match hex_val(b[j + 4]) {
                    Some(v) => v,
                    None => {
                        proof {
                            assert forall|w: Seq<u8>| #[trigger] string_at(
                                b@,
                                pos as int,
                                w,
                            ) implies false by {
                                let ch = esc_byte(w[up.len() as int]);
                                assert(ch.len() == 6);
                                assert(b@[j0 + 4] == b@.subrange(j0 as int, j0 + 6)[4]);
                            }
                        }
                        return None;
                    },
                };
                let h2 = match hex_val(b[j + 5]) {
                    Some(v) => v,
                    None => {
                        proof {
                            assert forall|w: Seq<u8>| #[trigger] string_at(
                                b@,
                                pos as int,
                                w,
                            ) implies false by {
                                let ch = esc_byte(w[up.len() as int]);
                                assert(ch.len() == 6);
                                assert(b@[j0 + 5] == b@.subrange(j0 as int, j0 + 6)[5]);
                            }
                        }
                        return None;
                    },
                };
                let x = 16 * h1 + h2;
                proof {
                    assert forall|w: Seq<u8>| #[trigger] string_at(b@, pos as int, w) implies x
                        == w[up.len() as int] by {
                        let m = up.len() as int;
                        let ch = esc_byte(w[m]);
                        assert(ch.len() == 6);
                        assert(b@[j0 + 4] == b@.subrange(j0 as int, j0 + 6)[4]);
                        assert(b@[j0 + 5] == b@.subrange(j0 as int, j0 + 6)[5]);
                        assert(h1 == w[m] / 16 && h2 == w[m] % 16);
                        assert(x == 16 * (w[m] / 16) + w[m] % 16);
                        assert(w[m] == 16 * (w[m] / 16) + w[m] % 16);
                    }
                }
                if x >= 32 {
                    proof {
                        assert forall|w: Seq<u8>| #[trigger] string_at(b@, pos as int, w) implies
                            false by {
                            let ch = esc_byte(w[up.len() as int]);
                            assert(ch.len() == 6);
                        }
                    }
                    return None;
                }
                if x == 8 || x == 9 || x == 10 || x == 12 || x == 13 {
                    proof {
                        assert forall|w: Seq<u8>| #[trigger] string_at(b@, pos as int, w) implies
                            false by {
                            let ch = esc_byte(w[up.len() as int]);
                            assert(ch.len() == 6);
                        }
                    }
                    return None;
                }
                proof {
                    assert(x / 16 == h1 && x % 16 == h2);
                    assert(hex_hi(x) == b@[j + 4]);
                    assert(hex_lo(x) == b@[j + 5]);
                    assert(esc_byte(x) =~= b@.subrange(j as int, j + 6));
                }
                u.push(x);
                j = j + 6;
            } else {
                proof {
                    assert forall|w: Seq<u8>| #[trigger] string_at(b@, pos as int, w) implies
                        false by {
                        let ch = esc_byte(w[up.len() as int]);
                        assert(ch.len() >= 2 && ch[1] == e);
                    }
                }
                return None;
            }
        } else if c < 32 {
            proof {
                assert forall|w: Seq<u8>| #[trigger] string_at(b@, pos as int, w) implies
                    false by {
                    let m = up.len() as int;
                    assert(esc_seq(w.take(m)) == esc_seq(up));
                    lemma_string_step(b@, pos as int, w, m, j0 as int);
                    let ch = esc_byte(w[m]);
                    assert(b@[j0 as int] == b@.subrange(j0 as int, j0 + ch.len() as int)[0]);
                    assert(ch[0] >= 32 || ch[0] == 92);
                }
            }
            return None;
        } else {
            u.push(c);
            j = j + 1;
        }
        proof {
            lemma_esc_snoc(u@);
            assert(u@.drop_last() =~= up);
            assert(b@.subrange(j0 as int, j as int) =~= esc_byte(u@.last()));
            assert(b@.subrange(pos + 1, j as int) =~= b@.subrange(pos + 1, j0 as int)
                + b@.subrange(j0 as int, j as int));
            assert forall|w: Seq<u8>| #[trigger] string_at(b@, pos as int, w) implies w.len()
                >= u@.len() && w.take(u@.len() as int) == u@ by {
                let m = up.len() as int;
                assert(w.len() > m);
                assert(esc_seq(w.take(m)) == esc_seq(up));
                lemma_string_step(b@, pos as int, w, m, j0 as int);
                let ch = esc_byte(w[m]);
                let a = esc_byte(u@.last());
                assert(b@.subrange(j0 as int, j0 + ch.len() as int) == ch);
                if a.len() <= ch.len() {
                    assert(ch.subrange(0, a.len() as int) =~= a) by {
                        assert(forall|t: int|
                            0 <= t < a.len() ==> b@[j0 + t] == #[trigger] a[t] && b@[j0 + t]
                                == ch[t]);
                    }
                    lemma_esc_byte_prefix(u@.last(), w[m]);
                } else {
                    assert(a.subrange(0, ch.len() as int) =~= ch) by {
                        assert(forall|t: int|
                            0 <= t < ch.len() ==> b@[j0 + t] == #[trigger] ch[t] && b@[j0 + t]
                                == a[t]);
                    }
                    lemma_esc_byte_prefix(w[m], u@.last());
                }
                assert(u@.last() == w[m]);
                assert(u@ =~= up + seq![w[m]]);
                assert(w.take(m + 1) =~= up + seq![w[m]]);
            }
        }
    }
}

/// Every string in the list is valid UTF-8.
pub open spec fn all_valid_utf8(vs: Seq<Seq<u8>>) -> bool {
    forall|i: int| 0 <= i < vs.len() ==> valid_utf8(#[trigger] vs[i])
}

/// `b` carries the serialization of the string list `vs` at `pos`.
pub open spec fn strings_array_at(b: Seq<u8>, pos: int, vs: Seq<Seq<u8>>) -> bool {
    &&& all_valid_utf8(vs)
    &&& crate::bytes::match_at(b, json_strings_array(vs), pos)
}

/// The items of a string list from position `k` on, with their
/// leading separator.
pub open spec fn items_rest(vs: Seq<Seq<u8>>, k: int) -> Seq<u8>
    decreases vs.len() - k,
{
    if k < 0 || k >= vs.len() {
        Seq::empty()
    } else {
        (if k > 0 {
            seq![44u8]
        } else {
            Seq::<u8>::empty()
        }) + json_string(vs[k]) + items_rest(vs, k + 1)
    }
}

/// One step of the item serialization, from the left.
proof fn lemma_items_split(vs: Seq<Seq<u8>>, k: int)
    requires
        0 <= k < vs.len(),
    ensures
        string_items(vs.take(k + 1)) == string_items(vs.take(k)) + (if k > 0 {
            seq![44u8]
        } else {
            Seq::<u8>::empty()
        }) + json_string(vs[k]),
{
    let pre = vs.take(k + 1);
    assert(pre.drop_last() =~= vs.take(k));
    assert(pre.last() == vs[k]);
    if k == 0 {
        assert(string_items(pre) == json_string(vs[0]));
        assert(string_items(vs.take(0)) =~= Seq::<u8>::empty());
        assert(string_items(vs.take(0)) + Seq::<u8>::empty() + json_string(vs[0])
            =~= json_string(vs[0]));
    } else {
        assert(string_items(pre) == string_items(vs.take(k)) + seq![44u8] + json_string(vs[k]));
    }
}

/// The whole item serialization splits at any position.
proof fn lemma_items_decomp(vs: Seq<Seq<u8>>, k: int)
    requires
        0 <= k <= vs.len(),
    ensures
        string_items(vs) == string_items(vs.take(k)) + items_rest(vs, k),
    decreases vs.len() - k,
{
    if k == vs.len() {
        assert(vs.take(k) =~= vs);
        assert(items_rest(vs, k) =~= Seq::<u8>::empty());
        assert(string_items(vs.take(k)) + items_rest(vs, k) =~= string_items(vs));
    } else {
        lemma_items_decomp(vs, k + 1);
        lemma_items_split(vs, k);
        assert(items_rest(vs, k) == (if k > 0 {
            seq![44u8]
        } else {
            Seq::<u8>::empty()
        }) + json_string(vs[k]) + items_rest(vs, k + 1));
        assert(string_items(vs.take(k)) + ((if k > 0 {
            seq![44u8]
        } else {
            Seq::<u8>::empty()
        }) + json_string(vs[k]) + items_rest(vs, k + 1)) =~= (string_items(vs.take(k)) + (if k
            > 0 {
            seq![44u8]
        } else {
            Seq::<u8>::empty()
        }) + json_string(vs[k])) + items_rest(vs, k + 1));
    }
}

/// The bracketed region of a serialized string array.
proof fn lemma_sarray_region(b: Seq<u8>, pos: int, vs: Seq<Seq<u8>>)
    requires
        crate::bytes::match_at(b, json_strings_array(vs), pos),
    ensures
        pos + 1 + string_items(vs).len() + 1 <= b.len(),
        b[pos] == 91,
        b.subrange(pos + 1, pos + 1 + string_items(vs).len() as int) == string_items(vs),
        b[pos + 1 + string_items(vs).len() as int] == 93,
{
    let js = json_strings_array(vs);
    let e = string_items(vs);
    assert(b.subrange(pos, pos + js.len() as int) == js);
    assert(b[pos] == b.subrange(pos, pos + js.len() as int)[0]);
    assert(b[pos + 1 + e.len() as int] == b.subrange(pos, pos + js.len() as int)[js.len() - 1]);
    assert(forall|t: int| 0 <= t < e.len() ==> js[1 + t] == #[trigger] e[t]) by {
        assert(forall|t: int|
            0 <= t < e.len() ==> js[1 + t] == (seq![91u8] + e)[1 + t] && (seq![91u8] + e)[1 + t]
                == #[trigger] e[t]);
    }
    assert(forall|t: int|
        0 <= t < e.len() ==> b[pos + 1 + t] == #[trigger] b.subrange(
            pos,
            pos + js.len() as int,
        )[1 + t]);
    assert(b.subrange(pos + 1, pos + 1 + e.len() as int) =~= e);
}

/// Mid-array, where the next item's string stands, and the separator
/// before it.
proof fn lemma_sarray_step(b: Seq<u8>, pos: int, vs: Seq<Seq<u8>>, k: int)
    requires
        crate::bytes::match_at(b, json_strings_array(vs), pos),
        0 <= k < vs.len(),
    ensures
        ({
            let off = pos + 1 + string_items(vs.take(k)).len() + (if k > 0 {
                1int
            } else {
                0
            });
            &&& (k > 0 ==> b[pos + 1 + string_items(vs.take(k)).len() as int] == 44)
            &&& crate::bytes::match_at(b, json_string(vs[k]), off)
        }),
{
    lemma_sarray_region(b, pos, vs);
    lemma_items_decomp(vs, k);
    let e = string_items(vs);
    let head = string_items(vs.take(k));
    let sep: Seq<u8> = if k > 0 {
        seq![44u8]
    } else {
        Seq::<u8>::empty()
    };
    let js = json_string(vs[k]);
    assert(items_rest(vs, k) == sep + js + items_rest(vs, k + 1));
    assert(e == head + (sep + js + items_rest(vs, k + 1)));
    let region = b.subrange(pos + 1, pos + 1 + e.len() as int);
    assert(forall|t: int| 0 <= t < e.len() ==> b[pos + 1 + t] == #[trigger] region[t]);
    if k > 0 {
        assert(e[head.len() as int] == 44) by {
            assert(e[head.len() as int] == (sep + js + items_rest(vs, k + 1))[0]);
        }
        assert(b[pos + 1 + head.len() as int] == 44);
    }
    let off = pos + 1 + head.len() + sep.len();
    assert(forall|t: int|
        0 <= t < js.len() ==> e[head.len() + sep.len() + t] == #[trigger] js[t]) by {
        assert(forall|t: int|
            0 <= t < js.len() ==> (sep + js + items_rest(vs, k + 1))[sep.len() + t]
                == #[trigger] js[t]);
    }
    assert(b.subrange(off, off + js.len() as int) =~= js) by {
        assert(forall|t: int|
            0 <= t < js.len() ==> b[off + t] == #[trigger] e[head.len() + sep.len() + t]);
    }
}

/// Parse a JSON array of strings at `pos`.  Every serialized string
/// list is accepted.
fn parse_strings_array_at(b: &[u8], pos: usize) -> (r: Option<(Vec<String>, usize)>)
    requires
        pos <= b@.len(),
    ensures
        r matches Some((v, p)) ==> pos < p <= b@.len() && b@.subrange(pos as int, p as int)
            == json_strings_array(strings_bytes(v@)),
        forall|vs: Seq<Seq<u8>>| #[trigger] strings_array_at(b@, pos as int, vs) ==> (r matches
            Some(x) && strings_bytes(x.0@) == vs && x.1 as int == pos + json_strings_array(
            vs,
        ).len()),
{
    let bl = b.len();
    if pos >= bl {
        proof {
            assert forall|vs: Seq<Seq<u8>>| #[trigger] strings_array_at(
                b@,
                pos as int,
                vs,
            ) implies false by {
                lemma_sarray_region(b@, pos as int, vs);
            }
        }
        return None;
    }
    if b[pos] != 91 {
        proof {
            assert forall|vs: Seq<Seq<u8>>| #[trigger] strings_array_at(
                b@,
                pos as int,
                vs,
            ) implies false by {
                lemma_sarray_region(b@, pos as int, vs);
            }
        }
        return None;
    }
    let mut v: Vec<String> = Vec::new();
    let mut cur = pos + 1;
    if cur < bl && b[cur] == 93 {
        proof {
            assert(strings_bytes(v@) =~= Seq::<Seq<u8>>::empty());
            assert(string_items(strings_bytes(v@)) =~= Seq::<u8>::empty());
            assert(b@.subrange(pos as int, cur + 1) =~= seq![91u8] + string_items(
                strings_bytes(v@),
            ) + seq![93u8]);
            assert forall|vs: Seq<Seq<u8>>| #[trigger] strings_array_at(
                b@,
                pos as int,
                vs,
            ) implies strings_bytes(v@) == vs && cur + 1 == pos + json_strings_array(
                vs,
            ).len() by {
                lemma_sarray_region(b@, pos as int, vs);
                if vs.len() > 0 {
                    lemma_sarray_step(b@, pos as int, vs, 0);
                    lemma_string_region(b@, pos + 1, vs[0]);
                    assert(b@[pos + 1] == 34);
                    assert(false);
                }
                assert(string_items(vs) =~= Seq::<u8>::empty());
                assert(strings_bytes(v@) =~= vs);
            }
        }
        return Some((v, cur + 1));
    }
    proof {
        assert forall|vs: Seq<Seq<u8>>| #[trigger] strings_array_at(b@, pos as int, vs) implies {
            &&& vs.len() > 0
            &&& strings_bytes(v@) == vs.take(0)
            &&& cur as int == pos + 1 + string_items(vs.take(0)).len()
        } by {
            lemma_sarray_region(b@, pos as int, vs);
            if vs.len() == 0 {
                assert(string_items(vs).len() == 0);
                assert(b@[pos + 1] == 93);
                assert(pos + 2 <= b@.len());
                assert(false);
            }
            assert(vs.take(0) =~= Seq::<Seq<u8>>::empty());
            assert(strings_bytes(v@) =~= vs.take(0));
            assert(string_items(vs.take(0)).len() == 0);
        }
    }
    loop
        invariant
            pos + 1 <= cur <= b@.len(),
            b@.len() == bl,
            b@[pos as int] == 91,
            v@.len() == 0 ==> cur == pos + 1,
            v@.len() > 0 ==> b@.subrange(pos + 1, cur as int) == string_items(strings_bytes(v@))
                + seq![44u8],
            forall|vs: Seq<Seq<u8>>| #[trigger] strings_array_at(b@, pos as int, vs) ==> {
                &&& v@.len() < vs.len()
                &&& strings_bytes(v@) == vs.take(v@.len() as int)
                &&& cur as int == pos + 1 + string_items(vs.take(v@.len() as int)).len() + (if v@.len() > 0 {
                    1int
                } else {
                    0
                })
            },
        decreases b@.len() - cur,
    {
        let ghost k = v@.len() as int;
        proof {
            assert forall|vs: Seq<Seq<u8>>| #[trigger] strings_array_at(
                b@,
                pos as int,
                vs,
            ) implies string_at(b@, cur as int, vs[k]) by {
                lemma_sarray_step(b@, pos as int, vs, k);
            }
        }
        let (s, p) = match parse_string_at(b, cur) {
            Some(x) => x,
            None => {
                return None;
            },
        };
        let ghost pv = strings_bytes(v@);
        let ghost sv = s@;
        v.push(s);
        proof {
            let items = strings_bytes(v@);
            assert(items.drop_last() =~= pv);
            assert(items.last() == vstd::utf8::encode_utf8(sv));
            if pv.len() == 0 {
                assert(string_items(items) == json_string(items[0]));
                assert(b@.subrange(pos + 1, p as int) =~= string_items(items));
            } else {
                assert(string_items(items) == string_items(pv) + seq![44u8] + json_string(
                    vstd::utf8::encode_utf8(sv),
                ));
                assert(b@.subrange(pos + 1, p as int) =~= b@.subrange(pos + 1, cur as int)
                    + b@.subrange(cur as int, p as int));
                assert(b@.subrange(pos + 1, p as int) =~= string_items(items));
            }
            assert forall|vs: Seq<Seq<u8>>| #[trigger] strings_array_at(
                b@,
                pos as int,
                vs,
            ) implies {
                &&& strings_bytes(v@) == vs.take(k + 1)
                &&& p as int == pos + 1 + string_items(vs.take(k + 1)).len()
            } by {
                lemma_sarray_step(b@, pos as int, vs, k);
                assert(vstd::utf8::encode_utf8(sv) == vs[k]);
                assert(strings_bytes(v@) =~= vs.take(k + 1));
                lemma_items_split(vs, k);
            }
        }
        if p < bl && b[p] == 93 {
            proof {
                assert(b@.subrange(pos as int, p + 1) =~= seq![91u8] + string_items(
                    strings_bytes(v@),
                ) + seq![93u8]);
                assert forall|vs: Seq<Seq<u8>>| #[trigger] strings_array_at(
                    b@,
                    pos as int,
                    vs,
                ) implies strings_bytes(v@) == vs && p + 1 == pos + json_strings_array(
                    vs,
                ).len() by {
                    if k + 1 < vs.len() {
                        lemma_sarray_step(b@, pos as int, vs, k + 1);
                        lemma_string_region(b@, p + 1, vs[k + 1]);
                        assert(b@[p as int] == 44);
                        assert(false);
                    }
                    assert(vs.take(k + 1) =~= vs);
                    lemma_sarray_region(b@, pos as int, vs);
                }
            }
            return Some((v, p + 1));
        }
        if p < bl && b[p] == 44 {
            proof {
                assert(b@.subrange(pos + 1, p + 1) =~= string_items(strings_bytes(v@)) + seq![
                    44u8,
                ]);
                assert forall|vs: Seq<Seq<u8>>| #[trigger] strings_array_at(
                    b@,
                    pos as int,
                    vs,
                ) implies k + 1 < vs.len() by {
                    if k + 1 == vs.len() {
                        assert(vs.take(k + 1) =~= vs);
                        lemma_sarray_region(b@, pos as int, vs);
                        assert(b@[p as int] == 93);
                        assert(false);
                    }
                }
                assert forall|vs: Seq<Seq<u8>>| #[trigger] strings_array_at(
                    b@,
                    pos as int,
                    vs,
                ) implies b@[pos + 1 + string_items(vs.take(k + 1)).len() as int] == 44 by {
                    lemma_sarray_step(b@, pos as int, vs, k + 1);
                }
            }
            cur = p + 1;
        } else {
            proof {
                assert forall|vs: Seq<Seq<u8>>| #[trigger] strings_array_at(
                    b@,
                    pos as int,
                    vs,
                ) implies false by {
                    if k + 1 < vs.len() {
                        lemma_sarray_step(b@, pos as int, vs, k + 1);
                    } else {
                        assert(vs.take(k + 1) =~= vs);
                        lemma_sarray_region(b@, pos as int, vs);
                    }
                }
            }
            return None;
        }
    }
}

/// A match of a concatenation splits into matches of the parts.
proof fn lemma_match_concat(b: Seq<u8>, pos: int, x: Seq<u8>, y: Seq<u8>)
    requires
        crate::bytes::match_at(b, x + y, pos),
    ensures
        crate::bytes::match_at(b, x, pos),
        crate::bytes::match_at(b, y, pos + x.len()),
{
    let whole = b.subrange(pos, pos + (x + y).len() as int);
    assert(whole == x + y);
    assert(forall|t: int| 0 <= t < x.len() ==> b[pos + t] == #[trigger] whole[t]);
    assert(forall|t: int|
        0 <= t < y.len() ==> b[pos + x.len() + t] == #[trigger] whole[x.len() + t]);
    assert(forall|t: int| 0 <= t < y.len() ==> (x + y)[x.len() + t] == #[trigger] y[t]);
    assert(b.subrange(pos, pos + x.len() as int) =~= x);
    assert(b.subrange(pos + x.len(), pos + x.len() + y.len() as int) =~= y);
}

/// `b` carries the serialization of the URL summary `u` at `pos`.
pub open spec fn url_at(b: Seq<u8>, pos: int, u: URLSummaryV) -> bool {
    &&& valid_utf8(u.url)
    &&& all_valid_utf8(u.with_patterns)
    &&& crate::bytes::match_at(b, json_url(u), pos)
}

/// Where the parts of a serialized URL summary stand.
proof fn lemma_url_parts(b: Seq<u8>, pos: int, u: URLSummaryV)
    requires
        url_at(b, pos, u),
    ensures
        ({
            let p1 = pos + key_url().len();
            let p2 = p1 + json_string(u.url).len();
            let p3 = p2 + key_wp().len();
            let p4 = p3 + json_strings_array(u.with_patterns).len();
            &&& crate::bytes::match_at(b, key_url(), pos)
            &&& string_at(b, p1, u.url)
            &&& crate::bytes::match_at(b, key_wp(), p2)
            &&& strings_array_at(b, p3, u.with_patterns)
            &&& p4 < b.len()
            &&& b[p4] == 125
            &&& p4 + 1 == pos + json_url(u).len()
        }),
{
    let a1 = key_url();
    let a2 = json_string(u.url);
    let a3 = key_wp();
    let a4 = json_strings_array(u.with_patterns);
    let a5: Seq<u8> = seq![125u8];
    assert(json_url(u) == a1 + a2 + a3 + a4 + a5);
    lemma_match_concat(b, pos, a1 + a2 + a3 + a4, a5);
    lemma_match_concat(b, pos, a1 + a2 + a3, a4);
    lemma_match_concat(b, pos, a1 + a2, a3);
    lemma_match_concat(b, pos, a1, a2);
    assert(b[pos + (a1 + a2 + a3 + a4).len() as int] == b.subrange(
        pos + (a1 + a2 + a3 + a4).len(),
        pos + (a1 + a2 + a3 + a4).len() + 1,
    )[0]);
}

/// Parse one URL-summary object at `pos`.  Every serialized URL
/// summary is accepted.
fn parse_url_at(b: &[u8], pos: usize) -> (r: Option<(URLSummary, usize)>)
    requires
        pos <= b@.len(),
    ensures
        r matches Some((u, p)) ==> pos < p <= b@.len() && b@.subrange(pos as int, p as int)
            == json_url(u@),
        forall|w: URLSummaryV| #[trigger] url_at(b@, pos as int, w) ==> (r matches Some(x) && x.0@
            == w && x.1 as int == pos + json_url(w).len()),
{
    let kurl: [u8; 7] = [123u8, 34u8, 117u8, 114u8, 108u8, 34u8, 58u8];
    assert(kurl@ =~= key_url());
    let p1 = match expect_lit(b, pos, kurl.as_slice()) {
        Some(p) => p,
        None => {
            proof {
                assert forall|w: URLSummaryV| #[trigger] url_at(b@, pos as int, w) implies
                    false by {
                    lemma_url_parts(b@, pos as int, w);
                }
            }
            return None;
        },
    };
    let (url, p2) = match parse_string_at(b, p1) {
        Some(x) => x,
        None => {
            proof {
                assert forall|w: URLSummaryV| #[trigger] url_at(b@, pos as int, w) implies
                    false by {
                    lemma_url_parts(b@, pos as int, w);
                }
            }
            return None;
        },
    };
    let kwp: [u8; 17] = [44u8, 34u8, 119u8, 105u8, 116u8, 104u8, 95u8, 112u8, 97u8, 116u8, 116u8,
        101u8, 114u8, 110u8, 115u8, 34u8, 58u8];
    assert(kwp@ =~= key_wp());
    let p3 = match expect_lit(b, p2, kwp.as_slice()) {
        Some(p) => p,
        None => {
            proof {
                assert forall|w: URLSummaryV| #[trigger] url_at(b@, pos as int, w) implies
                    false by {
                    lemma_url_parts(b@, pos as int, w);
                }
            }
            return None;
        },
    };
    let (wp, p4) = match parse_strings_array_at(b, p3) {
        Some(x) => x,
        None => {
            proof {
                assert forall|w: URLSummaryV| #[trigger] url_at(b@, pos as int, w) implies
                    false by {
                    lemma_url_parts(b@, pos as int, w);
                }
            }
            return None;
        },
    };
    if p4 < b.len() && b[p4] == 125 {
        let ghost urlv = url@;
        let ghost wpv = wp@;
        let u = URLSummary { url, with_patterns: wp };
        proof {
            assert(u@.url == vstd::utf8::encode_utf8(urlv));
            assert(u@.with_patterns =~~= strings_bytes(wpv));
            assert(b@.subrange(pos as int, p4 + 1) =~= b@.subrange(pos as int, p1 as int)
                + b@.subrange(p1 as int, p2 as int) + b@.subrange(p2 as int, p3 as int)
                + b@.subrange(p3 as int, p4 as int) + b@.subrange(p4 as int, p4 + 1));
            assert(b@.subrange(p4 as int, p4 + 1) =~= seq![125u8]);
            assert(b@.subrange(pos as int, p4 + 1) =~= json_url(u@));
            assert forall|w: URLSummaryV| #[trigger] url_at(b@, pos as int, w) implies u@ == w
                && p4 + 1 == pos + json_url(w).len() by {
                lemma_url_parts(b@, pos as int, w);
                assert(u@ =~~= w);
            }
        }
        Some((u, p4 + 1))
    } else {
        proof {
            assert forall|w: URLSummaryV| #[trigger] url_at(b@, pos as int, w) implies false by {
                lemma_url_parts(b@, pos as int, w);
            }
        }
        None
    }
}

/// Every string of every URL summary in the list is valid UTF-8.
pub open spec fn all_urls_ok(vs: Seq<URLSummaryV>) -> bool {
    forall|i: int|
        0 <= i < vs.len() ==> valid_utf8((#[trigger] vs[i]).url) && all_valid_utf8(
            vs[i].with_patterns,
        )
}

/// The URL items from position `k` on, with their leading separator.
pub open spec fn uitems_rest(vs: Seq<URLSummaryV>, k: int) -> Seq<u8>
    decreases vs.len() - k,
{
    if k < 0 || k >= vs.len() {
        Seq::empty()
    } else {
        (if k > 0 {
            seq![44u8]
        } else {
            Seq::<u8>::empty()
        }) + json_url(vs[k]) + uitems_rest(vs, k + 1)
    }
}

/// One step of the URL-item serialization, from the left.
proof fn lemma_uitems_split(vs: Seq<URLSummaryV>, k: int)
    requires
        0 <= k < vs.len(),
    ensures
        url_items(vs.take(k + 1)) == url_items(vs.take(k)) + (if k > 0 {
            seq![44u8]
        } else {
            Seq::<u8>::empty()
        }) + json_url(vs[k]),
{
    let pre = vs.take(k + 1);
    assert(pre.drop_last() =~= vs.take(k));
    assert(pre.last() == vs[k]);
    if k == 0 {
        assert(url_items(pre) == json_url(vs[0]));
        assert(url_items(vs.take(0)) =~= Seq::<u8>::empty());
        assert(url_items(vs.take(0)) + Seq::<u8>::empty() + json_url(vs[0]) =~= json_url(vs[0]));
    } else {
        assert(url_items(pre) == url_items(vs.take(k)) + seq![44u8] + json_url(vs[k]));
    }
}

/// The whole URL-item serialization splits at any position.
proof fn lemma_uitems_decomp(vs: Seq<URLSummaryV>, k: int)
    requires
        0 <= k <= vs.len(),
    ensures
        url_items(vs) == url_items(vs.take(k)) + uitems_rest(vs, k),
    decreases vs.len() - k,
{
    if k == vs.len() {
        assert(vs.take(k) =~= vs);
        assert(uitems_rest(vs, k) =~= Seq::<u8>::empty());
        assert(url_items(vs.take(k)) + uitems_rest(vs, k) =~= url_items(vs));
    } else {
        lemma_uitems_decomp(vs, k + 1);
        lemma_uitems_split(vs, k);
        assert(uitems_rest(vs, k) == (if k > 0 {
            seq![44u8]
        } else {
            Seq::<u8>::empty()
        }) + json_url(vs[k]) + uitems_rest(vs, k + 1));
        assert(url_items(vs.take(k)) + ((if k > 0 {
            seq![44u8]
        } else {
            Seq::<u8>::empty()
        }) + json_url(vs[k]) + uitems_rest(vs, k + 1)) =~= (url_items(vs.take(k)) + (if k > 0 {
            seq![44u8]
        } else {
            Seq::<u8>::empty()
        }) + json_url(vs[k])) + uitems_rest(vs, k + 1));
    }
}

/// The summary's counters fit their fields and its strings are UTF-8:
/// true of the view of every summary value.
pub open spec fn summary_bytes_ok(a: ArchiveSummaryV) -> bool {
    &&& 0 <= a.nr_unknown_encoding <= i64::MAX
    &&& 0 <= a.nr_urls_without_patterns <= i64::MAX
    &&& 0 <= a.nr_forms_without_patterns <= i64::MAX
    &&& all_urls_ok(a.urls_with_pattern_forms)
}

/// Where the parts of a serialized summary stand.
#[verifier::rlimit(100)]
#[verifier::spinoff_prover]
proof fn lemma_summary_parts(b: Seq<u8>, a: ArchiveSummaryV)
    requires
        b == json_summary(a),
        summary_bytes_ok(a),
    ensures
        ({
            let q1 = key_unknown().len() as int;
            let q2 = q1 + dec_of(a.nr_unknown_encoding).len();
            let q3 = q2 + key_without().len();
            let q4 = q3 + dec_of(a.nr_urls_without_patterns).len();
            let q5 = q4 + key_forms().len();
            let q6 = q5 + dec_of(a.nr_forms_without_patterns).len();
            let q7 = q6 + key_urls().len();
            let ul = url_items(a.urls_with_pattern_forms).len() as int;
            &&& crate::bytes::match_at(b, key_unknown(), 0)
            &&& crate::bytes::match_at(b, dec_of(a.nr_unknown_encoding), q1)
            &&& b[q2] == 44
            &&& crate::bytes::match_at(b, key_without(), q2)
            &&& crate::bytes::match_at(b, dec_of(a.nr_urls_without_patterns), q3)
            &&& b[q4] == 44
            &&& crate::bytes::match_at(b, key_forms(), q4)
            &&& crate::bytes::match_at(b, dec_of(a.nr_forms_without_patterns), q5)
            &&& b[q6] == 44
            &&& crate::bytes::match_at(b, key_urls(), q6)
            &&& b[q7] == 91
            &&& b.subrange(q7 + 1, q7 + 1 + ul) == url_items(a.urls_with_pattern_forms)
            &&& b[q7 + 1 + ul] == 93
            &&& b[q7 + 2 + ul] == 125
            &&& b.len() == q7 + 3 + ul
        }),
{
    let a1 = key_unknown();
    let a2 = dec_of(a.nr_unknown_encoding);
    let a3 = key_without();
    let a4 = dec_of(a.nr_urls_without_patterns);
    let a5 = key_forms();
    let a6 = dec_of(a.nr_forms_without_patterns);
    let a7 = key_urls();
    let a8: Seq<u8> = seq![91u8];
    let a9 = url_items(a.urls_with_pattern_forms);
    let a10: Seq<u8> = seq![93u8, 125u8];
    assert(b == a1 + a2 + a3 + a4 + a5 + a6 + a7 + a8 + a9 + a10);
    assert(crate::bytes::match_at(b, b, 0)) by {
        assert(b.subrange(0, b.len() as int) =~= b);
    }
    lemma_match_concat(b, 0, a1 + a2 + a3 + a4 + a5 + a6 + a7 + a8 + a9, a10);
    lemma_match_concat(b, 0, a1 + a2 + a3 + a4 + a5 + a6 + a7 + a8, a9);
    lemma_match_concat(b, 0, a1 + a2 + a3 + a4 + a5 + a6 + a7, a8);
    lemma_match_concat(b, 0, a1 + a2 + a3 + a4 + a5 + a6, a7);
    lemma_match_concat(b, 0, a1 + a2 + a3 + a4 + a5, a6);
    lemma_match_concat(b, 0, a1 + a2 + a3 + a4, a5);
    lemma_match_concat(b, 0, a1 + a2 + a3, a4);
    lemma_match_concat(b, 0, a1 + a2, a3);
    lemma_match_concat(b, 0, a1, a2);
    let q2 = a1.len() + a2.len() as int;
    let q4 = q2 + a3.len() + a4.len() as int;
    let q6 = q4 + a5.len() + a6.len() as int;
    let q7 = q6 + a7.len() as int;
    assert(b[q2 as int] == b.subrange(q2 as int, q2 + a3.len() as int)[0]);
    assert(b[q4 as int] == b.subrange(q4 as int, q4 + a5.len() as int)[0]);
    assert(b[q6 as int] == b.subrange(q6 as int, q6 + a7.len() as int)[0]);
    assert(b[q7] == b.subrange(q7, q7 + 1)[0]);
    assert(b[q7 + 1 + a9.len() as int] == b.subrange(
        q7 + 1 + a9.len() as int,
        q7 + 3 + a9.len() as int,
    )[0]);
    assert(b[q7 + 2 + a9.len() as int] == b.subrange(
        q7 + 1 + a9.len() as int,
        q7 + 3 + a9.len() as int,
    )[1]);
}

/// Mid-array, where the next URL object stands, and the separator
/// before it.
proof fn lemma_uarray_step(b: Seq<u8>, astart: int, vs: Seq<URLSummaryV>, k: int)
    requires
        0 <= astart,
        astart + 1 + url_items(vs).len() + 1 <= b.len(),
        b.subrange(astart + 1, astart + 1 + url_items(vs).len() as int) == url_items(vs),
        all_urls_ok(vs),
        0 <= k < vs.len(),
    ensures
        ({
            let off = astart + 1 + url_items(vs.take(k)).len() + (if k > 0 {
                1int
            } else {
                0
            });
            &&& (k > 0 ==> b[astart + 1 + url_items(vs.take(k)).len() as int] == 44)
            &&& url_at(b, off, vs[k])
        }),
{
    lemma_uitems_decomp(vs, k);
    let e = url_items(vs);
    let head = url_items(vs.take(k));
    let sep: Seq<u8> = if k > 0 {
        seq![44u8]
    } else {
        Seq::<u8>::empty()
    };
    let js = json_url(vs[k]);
    assert(uitems_rest(vs, k) == sep + js + uitems_rest(vs, k + 1));
    assert(e == head + (sep + js + uitems_rest(vs, k + 1)));
    let region = b.subrange(astart + 1, astart + 1 + e.len() as int);
    assert(forall|t: int| 0 <= t < e.len() ==> b[astart + 1 + t] == #[trigger] region[t]);
    if k > 0 {
        assert(e[head.len() as int] == 44) by {
            assert(e[head.len() as int] == (sep + js + uitems_rest(vs, k + 1))[0]);
        }
        assert(b[astart + 1 + head.len() as int] == 44);
    }
    let off = astart + 1 + head.len() + sep.len();
    assert(forall|t: int|
        0 <= t < js.len() ==> e[head.len() + sep.len() + t] == #[trigger] js[t]) by {
        assert(forall|t: int|
            0 <= t < js.len() ==> (sep + js + uitems_rest(vs, k + 1))[sep.len() + t]
                == #[trigger] js[t]);
    }
    assert(b.subrange(off, off + js.len() as int) =~= js) by {
        assert(forall|t: int|
            0 <= t < js.len() ==> b[off + t] == #[trigger] e[head.len() + sep.len() + t]);
    }
}

/// The serialized counter prefix of a summary, up to the URL list.
pub open spec fn json_head(c1: int, c2: int, c3: int) -> Seq<u8> {
    key_unknown() + dec_of(c1) + key_without() + dec_of(c2) + key_forms() + dec_of(c3)
        + key_urls()
}

/// Parse the three counters and their keys.
#[verifier::rlimit(100)]
fn parse_counters(b: &[u8]) -> (r: Option<(i64, i64, i64, usize)>)
    ensures
        r matches Some((x1, x2, x3, p)) ==> 0 <= x1 && 0 <= x2 && 0 <= x3 && p <= b@.len()
            && b@.subrange(0, p as int) == json_head(x1 as int, x2 as int, x3 as int),
        forall|a: ArchiveSummaryV| (#[trigger] json_summary(a) == b@ && summary_bytes_ok(a)) ==> (
        r matches Some(x) && x.0 as int == a.nr_unknown_encoding && x.1 as int
            == a.nr_urls_without_patterns && x.2 as int == a.nr_forms_without_patterns && x.3
            as int == json_head(
            a.nr_unknown_encoding,
            a.nr_urls_without_patterns,
            a.nr_forms_without_patterns,
        ).len()),
{
    let k1: [u8; 23] = [123u8, 34u8, 110u8, 114u8, 95u8, 117u8, 110u8, 107u8, 110u8, 111u8, 119u8,
        110u8, 95u8, 101u8, 110u8, 99u8, 111u8, 100u8, 105u8, 110u8, 103u8, 34u8, 58u8];
    assert(k1@ =~= key_unknown());
    let k2: [u8; 28] = [44u8, 34u8, 110u8, 114u8, 95u8, 117u8, 114u8, 108u8, 115u8, 95u8, 119u8,
        105u8, 116u8, 104u8, 111u8, 117u8, 116u8, 95u8, 112u8, 97u8, 116u8, 116u8, 101u8, 114u8,
        110u8, 115u8, 34u8, 58u8];
    assert(k2@ =~= key_without());
    let k3: [u8; 29] = [44u8, 34u8, 110u8, 114u8, 95u8, 102u8, 111u8, 114u8, 109u8, 115u8, 95u8,
        119u8, 105u8, 116u8, 104u8, 111u8, 117u8, 116u8, 95u8, 112u8, 97u8, 116u8, 116u8, 101u8,
        114u8, 110u8, 115u8, 34u8, 58u8];
    assert(k3@ =~= key_forms());
    let k4: [u8; 27] = [44u8, 34u8, 117u8, 114u8, 108u8, 115u8, 95u8, 119u8, 105u8, 116u8, 104u8,
        95u8, 112u8, 97u8, 116u8, 116u8, 101u8, 114u8, 110u8, 95u8, 102u8, 111u8, 114u8, 109u8,
        115u8, 34u8, 58u8];
    assert(k4@ =~= key_urls());
    let p1 = match expect_lit(b, 0, k1.as_slice()) {
        Some(p) => p,
        None => {
            proof {
                assert forall|a: ArchiveSummaryV| json_summary(a) == b@ && summary_bytes_ok(
                    a,
                ) implies false by {
                    lemma_summary_parts(b@, a);
                }
            }
            return None;
        },
    };
    let (n1, p2) = match parse_counter_at(b, p1) {
        Some(x) => x,
        None => {
            proof {
                assert forall|a: ArchiveSummaryV| json_summary(a) == b@ && summary_bytes_ok(
                    a,
                ) implies false by {
                    lemma_summary_parts(b@, a);
                }
            }
            return None;
        },
    };
    let p3 = match expect_lit(b, p2, k2.as_slice()) {
        Some(p) => p,
        None => {
            proof {
                assert forall|a: ArchiveSummaryV| json_summary(a) == b@ && summary_bytes_ok(
                    a,
                ) implies false by {
                    lemma_summary_parts(b@, a);
                }
            }
            return None;
        },
    };
    let (n2, p4) = match parse_counter_at(b, p3) {
        Some(x) => x,
        None => {
            proof {
                assert forall|a: ArchiveSummaryV| json_summary(a) == b@ && summary_bytes_ok(
                    a,
                ) implies false by {
                    lemma_summary_parts(b@, a);
                }
            }
            return None;
        },
    };
    let p5 = match expect_lit(b, p4, k3.as_slice()) {
        Some(p) => p,
        None => {
            proof {
                assert forall|a: ArchiveSummaryV| json_summary(a) == b@ && summary_bytes_ok(
                    a,
                ) implies false by {
                    lemma_summary_parts(b@, a);
                }
            }
            return None;
        },
    };
    let (n3, p6) = match parse_counter_at(b, p5) {
        Some(x) => x,
        None => {
            proof {
                assert forall|a: ArchiveSummaryV| json_summary(a) == b@ && summary_bytes_ok(
                    a,
                ) implies false by {
                    lemma_summary_parts(b@, a);
                }
            }
            return None;
        },
    };
    let p7 = match expect_lit(b, p6, k4.as_slice()) {
        Some(p) => p,
        None => {
            proof {
                assert forall|a: ArchiveSummaryV| json_summary(a) == b@ && summary_bytes_ok(
                    a,
                ) implies false by {
                    lemma_summary_parts(b@, a);
                }
            }
            return None;
        },
    };
    proof {
        assert(b@.subrange(0, p7 as int) =~= b@.subrange(0, p1 as int) + b@.subrange(
            p1 as int,
            p2 as int,
        ) + b@.subrange(p2 as int, p3 as int) + b@.subrange(p3 as int, p4 as int) + b@.subrange(
            p4 as int,
            p5 as int,
        ) + b@.subrange(p5 as int, p6 as int) + b@.subrange(p6 as int, p7 as int));
        assert(b@.subrange(0, p7 as int) =~= json_head(n1 as int, n2 as int, n3 as int));
        assert forall|a: ArchiveSummaryV| json_summary(a) == b@ && summary_bytes_ok(a) implies n1
            as int == a.nr_unknown_encoding && n2 as int == a.nr_urls_without_patterns && n3
            as int == a.nr_forms_without_patterns && p7 as int == json_head(
            a.nr_unknown_encoding,
            a.nr_urls_without_patterns,
            a.nr_forms_without_patterns,
        ).len() by {
            lemma_summary_parts(b@, a);
        }
    }
    Some((n1, n2, n3, p7))
}

/// `b` carries the serialized URL list (brackets included) at `pos`.
pub open spec fn urls_array_at(b: Seq<u8>, pos: int, vs: Seq<URLSummaryV>) -> bool {
    &&& all_urls_ok(vs)
    &&& crate::bytes::match_at(b, seq![91u8] + url_items(vs) + seq![93u8], pos)
}

/// The bracketed region of a serialized URL array.
proof fn lemma_uarray_region(b: Seq<u8>, pos: int, vs: Seq<URLSummaryV>)
    requires
        crate::bytes::match_at(b, seq![91u8] + url_items(vs) + seq![93u8], pos),
    ensures
        pos + 1 + url_items(vs).len() + 1 <= b.len(),
        b[pos] == 91,
        b.subrange(pos + 1, pos + 1 + url_items(vs).len() as int) == url_items(vs),
        b[pos + 1 + url_items(vs).len() as int] == 93,
{
    let e = url_items(vs);
    let js = seq![91u8] + e + seq![93u8];
    assert(b.subrange(pos, pos + js.len() as int) == js);
    assert(b[pos] == b.subrange(pos, pos + js.len() as int)[0]);
    assert(b[pos + 1 + e.len() as int] == b.subrange(pos, pos + js.len() as int)[js.len() - 1]);
    assert(forall|t: int| 0 <= t < e.len() ==> js[1 + t] == #[trigger] e[t]) by {
        assert(forall|t: int|
            0 <= t < e.len() ==> js[1 + t] == (seq![91u8] + e)[1 + t] && (seq![91u8] + e)[1 + t]
                == #[trigger] e[t]);
    }
    assert(forall|t: int|
        0 <= t < e.len() ==> b[pos + 1 + t] == #[trigger] b.subrange(
            pos,
            pos + js.len() as int,
        )[1 + t]);
    assert(b.subrange(pos + 1, pos + 1 + e.len() as int) =~= e);
}

/// Parse the bracketed URL list at `pos`.  Every serialized URL list
/// is accepted.
#[verifier::rlimit(100)]
fn parse_urls_array(b: &[u8], pos: usize) -> (r: Option<(Vec<URLSummary>, usize)>)
    requires
        pos <= b@.len(),
    ensures
        r matches Some((v, p)) ==> pos < p <= b@.len() && b@.subrange(pos as int, p as int)
            == seq![91u8] + url_items(urls_view(v@)) + seq![93u8],
        forall|vs: Seq<URLSummaryV>| #[trigger] urls_array_at(b@, pos as int, vs) ==> (r matches
            Some(x) && urls_view(x.0@) == vs && x.1 as int == pos + 2 + url_items(vs).len()),
{
    let bl = b.len();
    if pos >= bl {
        proof {
            assert forall|vs: Seq<URLSummaryV>| #[trigger] urls_array_at(
                b@,
                pos as int,
                vs,
            ) implies false by {
                lemma_uarray_region(b@, pos as int, vs);
            }
        }
        return None;
    }
    if b[pos] != 91 {
        proof {
            assert forall|vs: Seq<URLSummaryV>| #[trigger] urls_array_at(
                b@,
                pos as int,
                vs,
            ) implies false by {
                lemma_uarray_region(b@, pos as int, vs);
            }
        }
        return None;
    }
    let mut urls: Vec<URLSummary> = Vec::new();
    let mut cur = pos + 1;
    if cur < bl && b[cur] == 93 {
        proof {
            assert(urls_view(urls@) =~= Seq::<URLSummaryV>::empty());
            assert(url_items(urls_view(urls@)) =~= Seq::<u8>::empty());
            assert(b@.subrange(pos as int, cur + 1) =~= seq![91u8] + url_items(urls_view(urls@))
                + seq![93u8]);
            assert forall|vs: Seq<URLSummaryV>| #[trigger] urls_array_at(
                b@,
                pos as int,
                vs,
            ) implies urls_view(urls@) == vs && cur + 1 == pos + 2 + url_items(vs).len() by {
                lemma_uarray_region(b@, pos as int, vs);
                if vs.len() > 0 {
                    lemma_uarray_step(b@, pos as int, vs, 0);
                    lemma_url_parts(b@, pos + 1, vs[0]);
                    assert(b@[pos + 1] == b@.subrange(
                        pos + 1,
                        pos + 1 + key_url().len() as int,
                    )[0]);
                    assert(false);
                }
                assert(url_items(vs) =~= Seq::<u8>::empty());
                assert(urls_view(urls@) =~= vs);
            }
        }
        return Some((urls, cur + 1));
    }
    proof {
        assert forall|vs: Seq<URLSummaryV>| #[trigger] urls_array_at(b@, pos as int, vs) implies {
            &&& vs.len() > 0
            &&& urls_view(urls@) == vs.take(0)
            &&& cur as int == pos + 1 + url_items(vs.take(0)).len()
        } by {
            lemma_uarray_region(b@, pos as int, vs);
            if vs.len() == 0 {
                assert(url_items(vs).len() == 0);
                assert(b@[pos + 1] == 93);
                assert(pos + 2 <= b@.len());
                assert(false);
            }
            assert(vs.take(0) =~= Seq::<URLSummaryV>::empty());
            assert(urls_view(urls@) =~= vs.take(0));
            assert(url_items(vs.take(0)).len() == 0);
        }
    }
    loop
        invariant
            pos + 1 <= cur <= b@.len(),
            b@.len() == bl,
            b@[pos as int] == 91,
            urls@.len() == 0 ==> cur == pos + 1,
            urls@.len() > 0 ==> b@.subrange(pos + 1, cur as int) == url_items(urls_view(urls@))
                + seq![44u8],
            forall|vs: Seq<URLSummaryV>| #[trigger] urls_array_at(b@, pos as int, vs) ==> {
                &&& urls@.len() < vs.len()
                &&& urls_view(urls@) == vs.take(urls@.len() as int)
                &&& cur as int == pos + 1 + url_items(vs.take(urls@.len() as int)).len() + (
                if urls@.len() > 0 {
                    1int
                } else {
                    0
                })
            },
        decreases b@.len() - cur,
    {
        let ghost k = urls@.len() as int;
        proof {
            assert forall|vs: Seq<URLSummaryV>| #[trigger] urls_array_at(
                b@,
                pos as int,
                vs,
            ) implies url_at(b@, cur as int, vs[k]) by {
                lemma_uarray_region(b@, pos as int, vs);
                lemma_uarray_step(b@, pos as int, vs, k);
            }
        }
        let (u, p) = match parse_url_at(b, cur) {
            Some(x) => x,
            None => {
                return None;
            },
        };
        let ghost pv = urls_view(urls@);
        let ghost uv = u@;
        urls.push(u);
        proof {
            let items = urls_view(urls@);
            assert(items.drop_last() =~= pv);
            assert(items.last() == uv);
            if pv.len() == 0 {
                assert(url_items(items) == json_url(items[0]));
                assert(b@.subrange(pos + 1, p as int) =~= url_items(items));
            } else {
                assert(url_items(items) == url_items(pv) + seq![44u8] + json_url(uv));
                assert(b@.subrange(pos + 1, p as int) =~= b@.subrange(pos + 1, cur as int)
                    + b@.subrange(cur as int, p as int));
                assert(b@.subrange(pos + 1, p as int) =~= url_items(items));
            }
            assert forall|vs: Seq<URLSummaryV>| #[trigger] urls_array_at(
                b@,
                pos as int,
                vs,
            ) implies {
                &&& urls_view(urls@) == vs.take(k + 1)
                &&& p as int == pos + 1 + url_items(vs.take(k + 1)).len()
            } by {
                lemma_uarray_region(b@, pos as int, vs);
                lemma_uarray_step(b@, pos as int, vs, k);
                assert(uv == vs[k]);
                assert(urls_view(urls@) =~= vs.take(k + 1));
                lemma_uitems_split(vs, k);
            }
        }
        if p < bl && b[p] == 93 {
            proof {
                assert(b@.subrange(pos as int, p + 1) =~= seq![91u8] + url_items(
                    urls_view(urls@),
                ) + seq![93u8]);
                assert forall|vs: Seq<URLSummaryV>| #[trigger] urls_array_at(
                    b@,
                    pos as int,
                    vs,
                ) implies urls_view(urls@) == vs && p + 1 == pos + 2 + url_items(vs).len() by {
                    lemma_uarray_region(b@, pos as int, vs);
                    if k + 1 < vs.len() {
                        lemma_uarray_step(b@, pos as int, vs, k + 1);
                        lemma_url_parts(b@, p + 1, vs[k + 1]);
                        assert(b@[p as int] == 44);
                        assert(false);
                    }
                    assert(vs.take(k + 1) =~= vs);
                }
            }
            return Some((urls, p + 1));
        }
        if p < bl && b[p] == 44 {
            proof {
                assert(b@.subrange(pos + 1, p + 1) =~= url_items(urls_view(urls@)) + seq![44u8]);
                assert forall|vs: Seq<URLSummaryV>| #[trigger] urls_array_at(
                    b@,
                    pos as int,
                    vs,
                ) implies k + 1 < vs.len() && b@[pos + 1 + url_items(vs.take(k + 1)).len() as int]
                    == 44 by {
                    lemma_uarray_region(b@, pos as int, vs);
                    if k + 1 == vs.len() {
                        assert(vs.take(k + 1) =~= vs);
                        assert(b@[p as int] == 93);
                        assert(false);
                    }
                    lemma_uarray_step(b@, pos as int, vs, k + 1);
                }
            }
            cur = p + 1;
        } else {
            proof {
                assert forall|vs: Seq<URLSummaryV>| #[trigger] urls_array_at(
                    b@,
                    pos as int,
                    vs,
                ) implies false by {
                    lemma_uarray_region(b@, pos as int, vs);
                    if k + 1 < vs.len() {
                        lemma_uarray_step(b@, pos as int, vs, k + 1);
                    } else {
                        assert(vs.take(k + 1) =~= vs);
                    }
                }
            }
            return None;
        }
    }
}

/// Parse a summary from its canonical JSON bytes.  A successful
/// parse certifies the input: re-serializing the result yields
/// exactly the bytes that were read.  Conversely, the canonical
/// serialization of every summary value parses back to it.
#[verifier::rlimit(100)]
pub fn parse_summary(b: &[u8]) -> (r: Option<ArchiveSummary>)
    ensures
        r matches Some(a) ==> wf_v(a@) && json_summary(a@) == b@,
        forall|a: ArchiveSummaryV| (#[trigger] json_summary(a) == b@ && summary_bytes_ok(a)) ==> (
        r matches Some(x) && x@ == a),
{
    let bl = b.len();
    let (n1, n2, n3, p7) = match parse_counters(b) {
        Some(x) => x,
        None => {
            return None;
        },
    };
    proof {
        assert forall|a: ArchiveSummaryV| (json_summary(a) == b@ && summary_bytes_ok(a)) implies {
            let vs = a.urls_with_pattern_forms;
            &&& urls_array_at(b@, p7 as int, vs)
            &&& b@.len() == p7 + 3 + url_items(vs).len()
            &&& b@[p7 + 2 + url_items(vs).len() as int] == 125
        } by {
            lemma_summary_parts(b@, a);
            let vs = a.urls_with_pattern_forms;
            assert(b@.subrange(p7 as int, p7 + 2 + url_items(vs).len() as int) =~= seq![91u8]
                + url_items(vs) + seq![93u8]);
        }
    }
    let (urls, p8) = match parse_urls_array(b, p7) {
        Some(x) => x,
        None => {
            return None;
        },
    };
    if !(p8 < bl && b[p8] == 125 && p8 + 1 == bl) {
        proof {
            assert forall|a: ArchiveSummaryV| (json_summary(a) == b@ && summary_bytes_ok(
                a,
            )) implies false by {
            }
        }
        return None;
    }
    let a = ArchiveSummary {
        nr_unknown_encoding: n1,
        nr_urls_without_patterns: n2,
        nr_forms_without_patterns: n3,
        urls_with_pattern_forms: urls,
    };
    proof {
        assert(a@.urls_with_pattern_forms =~~= urls_view(a.urls_with_pattern_forms@));
        assert(b@.subrange(0, bl as int) =~= b@.subrange(0, p7 as int) + b@.subrange(
            p7 as int,
            p8 as int,
        ) + b@.subrange(p8 as int, bl as int));
        assert(b@.subrange(p8 as int, bl as int) =~= seq![125u8]);
        assert(seq![91u8] + url_items(a@.urls_with_pattern_forms) + seq![93u8] + seq![125u8]
            =~= seq![91u8] + url_items(a@.urls_with_pattern_forms) + seq![93u8, 125u8]);
        assert(json_summary(a@) =~= b@.subrange(0, bl as int));
        assert(b@.subrange(0, bl as int) =~= b@);
        assert forall|w: ArchiveSummaryV| (json_summary(w) == b@ && summary_bytes_ok(
            w,
        )) implies a@ == w by {
            assert(urls_view(urls@) == w.urls_with_pattern_forms);
            assert(a@ =~~= w);
        }
    }
    Some(a)
}

/// The view of any well-formed summary value satisfies the parser's
/// completeness hypothesis: its strings are UTF-8 encodings and its
/// counters fit their fields.  Together with the contracts of
/// [`ser_summary`] and [`parse_summary`], serializing any summary and
/// parsing the bytes back yields the summary again, and parsing a
/// stored file then re-serializing reproduces the file exactly.
pub proof fn lemma_summary_view_ok(a: &ArchiveSummary)
    requires
        wf_v(a@),
    ensures
        summary_bytes_ok(a@),
{
    let vs = a@.urls_with_pattern_forms;
    assert forall|i: int| 0 <= i < vs.len() implies valid_utf8((#[trigger] vs[i]).url)
        && all_valid_utf8(vs[i].with_patterns) by {
        let u = a.urls_with_pattern_forms@[i];
        vstd::utf8::encode_utf8_valid_utf8(u.url@);
        assert forall|j: int| 0 <= j < vs[i].with_patterns.len() implies valid_utf8(
            #[trigger] vs[i].with_patterns[j],
        ) by {
            vstd::utf8::encode_utf8_valid_utf8(u.with_patterns@[j]@);
        }
    }
}

} // verus!
