//! Classifying one WARC record and reducing a whole record stream
//! into an [`ArchiveSummary`].
//!
//! Only response records whose identified payload type is HTML are
//! considered.  Each considered record moves exactly one of: the
//! unknown-encoding counter, the no-patterns counter, or the URL list.

use vstd::prelude::*;
use vstd::utf8::valid_utf8;
use crate::extract::{extract_forms, extract_of};
use crate::http::header_lookup;
use crate::summary::{
    merge_v, weight, wf_v, zero_v, ArchiveSummary, ArchiveSummaryV, URLSummary, URLSummaryV,
};
use crate::text::{string_from_utf8, strings_bytes};
use crate::warc::{next_record, warc_next, WarcRecord, WarcRecordV, WarcStep, WarcStepV};

verus! {

/// `warc-identified-payload-type` (matched ignoring ASCII case).
pub open spec fn payload_type_name() -> Seq<u8> {
    seq![119u8, 97u8, 114u8, 99u8, 45u8, 105u8, 100u8, 101u8, 110u8, 116u8, 105u8, 102u8, 105u8,
        101u8, 100u8, 45u8, 112u8, 97u8, 121u8, 108u8, 111u8, 97u8, 100u8, 45u8, 116u8, 121u8,
        112u8, 101u8]
}

/// `warc-target-uri` (matched ignoring ASCII case).
pub open spec fn target_uri_name() -> Seq<u8> {
    seq![119u8, 97u8, 114u8, 99u8, 45u8, 116u8, 97u8, 114u8, 103u8, 101u8, 116u8, 45u8, 117u8,
        114u8, 105u8]
}

/// `warc-type` (matched ignoring ASCII case).
pub open spec fn warc_type_name() -> Seq<u8> {
    seq![119u8, 97u8, 114u8, 99u8, 45u8, 116u8, 121u8, 112u8, 101u8]
}

/// `response`.
pub open spec fn response_value() -> Seq<u8> {
    seq![114u8, 101u8, 115u8, 112u8, 111u8, 110u8, 115u8, 101u8]
}

/// `text/html`.
pub open spec fn html_type() -> Seq<u8> {
    seq![116u8, 101u8, 120u8, 116u8, 47u8, 104u8, 116u8, 109u8, 108u8]
}

/// `application/xhtml+xml`.
pub open spec fn xhtml_type() -> Seq<u8> {
    seq![97u8, 112u8, 112u8, 108u8, 105u8, 99u8, 97u8, 116u8, 105u8, 111u8, 110u8, 47u8, 120u8,
        104u8, 116u8, 109u8, 108u8, 43u8, 120u8, 109u8, 108u8]
}

/// One record whose HTML could not be decoded.
pub open spec fn unknown_one() -> ArchiveSummaryV {
    ArchiveSummaryV {
        nr_unknown_encoding: 1,
        nr_urls_without_patterns: 0,
        nr_forms_without_patterns: 0,
        urls_with_pattern_forms: Seq::empty(),
    }
}

/// One HTML record that contributed no qualifying form.
pub open spec fn without_patterns_one() -> ArchiveSummaryV {
    ArchiveSummaryV {
        nr_unknown_encoding: 0,
        nr_urls_without_patterns: 1,
        nr_forms_without_patterns: 0,
        urls_with_pattern_forms: Seq::empty(),
    }
}

/// One record that contributed qualifying forms: its URL enters the
/// list and the forms not retained are counted.
pub open spec fn with_forms_one(url: Seq<u8>, n: int, forms: Seq<Seq<u8>>) -> ArchiveSummaryV {
    ArchiveSummaryV {
        nr_unknown_encoding: 0,
        nr_urls_without_patterns: 0,
        nr_forms_without_patterns: n - forms.len(),
        urls_with_pattern_forms: seq![URLSummaryV { url, with_patterns: forms }],
    }
}

/// The increment one record adds to a summary, or `None` when the
/// record is skipped: no identified payload type, a non-HTML type, or
/// a missing (or non-UTF-8) target URI when forms were found.
pub open spec fn record_summary_of(r: WarcRecordV) -> Option<ArchiveSummaryV> {
    match header_lookup(r.headers, payload_type_name()) {
        None => None,
        Some(ct) => if ct != html_type() && ct != xhtml_type() {
            None
        } else {
            match extract_of(r.content) {
                None => Some(unknown_one()),
                Some((n, forms)) => if n == 0 || forms.len() == 0 {
                    Some(without_patterns_one())
                } else {
                    match header_lookup(r.headers, target_uri_name()) {
                        None => None,
                        Some(url) => if valid_utf8(url) {
                            Some(with_forms_one(url, n, forms))
                        } else {
                            None
                        },
                    }
                },
            }
        },
    }
}

/// A record's increment is well-formed and carries exactly one
/// record's worth of weight.
pub proof fn lemma_record_summary_wf(r: WarcRecordV)
    ensures
        record_summary_of(r) matches Some(s) ==> wf_v(s) && weight(s) == 1,
{
    if let Some(ct) = header_lookup(r.headers, payload_type_name()) {
        if ct == html_type() || ct == xhtml_type() {
            if let Some((n, forms)) = extract_of(r.content) {
                if let Some(text) = crate::decode::decode_body_of(r.content) {
                    if let Some(elems) = crate::dom::dom_of(text) {
                        crate::extract::lemma_extract_from_bounds(text, elems, 0);
                    }
                }
            }
        }
    }
}

/// A form's source text is well-formed: it holds `</form>` and opens
/// with `<form>` up to ASCII case.
pub open spec fn form_wellformed(f: Seq<u8>) -> bool {
    &&& crate::bytes::contains_seq(f, crate::extract::form_close())
    &&& crate::bytes::starts_with(
        crate::bytes::lower_seq(f),
        crate::extract::form_open_lower(),
    )
}

/// Every form of every URL of a summary is well-formed.
pub open spec fn summary_forms_wellformed(s: ArchiveSummaryV) -> bool {
    forall|i: int, j: int|
        0 <= i < s.urls_with_pattern_forms.len() && 0 <= j < (
        #[trigger] s.urls_with_pattern_forms[i]).with_patterns.len() ==> form_wellformed(
            #[trigger] s.urls_with_pattern_forms[i].with_patterns[j],
        )
}

/// Every form a record contributes is well-formed.
pub proof fn lemma_record_forms_wellformed(r: WarcRecordV)
    ensures
        record_summary_of(r) matches Some(s) ==> summary_forms_wellformed(s),
{
    if let Some(ct) = header_lookup(r.headers, payload_type_name()) {
        if ct == html_type() || ct == xhtml_type() {
            if let Some((n, forms)) = extract_of(r.content) {
                if let Some(text) = crate::decode::decode_body_of(r.content) {
                    if let Some(elems) = crate::dom::dom_of(text) {
                        crate::extract::lemma_extracted_forms_wellformed(text, elems, 0);
                    }
                }
            }
        }
    }
}

/// Every form a whole stream's summary retains is well-formed: the
/// form-text invariant holds of everything the pipeline keeps.
pub proof fn lemma_stream_forms_wellformed(buf: Seq<u8>, pos: int)
    ensures
        summary_forms_wellformed(stream_summary_of(buf, pos)),
    decreases buf.len() - pos,
{
    if pos < 0 || pos > buf.len() {
    } else {
        crate::warc::lemma_warc_next_advances(buf, pos);
        match warc_next(buf, pos) {
            WarcStepV::Done => {},
            WarcStepV::Skip(next) => {
                lemma_stream_forms_wellformed(buf, next);
            },
            WarcStepV::Record(rec, next) => {
                lemma_record_forms_wellformed(rec);
                lemma_stream_forms_wellformed(buf, next);
                let a = record_contrib(rec);
                let b = stream_summary_of(buf, next);
                let m = merge_v(a, b);
                assert forall|i: int, j: int|
                    0 <= i < m.urls_with_pattern_forms.len() && 0 <= j < (
                    #[trigger] m.urls_with_pattern_forms[i]).with_patterns.len() implies
                    form_wellformed(#[trigger] m.urls_with_pattern_forms[i].with_patterns[j]) by {
                    if i < a.urls_with_pattern_forms.len() {
                        assert(m.urls_with_pattern_forms[i] == a.urls_with_pattern_forms[i]);
                    } else {
                        assert(m.urls_with_pattern_forms[i] == b.urls_with_pattern_forms[i
                            - a.urls_with_pattern_forms.len()]);
                    }
                }
            },
        }
    }
}

/// Map one record to its summary increment.
pub fn from_record(rec: &WarcRecord) -> (r: Option<ArchiveSummary>)
    ensures
        match r {
            Some(s) => record_summary_of(rec@) == Some(s@) && wf_v(s@),
            None => record_summary_of(rec@) is None,
        },
{
    let pt_name: [u8; 28] = [119u8, 97u8, 114u8, 99u8, 45u8, 105u8, 100u8, 101u8, 110u8, 116u8,
        105u8, 102u8, 105u8, 101u8, 100u8, 45u8, 112u8, 97u8, 121u8, 108u8, 111u8, 97u8, 100u8,
        45u8, 116u8, 121u8, 112u8, 101u8];
    assert(pt_name@ =~= payload_type_name());
    let ct = match crate::http::find_header(&rec.headers, pt_name.as_slice()) {
        Some(v) => v,
        None => {
            return None;
        },
    };
    let html: [u8; 9] = [116u8, 101u8, 120u8, 116u8, 47u8, 104u8, 116u8, 109u8, 108u8];
    assert(html@ =~= html_type());
    let xhtml: [u8; 21] = [97u8, 112u8, 112u8, 108u8, 105u8, 99u8, 97u8, 116u8, 105u8, 111u8,
        110u8, 47u8, 120u8, 104u8, 116u8, 109u8, 108u8, 43u8, 120u8, 109u8, 108u8];
    assert(xhtml@ =~= xhtml_type());
    if !crate::bytes::eq_bytes(ct.as_slice(), html.as_slice()) && !crate::bytes::eq_bytes(
        ct.as_slice(),
        xhtml.as_slice(),
    ) {
        return None;
    }
    let (n, forms) = match extract_forms(rec.content.as_slice()) {
        Ok(p) => p,
        Err(_) => {
            let s = ArchiveSummary {
                nr_unknown_encoding: 1,
                nr_urls_without_patterns: 0,
                nr_forms_without_patterns: 0,
                urls_with_pattern_forms: Vec::new(),
            };
            proof {
                assert(s@ =~~= unknown_one());
            }
            return Some(s);
        },
    };
    if n == 0 || forms.len() == 0 {
        let s = ArchiveSummary {
            nr_unknown_encoding: 0,
            nr_urls_without_patterns: 1,
            nr_forms_without_patterns: 0,
            urls_with_pattern_forms: Vec::new(),
        };
        proof {
            assert(s@ =~~= without_patterns_one());
        }
        return Some(s);
    }
    let uri_name: [u8; 15] = [119u8, 97u8, 114u8, 99u8, 45u8, 116u8, 97u8, 114u8, 103u8, 101u8,
        116u8, 45u8, 117u8, 114u8, 105u8];
    assert(uri_name@ =~= target_uri_name());
    let url_bytes = match crate::http::find_header(&rec.headers, uri_name.as_slice()) {
        Some(v) => v,
        None => {
            return None;
        },
    };
    let url = match string_from_utf8(url_bytes) {
        Some(u) => u,
        None => {
            return None;
        },
    };
    let ghost nv = n as int;
    let ghost fv = strings_bytes(forms@);
    let nr_without = n - forms.len() as i64;
    let u = URLSummary { url, with_patterns: forms };
    let mut urls: Vec<URLSummary> = Vec::new();
    urls.push(u);
    let s = ArchiveSummary {
        nr_unknown_encoding: 0,
        nr_urls_without_patterns: 0,
        nr_forms_without_patterns: nr_without,
        urls_with_pattern_forms: urls,
    };
    proof {
        assert(s@.urls_with_pattern_forms[0].with_patterns =~~= fv);
        assert(s@ =~~= with_forms_one(vstd::utf8::encode_utf8(url@), nv, fv));
    }
    Some(s)
}

/// The record's `WARC-Type` header says `response`.
pub open spec fn warc_type_is_response(r: WarcRecordV) -> bool {
    header_lookup(r.headers, warc_type_name()) == Some(response_value())
}

/// What one record adds to the stream's summary: skipped records and
/// non-response records add nothing.
pub open spec fn record_contrib(r: WarcRecordV) -> ArchiveSummaryV {
    if warc_type_is_response(r) {
        match record_summary_of(r) {
            Some(s) => s,
            None => zero_v(),
        }
    } else {
        zero_v()
    }
}

/// The summary of the record stream from offset `pos` on.
pub open spec fn stream_summary_of(buf: Seq<u8>, pos: int) -> ArchiveSummaryV
    decreases buf.len() - pos,
    via stream_summary_decreases
{
    if pos < 0 || pos > buf.len() {
        zero_v()
    } else {
        match warc_next(buf, pos) {
            WarcStepV::Done => zero_v(),
            WarcStepV::Skip(next) => stream_summary_of(buf, next),
            WarcStepV::Record(rec, next) => merge_v(
                record_contrib(rec),
                stream_summary_of(buf, next),
            ),
        }
    }
}

#[via_fn]
proof fn stream_summary_decreases(buf: Seq<u8>, pos: int) {
    if 0 <= pos <= buf.len() {
        crate::warc::lemma_warc_next_advances(buf, pos);
    }
}

/// How many records of the stream the analyzer considers: response
/// records that yield an increment.
pub open spec fn considered_records(buf: Seq<u8>, pos: int) -> int
    decreases buf.len() - pos,
    via considered_records_decreases
{
    if pos < 0 || pos > buf.len() {
        0
    } else {
        match warc_next(buf, pos) {
            WarcStepV::Done => 0,
            WarcStepV::Skip(next) => considered_records(buf, next),
            WarcStepV::Record(rec, next) => (if warc_type_is_response(rec) && record_summary_of(
                rec,
            ) is Some {
                1int
            } else {
                0int
            }) + considered_records(buf, next),
        }
    }
}

#[via_fn]
proof fn considered_records_decreases(buf: Seq<u8>, pos: int) {
    if 0 <= pos <= buf.len() {
        crate::warc::lemma_warc_next_advances(buf, pos);
    }
}

/// A stream summary is well-formed: its counters never go negative.
pub proof fn lemma_stream_wf(buf: Seq<u8>, pos: int)
    ensures
        wf_v(stream_summary_of(buf, pos)),
    decreases buf.len() - pos,
{
    if 0 <= pos <= buf.len() {
        crate::warc::lemma_warc_next_advances(buf, pos);
        match warc_next(buf, pos) {
            WarcStepV::Done => {},
            WarcStepV::Skip(next) => {
                lemma_stream_wf(buf, next);
            },
            WarcStepV::Record(rec, next) => {
                lemma_record_summary_wf(rec);
                lemma_stream_wf(buf, next);
            },
        }
    }
}

/// The counter-sum law: the weight of a stream's summary — unknown
/// encodings, plus URLs without patterns, plus URLs with patterns —
/// equals the number of records the analyzer considered.
pub proof fn lemma_stream_weight(buf: Seq<u8>, pos: int)
    ensures
        weight(stream_summary_of(buf, pos)) == considered_records(buf, pos),
    decreases buf.len() - pos,
{
    if 0 <= pos <= buf.len() {
        crate::warc::lemma_warc_next_advances(buf, pos);
        match warc_next(buf, pos) {
            WarcStepV::Done => {},
            WarcStepV::Skip(next) => {
                lemma_stream_weight(buf, next);
            },
            WarcStepV::Record(rec, next) => {
                lemma_record_summary_wf(rec);
                lemma_stream_weight(buf, next);
                crate::summary::lemma_merge_weight(
                    record_contrib(rec),
                    stream_summary_of(buf, next),
                );
            },
        }
    }
}

/// Each considered record occupies at least three bytes of stream.
pub proof fn lemma_considered_bound(buf: Seq<u8>, pos: int)
    requires
        0 <= pos <= buf.len(),
    ensures
        0 <= considered_records(buf, pos) <= (buf.len() - pos) / 3,
    decreases buf.len() - pos,
{
    crate::warc::lemma_warc_next_advances(buf, pos);
    match warc_next(buf, pos) {
        WarcStepV::Done => {},
        WarcStepV::Skip(next) => {
            lemma_considered_bound(buf, next);
        },
        WarcStepV::Record(rec, next) => {
            lemma_considered_bound(buf, next);
        },
    }
}

/// The record-counting fields of a real stream's summary always fit
/// their 64-bit fields: a record takes at least three bytes.
pub proof fn lemma_stream_counters_fit(buf: Seq<u8>, pos: int)
    requires
        0 <= pos <= buf.len(),
        buf.len() <= usize::MAX,
    ensures
        stream_summary_of(buf, pos).nr_unknown_encoding <= i64::MAX,
        stream_summary_of(buf, pos).nr_urls_without_patterns <= i64::MAX,
        stream_summary_of(buf, pos).urls_with_pattern_forms.len() <= i64::MAX,
{
    lemma_stream_wf(buf, pos);
    lemma_stream_weight(buf, pos);
    lemma_considered_bound(buf, pos);
    assert(usize::MAX as int <= u64::MAX as int);
    assert((buf.len() - pos) / 3 <= u64::MAX as int / 3);
}

/// The one counter a pathological stream could overflow: forms seen
/// but not retained.  The record-counting fields always fit.
pub open spec fn stream_fits(buf: Seq<u8>) -> bool {
    stream_summary_of(buf, 0).nr_forms_without_patterns <= i64::MAX
}

/// Reduce a decompressed WARC stream to its summary.  The two
/// record-classification counters, the URL list, and the counter-sum
/// law hold unconditionally; the forms-not-retained counter is exact
/// whenever the stream's total fits its field, and saturates there
/// otherwise.
pub fn summarize_stream(buf: &[u8]) -> (r: ArchiveSummary)
    ensures
        wf_v(r@),
        r@.nr_unknown_encoding == stream_summary_of(buf@, 0).nr_unknown_encoding,
        r@.nr_urls_without_patterns == stream_summary_of(buf@, 0).nr_urls_without_patterns,
        r@.urls_with_pattern_forms == stream_summary_of(buf@, 0).urls_with_pattern_forms,
        weight(r@) == considered_records(buf@, 0),
        stream_fits(buf@) ==> r@ == stream_summary_of(buf@, 0),
{
    let ghost total = stream_summary_of(buf@, 0);
    let mut acc = ArchiveSummary::default();
    let mut pos: usize = 0;
    let bl = buf.len();
    proof {
        crate::summary::lemma_merge_zero(total);
    }
    loop
        invariant
            pos <= buf@.len(),
            buf@.len() == bl,
            bl <= usize::MAX,
            wf_v(acc@),
            total == stream_summary_of(buf@, 0),
            acc@.nr_unknown_encoding + stream_summary_of(buf@, pos as int).nr_unknown_encoding
                == total.nr_unknown_encoding,
            acc@.nr_urls_without_patterns + stream_summary_of(
                buf@,
                pos as int,
            ).nr_urls_without_patterns == total.nr_urls_without_patterns,
            acc@.urls_with_pattern_forms + stream_summary_of(
                buf@,
                pos as int,
            ).urls_with_pattern_forms == total.urls_with_pattern_forms,
            weight(acc@) + considered_records(buf@, pos as int) == considered_records(buf@, 0),
            total.nr_forms_without_patterns <= i64::MAX ==> acc@.nr_forms_without_patterns
                + stream_summary_of(buf@, pos as int).nr_forms_without_patterns
                == total.nr_forms_without_patterns,
        decreases buf@.len() - pos,
    {
        match next_record(buf, pos) {
            WarcStep::Done => {
                proof {
                    assert(stream_summary_of(buf@, pos as int) == zero_v());
                    assert(considered_records(buf@, pos as int) == 0);
                    assert(acc@.urls_with_pattern_forms + Seq::<URLSummaryV>::empty()
                        =~= acc@.urls_with_pattern_forms);
                    if total.nr_forms_without_patterns <= i64::MAX {
                        assert(acc@ =~= total);
                    }
                }
                return acc;
            },
            WarcStep::Skip(nx) => {
                proof {
                    crate::warc::lemma_warc_next_advances(buf@, pos as int);
                }
                pos = nx;
            },
            WarcStep::Record(rec, nx) => {
                proof {
                    crate::warc::lemma_warc_next_advances(buf@, pos as int);
                }
                let wt_name: [u8; 9] = [119u8, 97u8, 114u8, 99u8, 45u8, 116u8, 121u8, 112u8,
                    101u8];
                assert(wt_name@ =~= warc_type_name());
                let resp: [u8; 8] = [114u8, 101u8, 115u8, 112u8, 111u8, 110u8, 115u8, 101u8];
                assert(resp@ =~= response_value());
                let is_response = match crate::http::find_header(&rec.headers, wt_name.as_slice())
                    {
                    Some(v) => crate::bytes::eq_bytes(v.as_slice(), resp.as_slice()),
                    None => false,
                };
                if is_response {
                    if let Some(inc) = from_record(&rec) {
                        let ghost rest2 = stream_summary_of(buf@, nx as int);
                        proof {
                            lemma_record_summary_wf(rec@);
                            lemma_stream_wf(buf@, nx as int);
                            lemma_stream_counters_fit(buf@, 0);
                            assert(stream_summary_of(buf@, pos as int) == merge_v(inc@, rest2));
                            assert(acc@.nr_unknown_encoding + inc@.nr_unknown_encoding
                                + rest2.nr_unknown_encoding == total.nr_unknown_encoding);
                            assert(acc@.nr_urls_without_patterns + inc@.nr_urls_without_patterns
                                + rest2.nr_urls_without_patterns
                                == total.nr_urls_without_patterns);
                        }
                        let new_unknown = acc.nr_unknown_encoding + inc.nr_unknown_encoding;
                        let new_without = acc.nr_urls_without_patterns
                            + inc.nr_urls_without_patterns;
                        let new_forms = if acc.nr_forms_without_patterns > i64::MAX
                            - inc.nr_forms_without_patterns {
                            // the stream's total cannot fit; saturate
                            i64::MAX
                        } else {
                            acc.nr_forms_without_patterns + inc.nr_forms_without_patterns
                        };
                        let ghost accv = acc@;
                        let ghost incv = inc@;
                        let mut urls = acc.urls_with_pattern_forms;
                        let mut more = inc.urls_with_pattern_forms;
                        urls.append(&mut more);
                        acc = ArchiveSummary {
                            nr_unknown_encoding: new_unknown,
                            nr_urls_without_patterns: new_without,
                            nr_forms_without_patterns: new_forms,
                            urls_with_pattern_forms: urls,
                        };
                        proof {
                            assert(acc@.urls_with_pattern_forms =~= accv.urls_with_pattern_forms
                                + incv.urls_with_pattern_forms);
                            assert(acc@.urls_with_pattern_forms + rest2.urls_with_pattern_forms
                                =~= accv.urls_with_pattern_forms
                                + (incv.urls_with_pattern_forms + rest2.urls_with_pattern_forms));
                            assert(weight(acc@) == weight(accv) + weight(incv));
                            if total.nr_forms_without_patterns <= i64::MAX {
                                assert(accv.nr_forms_without_patterns
                                    + incv.nr_forms_without_patterns
                                    + rest2.nr_forms_without_patterns
                                    == total.nr_forms_without_patterns);
                                assert(accv.nr_forms_without_patterns
                                    + incv.nr_forms_without_patterns <= i64::MAX);
                            }
                        }
                    } else {
                        proof {
                            assert(record_contrib(rec@) == zero_v());
                            crate::summary::lemma_merge_zero(
                                stream_summary_of(buf@, nx as int),
                            );
                        }
                    }
                } else {
                    proof {
                        assert(record_contrib(rec@) == zero_v());
                        crate::summary::lemma_merge_zero(stream_summary_of(buf@, nx as int));
                    }
                }
                pos = nx;
            },
        }
    }
}

/// The summary of one compressed WARC/// The summary of one compressed WARC, or `None` when the archive
/// does not decompress.
pub open spec fn warc_summary_of(gz: Seq<u8>) -> Option<ArchiveSummaryV> {
    match crate::store::gunzip_of(gz) {
        Some(stream) => Some(stream_summary_of(stream, 0)),
        None => None,
    }
}

/// Decompress one WARC and reduce its records to a summary.
pub fn summarize_warc_gz(gz: &[u8]) -> (r: Option<ArchiveSummary>)
    ensures
        match r {
            Some(s) => warc_summary_of(gz@) matches Some(t) && wf_v(s@)
                && s@.nr_unknown_encoding == t.nr_unknown_encoding
                && s@.nr_urls_without_patterns == t.nr_urls_without_patterns
                && s@.urls_with_pattern_forms == t.urls_with_pattern_forms && weight(s@)
                == considered_records(crate::store::gunzip_of(gz@)->Some_0, 0) && (stream_fits(
                crate::store::gunzip_of(gz@)->Some_0,
            ) ==> s@ == t),
            None => warc_summary_of(gz@) is None,
        },
{
    let stream = match crate::store::gunzip(gz) {
        Some(t) => t,
        None => {
            return None;
        },
    };
    Some(summarize_stream(stream.as_slice()))
}

} // verus!

