//! WARC framing: reading framed records out of a decompressed archive
//! byte stream.
//!
//! A record is a `WARC/1.0` or `WARC/1.1` version line, header lines
//! terminated by a blank line, a `Content-Length`-delimited body, and a
//! trailing blank line.  A record with readable framing but a foreign
//! version line is skipped.  A record whose header block cannot be
//! read (unparseable headers, missing or unreadable `Content-Length`)
//! is skipped silently by scanning forward to the next record
//! boundary; a body running past the end of the stream is the
//! truncated last record, and the stream ends cleanly there.

use vstd::prelude::*;
use vstd::slice::slice_to_vec;
use crate::bytes::{eq_bytes, find_from, find_seq, first_occurrence, split_bytes, split_seq};
use crate::dec::{dec_value, is_digits, parse_dec_u64};
use crate::http::{crlf, crlf2, header_lookup, headers_of_lines, parse_header_lines};

verus! {

/// One framed record: its WARC headers and its raw payload bytes.
pub struct WarcRecord {
    /// WARC header fields, in file order (names are case-insensitive).
    pub headers: Vec<(Vec<u8>, Vec<u8>)>,
    /// The record payload (for a response record: the HTTP response).
    pub content: Vec<u8>,
}

/// Mathematical view of a [`WarcRecord`].
#[verifier::ext_equal]
pub struct WarcRecordV {
    pub headers: Seq<(Seq<u8>, Seq<u8>)>,
    pub content: Seq<u8>,
}

impl View for WarcRecord {
    type V = WarcRecordV;

    open spec fn view(&self) -> WarcRecordV {
        WarcRecordV { headers: self.headers.deep_view(), content: self.content@ }
    }
}

/// What one framing step yields.
pub enum WarcStep {
    /// No further record can be framed; the stream is exhausted.
    Done,
    /// A record passed over silently — a foreign version line, or a
    /// malformed one skipped to the next boundary; resume at the
    /// offset carried.
    Skip(usize),
    /// A well-formed record; resume at the offset carried.
    Record(WarcRecord, usize),
}

/// Spec-level counterpart of [`WarcStep`].
pub enum WarcStepV {
    Done,
    Skip(int),
    Record(WarcRecordV, int),
}

/// `WARC/1.0`.
pub open spec fn warc_version_10() -> Seq<u8> {
    seq![87u8, 65u8, 82u8, 67u8, 47u8, 49u8, 46u8, 48u8]
}

/// `WARC/1.1`.
pub open spec fn warc_version_11() -> Seq<u8> {
    seq![87u8, 65u8, 82u8, 67u8, 47u8, 49u8, 46u8, 49u8]
}

/// `\r\nWARC/1.`, the boundary scanned for when a malformed record
/// must be skipped.
pub open spec fn warc_marker() -> Seq<u8> {
    seq![13u8, 10u8, 87u8, 65u8, 82u8, 67u8, 47u8, 49u8, 46u8]
}

/// Skip a malformed record: resume at the next record boundary after
/// `pos`, or end the stream if none follows.
pub open spec fn warc_resync(buf: Seq<u8>, pos: int) -> WarcStepV {
    let tail = buf.subrange(pos, buf.len() as int);
    match find_from(tail, warc_marker(), 1) {
        Some(i) => WarcStepV::Skip(pos + i + 2),
        None => WarcStepV::Done,
    }
}

/// `content-length` (header names are matched case-insensitively).
pub open spec fn content_length_name() -> Seq<u8> {
    seq![99u8, 111u8, 110u8, 116u8, 101u8, 110u8, 116u8, 45u8, 108u8, 101u8, 110u8, 103u8, 116u8,
        104u8]
}

/// The framing step at offset `pos` of the stream `buf`.
pub open spec fn warc_next(buf: Seq<u8>, pos: int) -> WarcStepV {
    let tail = buf.subrange(pos, buf.len() as int);
    match find_seq(tail, crlf2()) {
        None => WarcStepV::Done,
        Some(h) => {
            let lines = split_seq(tail.subrange(0, h), crlf());
            match headers_of_lines(lines.drop_first()) {
                None => warc_resync(buf, pos),
                Some(hs) => match header_lookup(hs, content_length_name()) {
                    None => warc_resync(buf, pos),
                    Some(clv) => if is_digits(clv) && clv.len() > 0 && dec_value(clv)
                        <= usize::MAX {
                        let n = dec_value(clv);
                        if h + 4 + n <= tail.len() {
                            let content = tail.subrange(h + 4, h + 4 + n);
                            let next = if h + 4 + n + 4 <= tail.len() {
                                pos + h + 4 + n + 4
                            } else {
                                buf.len() as int
                            };
                            if lines[0] == warc_version_10() || lines[0] == warc_version_11() {
                                WarcStepV::Record(WarcRecordV { headers: hs, content }, next)
                            } else {
                                WarcStepV::Skip(next)
                            }
                        } else {
                            WarcStepV::Done
                        }
                    } else {
                        warc_resync(buf, pos)
                    },
                },
            }
        },
    }
}

/// A step that yields or skips a record advances by at least three
/// bytes and stays within the stream, so iteration terminates and a
/// stream holds at most a third of its length in records.
pub proof fn lemma_warc_next_advances(buf: Seq<u8>, pos: int)
    requires
        0 <= pos <= buf.len(),
    ensures
        warc_next(buf, pos) matches WarcStepV::Skip(n) ==> pos + 3 <= n <= buf.len(),
        warc_next(buf, pos) matches WarcStepV::Record(_, n) ==> pos + 3 <= n <= buf.len(),
{
    let tail = buf.subrange(pos, buf.len() as int);
    crate::bytes::lemma_find_from_is_match(tail, warc_marker(), 1);
    if let Some(h) = find_seq(tail, crlf2()) {
        crate::bytes::lemma_find_from_is_match(tail, crlf2(), 0);
        let lines = split_seq(tail.subrange(0, h), crlf());
        if let Some(hs) = headers_of_lines(lines.drop_first()) {
            if let Some(clv) = header_lookup(hs, content_length_name()) {
                if is_digits(clv) && clv.len() > 0 {
                    crate::dec::lemma_dec_value_nonneg(clv);
                }
            }
        }
    }
}

/// Scan forward for the next record boundary after a malformed
/// record.
fn resync(buf: &[u8], pos: usize) -> (r: WarcStep)
    requires
        pos <= buf@.len(),
    ensures
        match r {
            WarcStep::Done => warc_resync(buf@, pos as int) == WarcStepV::Done,
            WarcStep::Skip(n) => warc_resync(buf@, pos as int) == WarcStepV::Skip(n as int),
            WarcStep::Record(_, _) => false,
        },
{
    let bl = buf.len();
    let rem = &buf[pos..bl];
    let marker: [u8; 9] = [13u8, 10u8, 87u8, 65u8, 82u8, 67u8, 47u8, 49u8, 46u8];
    assert(marker@ =~= warc_marker());
    match crate::bytes::first_occurrence_from(rem, marker.as_slice(), 1) {
        Some(i) => {
            proof {
                crate::bytes::lemma_find_from_is_match(rem@, marker@, 1);
            }
            WarcStep::Skip(pos + i + 2)
        },
        None => WarcStep::Done,
    }
}

/// Frame the next record of `buf` at offset `pos`.
pub fn next_record(buf: &[u8], pos: usize) -> (r: WarcStep)
    requires
        pos <= buf@.len(),
    ensures
        match r {
            WarcStep::Done => warc_next(buf@, pos as int) == WarcStepV::Done,
            WarcStep::Skip(n) => warc_next(buf@, pos as int) == WarcStepV::Skip(n as int),
            WarcStep::Record(rec, n) => warc_next(buf@, pos as int) == WarcStepV::Record(
                rec@,
                n as int,
            ),
        },
{
    let bl = buf.len();
    let rem = &buf[pos..bl];
    let terminator: [u8; 4] = [13u8, 10u8, 13u8, 10u8];
    let sep: [u8; 2] = [13u8, 10u8];
    assert(terminator@ =~= crlf2());
    assert(sep@ =~= crlf());
    let h = match first_occurrence(rem, terminator.as_slice()) {
        Some(h) => h,
        None => {
            return WarcStep::Done;
        },
    };
    proof {
        crate::bytes::lemma_find_from_is_match(rem@, terminator@, 0);
    }
    let block = &rem[0..h];
    let lines = split_bytes(block, sep.as_slice());
    let ghost line_views = lines.deep_view();
    assert(line_views == split_seq(rem@.subrange(0, h as int), crlf()));
    assert(lines@.len() >= 1) by {
        assert(line_views.len() >= 1);
    }
    let hs = match parse_header_lines(&lines) {
        Some(hs) => hs,
        None => {
            return resync(buf, pos);
        },
    };
    let cl_name: [u8; 14] = [99u8, 111u8, 110u8, 116u8, 101u8, 110u8, 116u8, 45u8, 108u8, 101u8,
        110u8, 103u8, 116u8, 104u8];
    assert(cl_name@ =~= content_length_name());
    let clv = match crate::http::find_header(&hs, cl_name.as_slice()) {
        Some(v) => v,
        None => {
            return resync(buf, pos);
        },
    };
    let v = match parse_dec_u64(clv.as_slice()) {
        Some(v) => v,
        None => {
            proof {
                if is_digits(clv@) && clv@.len() > 0 {
                    crate::dec::lemma_dec_value_prefix(clv@, clv@.len() as int);
                    assert(dec_value(clv@) > u64::MAX);
                }
            }
            return resync(buf, pos);
        },
    };
    if v > usize::MAX as u64 {
        return resync(buf, pos);
    }
    let n = v as usize;
    let body_start = h + 4;
    let avail = rem.len() - body_start;
    if n > avail {
        return WarcStep::Done;
    }
    let content = slice_to_vec(&rem[body_start..body_start + n]);
    let next_rel = if avail - n >= 4 {
        body_start + n + 4
    } else {
        rem.len()
    };
    let next = pos + next_rel;
    let version_ok = {
        let v10: [u8; 8] = [87u8, 65u8, 82u8, 67u8, 47u8, 49u8, 46u8, 48u8];
        let v11: [u8; 8] = [87u8, 65u8, 82u8, 67u8, 47u8, 49u8, 46u8, 49u8];
        assert(v10@ =~= warc_version_10());
        assert(v11@ =~= warc_version_11());
        let first = &lines[0];
        proof {
            assert(first@ =~= line_views[0]);
        }
        eq_bytes(first.as_slice(), v10.as_slice()) || eq_bytes(first.as_slice(), v11.as_slice())
    };
    if version_ok {
        let rec = WarcRecord { headers: hs, content };
        proof {
            assert(rec@.headers =~~= hs.deep_view());
        }
        WarcStep::Record(rec, next)
    } else {
        WarcStep::Skip(next)
    }
}

} // verus!
