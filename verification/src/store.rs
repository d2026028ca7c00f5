//! On-disk storage of the corpus: the per-WARC file name, the
//! compressed summary encoding, the index file's line format, and the
//! single-writer session whose index never repeats an entry.

use vstd::prelude::*;
use vstd::utf8::encode_utf8;
use crate::bytes::split_seq;
use crate::json::{json_summary, parse_summary, ser_summary, summary_bytes_ok};
use crate::summary::{wf_v, ArchiveSummary};
use crate::text::string_from_utf8;
use vstd::string::StringSliceAdditionalSpecFns;

verus! {

/// The xz preset the corpus files are written with.
pub const COMPRESSION_LEVEL: u32 = 6;

/// What multi-member gzip decompression of a byte string yields: a
/// function of the input alone; `None` on malformed input.
pub uninterp spec fn gunzip_of(gz: Seq<u8>) -> Option<Seq<u8>>;

/// Relies on flate2::read::MultiGzDecoder and std::io::Read::read_to_end:
/// decompresses concatenated gzip members until the input ends.
#[verifier::external_body]
pub fn gunzip(gz: &[u8]) -> (r: Option<Vec<u8>>)
    ensures
        match r {
            Some(v) => gunzip_of(gz@) == Some(v@),
            None => gunzip_of(gz@) is None,
        },
{
    let mut out = Vec::new();
    let mut d = flate2::read::MultiGzDecoder::new(gz);
    match std::io::Read::read_to_end(&mut d, &mut out) {
        Ok(_) => Some(out),
        Err(_) => None,
    }
}

/// What xz compression at a given preset yields: a function of its
/// arguments alone.
pub uninterp spec fn xz_of(bytes: Seq<u8>, level: u32) -> Option<Seq<u8>>;

/// Relies on xz2::read::XzEncoder and std::io::Read::read_to_end.
/// Presets above 9 are refused by liblzma, so they are excluded here.
#[verifier::external_body]
pub fn xz_compress(bytes: &[u8], level: u32) -> (r: Option<Vec<u8>>)
    requires
        level <= 9,
    ensures
        match r {
            Some(v) => xz_of(bytes@, level) == Some(v@),
            None => xz_of(bytes@, level) is None,
        },
{
    let mut out = Vec::new();
    let mut enc = xz2::read::XzEncoder::new(bytes, level);
    match std::io::Read::read_to_end(&mut enc, &mut out) {
        Ok(_) => Some(out),
        Err(_) => None,
    }
}

/// What xz decompression yields: a function of the input alone;
/// `None` on malformed input.
pub uninterp spec fn unxz_of(bytes: Seq<u8>) -> Option<Seq<u8>>;

/// Relies on xz2::read::XzDecoder and std::io::Read::read_to_end.
#[verifier::external_body]
pub fn xz_decompress(bytes: &[u8]) -> (r: Option<Vec<u8>>)
    ensures
        match r {
            Some(v) => unxz_of(bytes@) == Some(v@),
            None => unxz_of(bytes@) is None,
        },
{
    let mut out = Vec::new();
    let mut d = xz2::read::XzDecoder::new(bytes);
    match std::io::Read::read_to_end(&mut d, &mut out) {
        Ok(_) => Some(out),
        Err(_) => None,
    }
}

/// Encode a summary for storage: canonical JSON, xz-compressed.
pub fn encode_summary(a: &ArchiveSummary) -> (r: Option<Vec<u8>>)
    requires
        wf_v(a@),
    ensures
        match r {
            Some(v) => xz_of(json_summary(a@), COMPRESSION_LEVEL) == Some(v@),
            None => xz_of(json_summary(a@), COMPRESSION_LEVEL) is None,
        },
{
    let json = ser_summary(a);
    xz_compress(json.as_slice(), COMPRESSION_LEVEL)
}

/// Load a summary from a stored file's bytes.  A successful load
/// certifies the file: the decompressed bytes are exactly the
/// canonical JSON of the result, so re-serializing reproduces them.
/// Conversely, a file that decompresses to the canonical JSON of a
/// summary always loads, and loads to that summary.
pub fn load_summary(bytes: &[u8]) -> (r: Option<ArchiveSummary>)
    ensures
        r matches Some(a) ==> wf_v(a@) && unxz_of(bytes@) == Some(json_summary(a@)),
        forall|a: crate::summary::ArchiveSummaryV|
            (unxz_of(bytes@) == Some(#[trigger] json_summary(a)) && summary_bytes_ok(a)) ==> (
            r matches Some(x) && x@ == a),
{
    let raw = match xz_decompress(bytes) {
        Some(v) => v,
        None => {
            return None;
        },
    };
    let r = parse_summary(raw.as_slice());
    proof {
        assert forall|a: crate::summary::ArchiveSummaryV|
            (unxz_of(bytes@) == Some(#[trigger] json_summary(a)) && summary_bytes_ok(
                a,
            )) implies (r matches Some(x) && x@ == a) by {
            assert(json_summary(a) == raw@);
        }
    }
    r
}

/// `forms.d/`.
pub open spec fn storage_prefix() -> Seq<u8> {
    seq![102u8, 111u8, 114u8, 109u8, 115u8, 46u8, 100u8, 47u8]
}

/// `.json.xz`.
pub open spec fn storage_suffix() -> Seq<u8> {
    seq![46u8, 106u8, 115u8, 111u8, 110u8, 46u8, 120u8, 122u8]
}

/// Every `/` replaced by `!`: a reversible encoding that keeps the
/// file name free of path separators.
pub open spec fn bang_encode(s: Seq<u8>) -> Seq<u8> {
    s.map(|_i: int, b: u8| if b == 47 { 33u8 } else { b })
}

/// The storage file name of a WARC URL.
pub open spec fn storage_name_of(url: Seq<u8>) -> Seq<u8> {
    storage_prefix() + bang_encode(url) + storage_suffix()
}

/// UTF-8 encoding distributes over concatenation.
pub proof fn lemma_encode_concat(a: Seq<char>, b: Seq<char>)
    ensures
        encode_utf8(a + b) == encode_utf8(a) + encode_utf8(b),
    decreases a.len(),
{
    if a.len() == 0 {
        assert(a + b =~= b);
        assert(encode_utf8(a) =~= Seq::<u8>::empty());
        assert(encode_utf8(a) + encode_utf8(b) =~= encode_utf8(b));
    } else {
        assert((a + b).drop_first() =~= a.drop_first() + b);
        lemma_encode_concat(a.drop_first(), b);
        assert((a + b)[0] == a[0]);
        assert(encode_utf8(a + b) == vstd::utf8::encode_scalar(a[0] as u32) + (encode_utf8(
            a.drop_first(),
        ) + encode_utf8(b)));
        assert(vstd::utf8::encode_scalar(a[0] as u32) + (encode_utf8(a.drop_first())
            + encode_utf8(b)) =~= (vstd::utf8::encode_scalar(a[0] as u32) + encode_utf8(
            a.drop_first(),
        )) + encode_utf8(b));
    }
}

/// Relies on str::replace: substitutes every `/` character with `!`.
/// Both are ASCII, and in UTF-8 the byte 0x2F occurs only as the
/// character `/`, so at byte level every 47 becomes 33.
#[verifier::external_body]
fn replace_slash(s: &str) -> (r: String)
    ensures
        encode_utf8(r@) == bang_encode(encode_utf8(s@)),
{
    s.replace('/', "!")
}

/// The storage file name for a WARC URL's summary.
pub fn to_storage_fn(warc_url: &str) -> (r: String)
    ensures
        encode_utf8(r@) == storage_name_of(encode_utf8(warc_url@)),
{
    let prefix = "forms.d/";
    let suffix = ".json.xz";
    proof {
        reveal_strlit("forms.d/");
        reveal_strlit(".json.xz");
        vstd::string::is_ascii_spec_bytes(prefix);
        vstd::string::is_ascii_spec_bytes(suffix);
        assert(vstd::string::is_ascii(prefix));
        assert(vstd::string::is_ascii(suffix));
        assert(prefix.spec_bytes() =~= storage_prefix());
        assert(suffix.spec_bytes() =~= storage_suffix());
    }
    let mid = replace_slash(warc_url);
    let mut out = String::from_str(prefix);
    out.append(mid.as_str());
    out.append(suffix);
    proof {
        lemma_encode_concat(prefix@ + mid@, suffix@);
        lemma_encode_concat(prefix@, mid@);
        assert(out@ =~= (prefix@ + mid@) + suffix@);
        assert(encode_utf8(out@) =~= storage_name_of(encode_utf8(warc_url@)));
    }
    out
}

/// `\n`.
pub open spec fn lf() -> Seq<u8> {
    seq![10u8]
}

/// Drop one trailing carriage return, as reading lines does.
pub open spec fn strip_cr(s: Seq<u8>) -> Seq<u8> {
    if s.len() > 0 && s[s.len() - 1] == 13 {
        s.drop_last()
    } else {
        s
    }
}

/// The lines of an index or manifest file: split at `\n`, each line
/// without a trailing `\r`, and no final empty line.
pub open spec fn index_lines_of(text: Seq<u8>) -> Seq<Seq<u8>> {
    let pieces = split_seq(text, lf());
    let n: int = if pieces.len() > 0 && pieces.last().len() == 0 {
        pieces.len() - 1
    } else {
        pieces.len() as int
    };
    Seq::new(n as nat, |i: int| strip_cr(pieces[i]))
}

/// Split an index or manifest file into its lines.
pub fn parse_index(text: &[u8]) -> (r: Vec<Vec<u8>>)
    ensures
        r.deep_view() == index_lines_of(text@),
{
    let sep: [u8; 1] = [10u8];
    assert(sep@ =~= lf());
    let pieces = crate::bytes::split_bytes(text, sep.as_slice());
    let ghost pv = pieces.deep_view();
    let mut n = pieces.len();
    assert(n >= 1) by {
        assert(pv.len() >= 1);
    }
    if pieces[n - 1].len() == 0 {
        proof {
            assert(pv.last().len() == 0);
        }
        n = n - 1;
    }
    let mut out: Vec<Vec<u8>> = Vec::new();
    let mut k: usize = 0;
    while k < n
        invariant
            k <= n <= pv.len(),
            pieces.deep_view() == pv,
            pieces@.len() == pv.len(),
            n as int == (if pv.len() > 0 && pv.last().len() == 0 {
                pv.len() - 1
            } else {
                pv.len() as int
            }),
            out@.len() == k,
            forall|i: int| 0 <= i < k ==> out.deep_view()[i] == strip_cr(pv[i]),
        decreases n - k,
    {
        let piece = &pieces[k];
        proof {
            assert(piece@ =~= pv[k as int]);
        }
        let pl = piece.len();
        let ghost prev = out.deep_view();
        let stripped = if pl > 0 && piece[pl - 1] == 13 {
            let t = vstd::slice::slice_to_vec(&piece.as_slice()[0..pl - 1]);
            proof {
                assert(t@ =~= pv[k as int].drop_last());
                assert(t@ == strip_cr(pv[k as int]));
            }
            t
        } else {
            let t = vstd::slice::slice_to_vec(piece.as_slice());
            proof {
                assert(t@ == strip_cr(pv[k as int]));
            }
            t
        };
        out.push(stripped);
        proof {
            assert(out.deep_view() =~~= prev + seq![strip_cr(pv[k as int])]);
        }
        k += 1;
    }
    proof {
        assert(out.deep_view() =~~= index_lines_of(text@));
    }
    out
}

/// The WARC paths named by a gzip-compressed manifest, or `None` when
/// it does not decompress.
pub open spec fn manifest_paths_of(gz: Seq<u8>) -> Option<Seq<Seq<u8>>> {
    match gunzip_of(gz) {
        Some(text) => Some(index_lines_of(text)),
        None => None,
    }
}

/// Decompress a snapshot's `warc.paths.gz` manifest into its paths.
pub fn parse_manifest(gz: &[u8]) -> (r: Option<Vec<Vec<u8>>>)
    ensures
        match r {
            Some(v) => manifest_paths_of(gz@) == Some(v.deep_view()),
            None => manifest_paths_of(gz@) is None,
        },
{
    let text = match gunzip(gz) {
        Some(t) => t,
        None => {
            return None;
        },
    };
    Some(parse_index(text.as_slice()))
}

/// The line appended to the index for one WARC URL.
pub open spec fn index_line_of(url: Seq<u8>) -> Seq<u8> {
    url + lf()
}

/// Render the index line for a URL.
pub fn index_line(url: &[u8]) -> (r: Vec<u8>)
    ensures
        r@ == index_line_of(url@),
{
    let mut v = vstd::slice::slice_to_vec(url);
    v.push(10);
    proof {
        assert(v@ =~= index_line_of(url@));
    }
    v
}

/// Whether a list of byte strings contains `x`.
pub fn contains_entry(v: &Vec<Vec<u8>>, x: &[u8]) -> (r: bool)
    ensures
        r == v.deep_view().contains(x@),
{
    let ghost views = v.deep_view();
    let mut k: usize = 0;
    while k < v.len()
        invariant
            k <= views.len(),
            v.deep_view() == views,
            v@.len() == views.len(),
            forall|i: int| 0 <= i < k ==> views[i] != x@,
        decreases views.len() - k,
    {
        proof {
            assert(v@[k as int]@ =~= views[k as int]);
        }
        if crate::bytes::eq_bytes(v[k].as_slice(), x) {
            return true;
        }
        k += 1;
    }
    proof {
        assert(forall|i: int| 0 <= i < views.len() ==> views[i] != x@);
    }
    false
}

/// No two entries are equal.
pub open spec fn distinct_entries(v: Seq<Seq<u8>>) -> bool {
    forall|i: int, j: int| 0 <= i < j < v.len() ==> v[i] != v[j]
}

/// The index of one single-writer session.  Its entries are the index
/// lines written so far, in order; the type's invariant is that no
/// entry ever repeats.
pub struct IndexSession {
    written: Vec<Vec<u8>>,
}

impl IndexSession {
    /// The URLs the session's index holds, in file order.
    pub closed spec fn entries(self) -> Seq<Seq<u8>> {
        self.written.deep_view()
    }

    /// The session's invariant: no entry ever repeats.  It is
    /// established by [`IndexSession::begin`] and kept by
    /// [`IndexSession::record`].
    pub open spec fn inv(self) -> bool {
        distinct_entries(self.entries())
    }

    /// Start a session from the entries of an existing index file,
    /// keeping the first occurrence of each: everything already
    /// indexed is in the session, nothing else is, and nothing twice.
    pub fn begin(existing: &Vec<Vec<u8>>) -> (s: Self)
        ensures
            forall|i: int|
                0 <= i < s.entries().len() ==> existing.deep_view().contains(#[trigger] s.entries()[i]),
            forall|u: Seq<u8>|
                #[trigger] existing.deep_view().contains(u) ==> s.entries().contains(u),
            s.inv(),
    {
        let mut kept: Vec<Vec<u8>> = Vec::new();
        let ghost ev = existing.deep_view();
        let mut k: usize = 0;
        while k < existing.len()
            invariant
                k <= ev.len(),
                existing.deep_view() == ev,
                existing@.len() == ev.len(),
                distinct_entries(kept.deep_view()),
                forall|i: int|
                    0 <= i < kept.deep_view().len() ==> ev.contains(
                        #[trigger] kept.deep_view()[i],
                    ),
                forall|i: int| 0 <= i < k ==> kept.deep_view().contains(#[trigger] ev[i]),
            decreases ev.len() - k,
        {
            proof {
                assert(existing@[k as int]@ =~= ev[k as int]);
            }
            let ghost prev = kept.deep_view();
            if !contains_entry(&kept, existing[k].as_slice()) {
                let item = vstd::slice::slice_to_vec(existing[k].as_slice());
                kept.push(item);
                proof {
                    assert(kept.deep_view() =~~= prev + seq![ev[k as int]]);
                    assert(ev.contains(ev[k as int]));
                    assert forall|i: int, j: int|
                        0 <= i < j < kept.deep_view().len() implies kept.deep_view()[i]
                        != kept.deep_view()[j] by {
                        if j < prev.len() {
                        } else {
                            assert(kept.deep_view()[j] == ev[k as int]);
                            assert(!prev.contains(ev[k as int]));
                            assert(kept.deep_view()[i] == prev[i]);
                        }
                    }
                }
            }
            proof {
                assert forall|i: int| 0 <= i < k + 1 implies kept.deep_view().contains(
                    #[trigger] ev[i],
                ) by {
                    if i < k {
                        let j = choose|j: int|
                            0 <= j < prev.len() && prev[j] == ev[i];
                        assert(kept.deep_view()[j] == ev[i]);
                    } else {
                        if prev.contains(ev[k as int]) {
                            let j = choose|j: int|
                                0 <= j < prev.len() && prev[j] == ev[k as int];
                            assert(kept.deep_view()[j] == ev[i]);
                        } else {
                            assert(kept.deep_view().last() == ev[k as int]);
                        }
                    }
                }
            }
            k += 1;
        }
        proof {
            assert forall|u: Seq<u8>| #[trigger] ev.contains(u) implies kept.deep_view().contains(
                u,
            ) by {
                let i = choose|i: int| 0 <= i < ev.len() && ev[i] == u;
            }
        }
        IndexSession { written: kept }
    }

    /// Whether a URL is already indexed.
    pub fn already_done(&self, url: &[u8]) -> (r: bool)
        ensures
            r == self.entries().contains(url@),
    {
        contains_entry(&self.written, url)
    }

    /// Record one completed WARC.  A URL already present is refused,
    /// so the session's index never holds duplicates.
    pub fn record(&mut self, url: &[u8]) -> (r: bool)
        requires
            old(self).inv(),
        ensures
            old(self).entries().contains(url@) ==> !r && final(self).entries() == old(
                self,
            ).entries(),
            !old(self).entries().contains(url@) ==> r && final(self).entries() == old(
                self,
            ).entries() + seq![url@],
            final(self).inv(),
    {
        if contains_entry(&self.written, url) {
            return false;
        }
        let ghost prev = self.written.deep_view();
        let item = vstd::slice::slice_to_vec(url);
        self.written.push(item);
        proof {
            assert(self.written.deep_view() =~~= prev + seq![url@]);
            assert forall|i: int, j: int|
                0 <= i < j < self.written.deep_view().len() implies self.written.deep_view()[i]
                != self.written.deep_view()[j] by {
                if j < prev.len() {
                } else {
                    assert(self.written.deep_view()[j] == url@);
                    assert(!prev.contains(url@));
                    assert(self.written.deep_view()[i] == prev[i]);
                }
            }
        }
        true
    }
}

/// The manifest entries that still need processing: those not yet in
/// the index, first occurrences only, in manifest order.
pub open spec fn remaining_of(manifest: Seq<Seq<u8>>, done: Seq<Seq<u8>>) -> Seq<Seq<u8>>
    decreases manifest.len(),
{
    if manifest.len() == 0 {
        Seq::empty()
    } else {
        let r = remaining_of(manifest.drop_last(), done);
        if !done.contains(manifest.last()) && !r.contains(manifest.last()) {
            r + seq![manifest.last()]
        } else {
            r
        }
    }
}

/// Diff a manifest against the processed index.
pub fn remaining_warcs(manifest: &Vec<Vec<u8>>, done: &Vec<Vec<u8>>) -> (r: Vec<Vec<u8>>)
    ensures
        r.deep_view() == remaining_of(manifest.deep_view(), done.deep_view()),
{
    let ghost mv = manifest.deep_view();
    let ghost dv = done.deep_view();
    let mut out: Vec<Vec<u8>> = Vec::new();
    let mut k: usize = 0;
    proof {
        assert(mv.subrange(0, 0) =~= Seq::<Seq<u8>>::empty());
        assert(out.deep_view() =~~= remaining_of(mv.subrange(0, 0), dv));
    }
    while k < manifest.len()
        invariant
            k <= mv.len(),
            manifest.deep_view() == mv,
            manifest@.len() == mv.len(),
            done.deep_view() == dv,
            out.deep_view() == remaining_of(mv.subrange(0, k as int), dv),
        decreases mv.len() - k,
    {
        proof {
            assert(manifest@[k as int]@ =~= mv[k as int]);
        }
        let entry = manifest[k].as_slice();
        if !contains_entry(done, entry) && !contains_entry(&out, entry) {
            let ghost prev = out.deep_view();
            out.push(vstd::slice::slice_to_vec(entry));
            proof {
                assert(out.deep_view() =~~= prev + seq![mv[k as int]]);
            }
        }
        proof {
            let pre = mv.subrange(0, k + 1);
            assert(pre.drop_last() =~= mv.subrange(0, k as int));
            assert(pre.last() == mv[k as int]);
            assert(out.deep_view() =~~= remaining_of(pre, dv));
        }
        k += 1;
    }
    proof {
        assert(mv.subrange(0, mv.len() as int) =~= mv);
    }
    out
}

} // verus!
