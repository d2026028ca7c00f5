//! Charset handling for one response payload: split off the HTTP
//! headers, pick an encoding from the `Content-type` charset label or
//! by statistical detection on a leading sample, and decode the body.

use vstd::prelude::*;
use vstd::utf8::valid_utf8;
use crate::http::{
    charset_label, charset_label_of, find_header, header_lookup, http_split_of, split_response,
};

verus! {

/// `content-type` (matched ignoring ASCII case).
pub open spec fn content_type_name() -> Seq<u8> {
    seq![99u8, 111u8, 110u8, 116u8, 101u8, 110u8, 116u8, 45u8, 116u8, 121u8, 112u8, 101u8]
}

/// How many body bytes the encoding detector gets to look at.
pub const DETECTOR_SAMPLE_BYTES: usize = 1024;

/// The spec-level charset label argument.
pub open spec fn label_view(l: Option<&[u8]>) -> Option<Seq<u8>> {
    match l {
        Some(x) => Some(x@),
        None => None,
    }
}

/// What decoding a body yields, as a function of the charset label
/// (if any), the detector sample, and the body bytes alone.
pub uninterp spec fn decoded_of(
    label: Option<Seq<u8>>,
    sample: Seq<u8>,
    sample_is_last: bool,
    body: Seq<u8>,
) -> Option<Seq<u8>>;

/// Relies on encoding_rs::Encoding::{for_label, decode} and
/// chardetng::EncodingDetector::{new, feed, guess}: resolves the label
/// through the WHATWG table, falls back to detection on the sample
/// when the label is absent or unknown, and decodes the body with the
/// chosen encoding.  `None` exactly when the decoder reported errors;
/// a returned decoding is the UTF-8 of a Rust string.  All of these
/// are functions of their arguments alone.
#[verifier::external_body]
fn decode_with_charset(
    label: Option<&[u8]>,
    sample: &[u8],
    sample_is_last: bool,
    body: &[u8],
) -> (r: Option<Vec<u8>>)
    ensures
        match r {
            Some(v) => decoded_of(label_view(label), sample@, sample_is_last, body@) == Some(v@)
                && valid_utf8(v@),
            None => decoded_of(label_view(label), sample@, sample_is_last, body@) is None,
        },
{
    let enc = label.and_then(encoding_rs::Encoding::for_label).unwrap_or_else(|| {
        let mut det = chardetng::EncodingDetector::new(chardetng::Iso2022JpDetection::Allow);
        det.feed(sample, sample_is_last);
        det.guess(None, chardetng::Utf8Detection::Allow)
    });
    let (cow, _, had_errors) = enc.decode(body);
    if had_errors {
        None
    } else {
        Some(cow.into_owned().into_bytes())
    }
}

/// The body bytes and charset label of a payload: after the header
/// block when one parses, the whole payload (and no label) otherwise.
pub open spec fn body_and_label_of(p: Seq<u8>) -> (Seq<u8>, Option<Seq<u8>>) {
    match http_split_of(p) {
        Some((off, hs)) => (
            p.subrange(off, p.len() as int),
            match header_lookup(hs, content_type_name()) {
                Some(ct) => charset_label_of(ct),
                None => None,
            },
        ),
        None => (p, None),
    }
}

/// The detector sample: the first [`DETECTOR_SAMPLE_BYTES`] of the body.
pub open spec fn sample_of(body: Seq<u8>) -> Seq<u8> {
    if body.len() > DETECTOR_SAMPLE_BYTES {
        body.subrange(0, DETECTOR_SAMPLE_BYTES as int)
    } else {
        body
    }
}

/// The decoded text of a payload's body, if it decodes cleanly.
pub open spec fn decode_body_of(p: Seq<u8>) -> Option<Seq<u8>> {
    let (body, label) = body_and_label_of(p);
    decoded_of(label, sample_of(body), body.len() <= DETECTOR_SAMPLE_BYTES, body)
}

/// Split a payload, choose an encoding and decode its body.
pub fn decode_body(p: &[u8]) -> (r: Option<Vec<u8>>)
    ensures
        match r {
            Some(v) => decode_body_of(p@) == Some(v@) && valid_utf8(v@),
            None => decode_body_of(p@) is None,
        },
{
    let ct_name: [u8; 12] = [99u8, 111u8, 110u8, 116u8, 101u8, 110u8, 116u8, 45u8, 116u8, 121u8,
        112u8, 101u8];
    assert(ct_name@ =~= content_type_name());
    let pl = p.len();
    let (body, label): (&[u8], Option<Vec<u8>>) = match split_response(p) {
        Some((off, hs)) => {
            proof {
                crate::bytes::lemma_find_from_is_match(p@, crate::http::crlf2(), 0);
            }
            let lab = match find_header(&hs, ct_name.as_slice()) {
                Some(ct) => charset_label(ct.as_slice()),
                None => None,
            };
            (&p[off..pl], lab)
        },
        None => (p, None),
    };
    let blen = body.len();
    let (sample, last): (&[u8], bool) = if blen > DETECTOR_SAMPLE_BYTES {
        (&body[0..DETECTOR_SAMPLE_BYTES], false)
    } else {
        (body, true)
    };
    let lab_slice: Option<&[u8]> = match &label {
        Some(v) => Some(v.as_slice()),
        None => None,
    };
    proof {
        let (sbody, slabel) = body_and_label_of(p@);
        assert(body@ == sbody);
        assert(label_view(lab_slice) == slabel);
        assert(sample@ == sample_of(sbody));
        assert(last == (sbody.len() <= DETECTOR_SAMPLE_BYTES));
    }
    decode_with_charset(lab_slice, sample, last, body)
}

} // verus!
