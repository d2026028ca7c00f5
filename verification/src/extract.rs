//! Form qualification and extraction from one response payload.
//!
//! The decoded HTML is parsed, its `<form>` elements are counted, and
//! every qualifying form — one with a descendant `<input>` carrying a
//! `pattern`, `data-val-regex-pattern` or `ng-pattern` attribute — is
//! retained as the exact source text of its subtree.  A qualifying
//! form whose source text is unusable (out of range, not UTF-8,
//! missing its `</form>`, or not opening with `<form`) marks the whole
//! record as broken.

use vstd::prelude::*;
use vstd::slice::slice_to_vec;
use vstd::utf8::valid_utf8;
use crate::bytes::{contains_bytes, contains_seq, eq_bytes, lower_seq, starts_with, to_lower};
use crate::decode::{decode_body, decode_body_of};
use crate::dom::{attr_present, dom_flatten, dom_of, find_attr, FlatElem, FlatElemV};
use crate::text::{string_from_utf8, strings_bytes};

verus! {

/// Why a record's HTML yields no extraction.
#[derive(Debug, PartialEq, Eq, Structural, Clone, Copy)]
pub enum AnalysisError {
    /// The body could not be decoded, or an extracted form was broken.
    UndecodableHtml,
}

/// `pattern`.
pub open spec fn pattern_attr() -> Seq<u8> {
    seq![112u8, 97u8, 116u8, 116u8, 101u8, 114u8, 110u8]
}

/// `data-val-regex-pattern`.
pub open spec fn data_val_attr() -> Seq<u8> {
    seq![100u8, 97u8, 116u8, 97u8, 45u8, 118u8, 97u8, 108u8, 45u8, 114u8, 101u8, 103u8, 101u8,
        120u8, 45u8, 112u8, 97u8, 116u8, 116u8, 101u8, 114u8, 110u8]
}

/// `ng-pattern`.
pub open spec fn ng_attr() -> Seq<u8> {
    seq![110u8, 103u8, 45u8, 112u8, 97u8, 116u8, 116u8, 101u8, 114u8, 110u8]
}

/// `form`.
pub open spec fn form_name() -> Seq<u8> {
    seq![102u8, 111u8, 114u8, 109u8]
}

/// `input`.
pub open spec fn input_name() -> Seq<u8> {
    seq![105u8, 110u8, 112u8, 117u8, 116u8]
}

/// `</form>`.
pub open spec fn form_close() -> Seq<u8> {
    seq![60u8, 47u8, 102u8, 111u8, 114u8, 109u8, 62u8]
}

/// `<form`, the required opening, compared after lower-casing.
pub open spec fn form_open_lower() -> Seq<u8> {
    seq![60u8, 102u8, 111u8, 114u8, 109u8]
}

/// An `<input>` carrying at least one of the three trigger attributes.
pub open spec fn is_pattern_input(e: FlatElemV) -> bool {
    &&& e.name == input_name()
    &&& (attr_present(e.attrs, pattern_attr()) || attr_present(e.attrs, data_val_attr())
        || attr_present(e.attrs, ng_attr()))
}

/// `e` lies in the subtree of `anc`.
pub open spec fn is_descendant(anc: FlatElemV, e: FlatElemV) -> bool {
    anc.sub_start <= e.node <= anc.sub_end
}

/// The form has a qualifying input among its descendants.
pub open spec fn qualifies(elems: Seq<FlatElemV>, f: FlatElemV) -> bool {
    exists|j: int|
        0 <= j < elems.len() && is_descendant(f, #[trigger] elems[j]) && is_pattern_input(elems[j])
}

/// The source text of an element: the bytes from its opening `<`
/// through the final byte of its subtree.
pub open spec fn elem_slice(html: Seq<u8>, f: FlatElemV) -> Seq<u8> {
    html.subrange(f.start, f.end + 1)
}

/// The element's byte range lies inside the document.
pub open spec fn slice_in_bounds(html: Seq<u8>, f: FlatElemV) -> bool {
    0 <= f.start <= f.end < html.len()
}

/// A qualifying form's source text is usable: in range, UTF-8, holds
/// its closing tag, and opens with `<form` (ignoring ASCII case).
pub open spec fn good_slice(html: Seq<u8>, f: FlatElemV) -> bool {
    &&& slice_in_bounds(html, f)
    &&& valid_utf8(elem_slice(html, f))
    &&& contains_seq(elem_slice(html, f), form_close())
    &&& starts_with(lower_seq(elem_slice(html, f)), form_open_lower())
}

/// Walk the elements from `k` on: count the forms and collect the
/// qualifying ones' source text in document order.  A qualifying form
/// with an unusable slice spoils the record (`None`).
pub open spec fn extract_from(html: Seq<u8>, elems: Seq<FlatElemV>, k: int) -> Option<
    (int, Seq<Seq<u8>>),
>
    decreases elems.len() - k,
{
    if k < 0 || k >= elems.len() {
        Some((0, Seq::empty()))
    } else {
        match extract_from(html, elems, k + 1) {
            None => None,
            Some((n, forms)) => if elems[k].name == form_name() {
                if qualifies(elems, elems[k]) {
                    if good_slice(html, elems[k]) {
                        Some((n + 1, seq![elem_slice(html, elems[k])] + forms))
                    } else {
                        None
                    }
                } else {
                    Some((n + 1, forms))
                }
            } else {
                Some((n, forms))
            },
        }
    }
}

/// The extraction keeps no more forms than it counts, and counts no
/// more forms than there are elements.
pub proof fn lemma_extract_from_bounds(html: Seq<u8>, elems: Seq<FlatElemV>, k: int)
    ensures
        extract_from(html, elems, k) matches Some((n, forms)) ==> 0 <= forms.len() <= n && (0
            <= k <= elems.len() ==> n + k <= elems.len()),
    decreases elems.len() - k,
{
    if !(k < 0 || k >= elems.len()) {
        lemma_extract_from_bounds(html, elems, k + 1);
    }
}

/// Every retained form's source text holds its `</form>` and opens
/// with `<form` (ignoring ASCII case): what the walk keeps, it only
/// keeps after those checks.
pub proof fn lemma_extracted_forms_wellformed(html: Seq<u8>, elems: Seq<FlatElemV>, k: int)
    ensures
        extract_from(html, elems, k) matches Some((n, forms)) ==> forall|i: int|
            0 <= i < forms.len() ==> contains_seq(#[trigger] forms[i], form_close())
                && starts_with(lower_seq(forms[i]), form_open_lower()),
    decreases elems.len() - k,
{
    if !(k < 0 || k >= elems.len()) {
        lemma_extracted_forms_wellformed(html, elems, k + 1);
        if let Some((n, forms)) = extract_from(html, elems, k) {
            if let Some((n2, rest)) = extract_from(html, elems, k + 1) {
                if elems[k].name == form_name() && qualifies(elems, elems[k]) {
                    assert(good_slice(html, elems[k]));
                    assert(forms == seq![elem_slice(html, elems[k])] + rest);
                    assert forall|i: int| 0 <= i < forms.len() implies contains_seq(
                        #[trigger] forms[i],
                        form_close(),
                    ) && starts_with(lower_seq(forms[i]), form_open_lower()) by {
                        if i == 0 {
                            assert(forms[0] == elem_slice(html, elems[k]));
                        } else {
                            assert(forms[i] == rest[i - 1]);
                        }
                    }
                }
            }
        }
    }
}

/// What extracting from a whole payload yields: decode, parse, walk.
pub open spec fn extract_of(content: Seq<u8>) -> Option<(int, Seq<Seq<u8>>)> {
    match decode_body_of(content) {
        None => None,
        Some(text) => match dom_of(text) {
            None => None,
            Some(elems) => if elems.len() > i64::MAX {
                None
            } else {
                extract_from(text, elems, 0)
            },
        },
    }
}

/// Whether the element is an `<input>` with a trigger attribute.
fn is_pattern_input_exec(e: &FlatElem) -> (r: bool)
    ensures
        r == is_pattern_input(e@),
{
    let input: [u8; 5] = [105u8, 110u8, 112u8, 117u8, 116u8];
    assert(input@ =~= input_name());
    if !eq_bytes(e.name.as_slice(), input.as_slice()) {
        return false;
    }
    let pattern: [u8; 7] = [112u8, 97u8, 116u8, 116u8, 101u8, 114u8, 110u8];
    assert(pattern@ =~= pattern_attr());
    if find_attr(e, pattern.as_slice()).is_some() {
        return true;
    }
    let data_val: [u8; 22] = [100u8, 97u8, 116u8, 97u8, 45u8, 118u8, 97u8, 108u8, 45u8, 114u8,
        101u8, 103u8, 101u8, 120u8, 45u8, 112u8, 97u8, 116u8, 116u8, 101u8, 114u8, 110u8];
    assert(data_val@ =~= data_val_attr());
    if find_attr(e, data_val.as_slice()).is_some() {
        return true;
    }
    let ng: [u8; 10] = [110u8, 103u8, 45u8, 112u8, 97u8, 116u8, 116u8, 101u8, 114u8, 110u8];
    assert(ng@ =~= ng_attr());
    find_attr(e, ng.as_slice()).is_some()
}

/// Whether the form has a qualifying input among its descendants.
fn qualifies_exec(elems: &Vec<FlatElem>, f: &FlatElem) -> (r: bool)
    ensures
        r == qualifies(elems.deep_view(), f@),
{
    let ghost ev = elems.deep_view();
    let mut j: usize = 0;
    while j < elems.len()
        invariant
            j <= ev.len(),
            elems.deep_view() == ev,
            forall|i: int|
                0 <= i < j ==> !(is_descendant(f@, #[trigger] ev[i]) && is_pattern_input(ev[i])),
        decreases ev.len() - j,
    {
        let e = &elems[j];
        proof {
            assert(e@ == ev[j as int]);
        }
        if f.sub_start <= e.node && e.node <= f.sub_end {
            if is_pattern_input_exec(e) {
                return true;
            }
        }
        j += 1;
    }
    false
}

/// Decode a response payload and extract its forms: the total number
/// of forms seen and the source text of each qualifying form, in
/// document order.
pub fn extract_forms(content: &[u8]) -> (r: Result<(i64, Vec<String>), AnalysisError>)
    ensures
        match r {
            Ok((n, forms)) => extract_of(content@) == Some((n as int, strings_bytes(forms@)))
                && forms@.len() <= n,
            Err(_) => extract_of(content@) is None,
        },
{
    let text = match decode_body(content) {
        Some(t) => t,
        None => {
            return Err(AnalysisError::UndecodableHtml);
        },
    };
    let elems = match dom_flatten(text.as_slice()) {
        Some(e) => e,
        None => {
            return Err(AnalysisError::UndecodableHtml);
        },
    };
    if elems.len() as u64 > i64::MAX as u64 {
        return Err(AnalysisError::UndecodableHtml);
    }
    let ghost ev = elems.deep_view();
    let ghost tv = text@;
    let form: [u8; 4] = [102u8, 111u8, 114u8, 109u8];
    assert(form@ =~= form_name());
    let close: [u8; 7] = [60u8, 47u8, 102u8, 111u8, 114u8, 109u8, 62u8];
    assert(close@ =~= form_close());
    let open5: [u8; 5] = [60u8, 102u8, 111u8, 114u8, 109u8];
    assert(open5@ =~= form_open_lower());
    let mut nr: i64 = 0;
    let mut forms: Vec<String> = Vec::new();
    let mut k: usize = 0;
    let tl = text.len();
    while k < elems.len()
        invariant
            k <= ev.len(),
            elems.deep_view() == ev,
            text@ == tv,
            tv.len() == tl,
            ev.len() <= i64::MAX,
            decode_body_of(content@) == Some(tv),
            dom_of(tv) == Some(ev),
            form@ == form_name(),
            close@ == form_close(),
            open5@ == form_open_lower(),
            0 <= nr <= k,
            forms@.len() <= nr,
            extract_from(tv, ev, k as int) matches Some((n2, f2)) ==> extract_from(tv, ev, 0)
                == Some((nr + n2, strings_bytes(forms@) + f2)),
            extract_from(tv, ev, k as int) is None ==> extract_from(tv, ev, 0) is None,
        decreases ev.len() - k,
    {
        let e = &elems[k];
        proof {
            assert(e@ == ev[k as int]);
        }
        if eq_bytes(e.name.as_slice(), form.as_slice()) {
            if qualifies_exec(&elems, e) {
                // the qualifying form's source text must be usable
                if !(e.start <= e.end && e.end < tl) {
                    proof {
                        assert(!good_slice(tv, ev[k as int]));
                        assert(extract_from(tv, ev, k as int) is None);
                    }
                    return Err(AnalysisError::UndecodableHtml);
                }
                let slice = &text[e.start..e.end + 1];
                proof {
                    assert(slice@ == elem_slice(tv, ev[k as int]));
                }
                if !contains_bytes(slice, close.as_slice()) {
                    proof {
                        assert(!good_slice(tv, ev[k as int]));
                        assert(extract_from(tv, ev, k as int) is None);
                    }
                    return Err(AnalysisError::UndecodableHtml);
                }
                if slice.len() < 5 {
                    proof {
                        assert(lower_seq(slice@).len() < 5);
                        assert(!starts_with(lower_seq(slice@), form_open_lower()));
                        assert(!good_slice(tv, ev[k as int]));
                        assert(extract_from(tv, ev, k as int) is None);
                    }
                    return Err(AnalysisError::UndecodableHtml);
                }
                let head = to_lower(&slice[0..5]);
                proof {
                    assert(head@ =~= lower_seq(slice@).subrange(0, 5));
                }
                if !eq_bytes(head.as_slice(), open5.as_slice()) {
                    proof {
                        assert(lower_seq(slice@).subrange(0, 5) != form_open_lower());
                        assert(!starts_with(lower_seq(slice@), form_open_lower()));
                        assert(!good_slice(tv, ev[k as int]));
                        assert(extract_from(tv, ev, k as int) is None);
                    }
                    return Err(AnalysisError::UndecodableHtml);
                }
                let sv = slice_to_vec(slice);
                let fs = match string_from_utf8(sv) {
                    Some(s) => s,
                    None => {
                        proof {
                            assert(!good_slice(tv, ev[k as int]));
                            assert(extract_from(tv, ev, k as int) is None);
                        }
                        return Err(AnalysisError::UndecodableHtml);
                    },
                };
                proof {
                    assert(lower_seq(slice@).subrange(0, 5) =~= form_open_lower());
                    assert(starts_with(lower_seq(slice@), form_open_lower()));
                    assert(good_slice(tv, ev[k as int]));
                }
                let ghost prev = forms@;
                forms.push(fs);
                proof {
                    assert(strings_bytes(forms@) =~~= strings_bytes(prev) + seq![
                        elem_slice(tv, ev[k as int]),
                    ]);
                    if let Some((n2, f2)) = extract_from(tv, ev, k + 1) {
                        assert(extract_from(tv, ev, k as int) == Some(
                            (n2 + 1, seq![elem_slice(tv, ev[k as int])] + f2),
                        ));
                        assert(strings_bytes(prev) + (seq![elem_slice(tv, ev[k as int])] + f2)
                            =~~= strings_bytes(forms@) + f2);
                    }
                }
                nr = nr + 1;
            } else {
                proof {
                    if let Some((n2, f2)) = extract_from(tv, ev, k + 1) {
                        assert(extract_from(tv, ev, k as int) == Some((n2 + 1, f2)));
                    }
                }
                nr = nr + 1;
            }
        } else {
            proof {
                if let Some((n2, f2)) = extract_from(tv, ev, k + 1) {
                    assert(extract_from(tv, ev, k as int) == Some((n2, f2)));
                }
            }
        }
        k += 1;
    }
    proof {
        assert(extract_from(tv, ev, k as int) == Some((0int, Seq::<Seq<u8>>::empty())));
        assert(strings_bytes(forms@) + Seq::<Seq<u8>>::empty() =~~= strings_bytes(forms@));
    }
    Ok((nr, forms))
}

} // verus!
