//! Offline queries over stored forms: re-parse a form's source text
//! and read pattern attributes or matching subtrees back out of it.

use vstd::prelude::*;
use vstd::utf8::{encode_utf8, valid_utf8};
use crate::bytes::{contains_bytes, contains_seq, eq_bytes};
use crate::dom::{attr_lookup, dom_flatten, dom_of, find_attr, FlatElem, FlatElemV};
use crate::extract::{
    data_val_attr, elem_slice, input_name, is_descendant, ng_attr, pattern_attr, slice_in_bounds,
};
use crate::summary::{ArchiveSummary, URLSummaryV};
use crate::text::{string_from_utf8, strings_bytes};

verus! {

/// The value of one attribute, as a one- or zero-element sequence.
pub open spec fn opt_attr(e: FlatElemV, name: Seq<u8>) -> Seq<Seq<u8>> {
    match attr_lookup(e.attrs, name) {
        Some(Some(v)) => seq![v],
        _ => Seq::empty(),
    }
}

/// The pattern values one element contributes: for an `<input>`, its
/// `pattern`, `data-val-regex-pattern` and `ng-pattern` values in that
/// order; nothing otherwise.
pub open spec fn elem_patterns(e: FlatElemV) -> Seq<Seq<u8>> {
    if e.name == input_name() {
        opt_attr(e, pattern_attr()) + opt_attr(e, data_val_attr()) + opt_attr(e, ng_attr())
    } else {
        Seq::empty()
    }
}

/// All pattern values of the first `k` elements, in document order.
pub open spec fn patterns_upto(elems: Seq<FlatElemV>, k: int) -> Seq<Seq<u8>>
    decreases k,
{
    if k <= 0 {
        Seq::empty()
    } else {
        patterns_upto(elems, k - 1) + elem_patterns(elems[k - 1])
    }
}

/// Append one element's pattern values.
fn push_elem_patterns(out: &mut Vec<String>, e: &FlatElem)
    ensures
        strings_bytes(final(out)@) == strings_bytes(old(out)@) + elem_patterns(e@),
{
    let input: [u8; 5] = [105u8, 110u8, 112u8, 117u8, 116u8];
    assert(input@ =~= input_name());
    if !eq_bytes(e.name.as_slice(), input.as_slice()) {
        proof {
            assert(strings_bytes(out@) + elem_patterns(e@) =~~= strings_bytes(out@));
        }
        return ;
    }
    let pattern: [u8; 7] = [112u8, 97u8, 116u8, 116u8, 101u8, 114u8, 110u8];
    assert(pattern@ =~= pattern_attr());
    let data_val: [u8; 22] = [100u8, 97u8, 116u8, 97u8, 45u8, 118u8, 97u8, 108u8, 45u8, 114u8,
        101u8, 103u8, 101u8, 120u8, 45u8, 112u8, 97u8, 116u8, 116u8, 101u8, 114u8, 110u8];
    assert(data_val@ =~= data_val_attr());
    let ng: [u8; 10] = [110u8, 103u8, 45u8, 112u8, 97u8, 116u8, 116u8, 101u8, 114u8, 110u8];
    assert(ng@ =~= ng_attr());
    let ghost s0 = strings_bytes(out@);
    if let Some(Some(v)) = find_attr(e, pattern.as_slice()) {
        let ghost prev = out@;
        out.push(v);
        proof {
            assert(strings_bytes(out@) =~~= strings_bytes(prev) + opt_attr(e@, pattern_attr()));
        }
    } else {
        proof {
            assert(strings_bytes(out@) =~~= s0 + opt_attr(e@, pattern_attr()));
        }
    }
    let ghost s1 = strings_bytes(out@);
    if let Some(Some(v)) = find_attr(e, data_val.as_slice()) {
        let ghost prev = out@;
        out.push(v);
        proof {
            assert(strings_bytes(out@) =~~= strings_bytes(prev) + opt_attr(e@, data_val_attr()));
        }
    } else {
        proof {
            assert(strings_bytes(out@) =~~= s1 + opt_attr(e@, data_val_attr()));
        }
    }
    let ghost s2 = strings_bytes(out@);
    if let Some(Some(v)) = find_attr(e, ng.as_slice()) {
        let ghost prev = out@;
        out.push(v);
        proof {
            assert(strings_bytes(out@) =~~= strings_bytes(prev) + opt_attr(e@, ng_attr()));
        }
    } else {
        proof {
            assert(strings_bytes(out@) =~~= s2 + opt_attr(e@, ng_attr()));
        }
    }
    proof {
        assert(strings_bytes(out@) =~~= s0 + (opt_attr(e@, pattern_attr()) + opt_attr(
            e@,
            data_val_attr(),
        ) + opt_attr(e@, ng_attr())));
        assert(strings_bytes(out@) =~~= s0 + elem_patterns(e@));
    }
}

/// The pattern attribute values of every `<input>` in a form's source
/// text, in document order: `pattern`, then `data-val-regex-pattern`,
/// then `ng-pattern` per input, values only.
pub fn patterns_in(form: &str) -> (r: Vec<String>)
    ensures
        match dom_of(encode_utf8(form@)) {
            Some(elems) => strings_bytes(r@) == patterns_upto(elems, elems.len() as int),
            None => r@.len() == 0,
        },
{
    let elems = match dom_flatten(form.as_bytes()) {
        Some(e) => e,
        None => {
            return Vec::new();
        },
    };
    let ghost ev = elems.deep_view();
    let mut out: Vec<String> = Vec::new();
    let mut k: usize = 0;
    proof {
        assert(strings_bytes(out@) =~~= patterns_upto(ev, 0));
    }
    while k < elems.len()
        invariant
            k <= ev.len(),
            elems.deep_view() == ev,
            strings_bytes(out@) == patterns_upto(ev, k as int),
        decreases ev.len() - k,
    {
        proof {
            assert(elems@[k as int]@ == ev[k as int]);
        }
        push_elem_patterns(&mut out, &elems[k]);
        k += 1;
    }
    out
}

/// Some attribute of the element has a value containing `needle`.
pub open spec fn attr_value_contains(e: FlatElemV, needle: Seq<u8>) -> bool {
    exists|k: Seq<u8>|
        #[trigger] e.attrs.dom().contains(k) && (e.attrs[k] matches Some(v) && contains_seq(
            v,
            needle,
        ))
}

/// The element's subtree (itself included) has an attribute value
/// containing `needle`.
pub open spec fn subtree_has_needle(
    elems: Seq<FlatElemV>,
    e: FlatElemV,
    needle: Seq<u8>,
) -> bool {
    attr_value_contains(e, needle) || exists|j: int|
        0 <= j < elems.len() && is_descendant(e, #[trigger] elems[j]) && attr_value_contains(
            elems[j],
            needle,
        )
}

/// The source text of every element (among the first `k`) whose
/// subtree carries `needle` in an attribute value, document order.
pub open spec fn matching_slices(
    html: Seq<u8>,
    elems: Seq<FlatElemV>,
    k: int,
    needle: Seq<u8>,
) -> Seq<Seq<u8>>
    decreases k,
{
    if k <= 0 {
        Seq::empty()
    } else {
        matching_slices(html, elems, k - 1, needle) + (if subtree_has_needle(
            elems,
            elems[k - 1],
            needle,
        ) && slice_in_bounds(html, elems[k - 1]) && valid_utf8(elem_slice(html, elems[k - 1])) {
            seq![elem_slice(html, elems[k - 1])]
        } else {
            Seq::empty()
        })
    }
}

/// Whether one attribute name appears again earlier in the list; a
/// later entry with a repeated name is shadowed.
fn attr_shadowed(attrs: &Vec<(String, Option<String>)>, i: usize) -> (r: bool)
    requires
        i < attrs@.len(),
    ensures
        r == exists|j: int|
            0 <= j < i && crate::dom::attr_key(#[trigger] attrs@[j]) == crate::dom::attr_key(
                attrs@[i as int],
            ),
{
    let key = &attrs[i].0;
    let mut j: usize = 0;
    while j < i
        invariant
            j <= i < attrs@.len(),
            key@ == attrs@[i as int].0@,
            forall|t: int|
                0 <= t < j ==> crate::dom::attr_key(#[trigger] attrs@[t]) != crate::dom::attr_key(
                    attrs@[i as int],
                ),
        decreases i - j,
    {
        let same = eq_bytes(attrs[j].0.as_str().as_bytes(), key.as_str().as_bytes());
        proof {
            assert(crate::dom::attr_key(attrs@[j as int]) == encode_utf8(attrs@[j as int].0@));
            assert(crate::dom::attr_key(attrs@[i as int]) == encode_utf8(attrs@[i as int].0@));
        }
        if same {
            return true;
        }
        j += 1;
    }
    false
}

/// Whether some attribute value of `e` contains `needle`.  Only the
/// first entry of each name counts, as the attribute map does.
fn attr_contains_exec(e: &FlatElem, needle: &[u8]) -> (r: bool)
    ensures
        r == attr_value_contains(e@, needle@),
{
    let ghost s = e.attrs@;
    let mut i: usize = 0;
    while i < e.attrs.len()
        invariant
            i <= s.len(),
            e.attrs@ == s,
            forall|j: int|
                0 <= j < i && (forall|t: int|
                    0 <= t < j ==> crate::dom::attr_key(#[trigger] s[t]) != crate::dom::attr_key(
                        s[j],
                    )) ==> !(crate::dom::attr_val(#[trigger] s[j]) matches Some(v)
                    && contains_seq(v, needle@)),
        decreases s.len() - i,
    {
        if !attr_shadowed(&e.attrs, i) {
            if let Some(v) = &e.attrs[i].1 {
                if contains_bytes(v.as_str().as_bytes(), needle) {
                    proof {
                        crate::dom::lemma_attrs_map_first(s, i as int);
                        let k = crate::dom::attr_key(s[i as int]);
                        assert(e@.attrs.dom().contains(k) && (e@.attrs[k] matches Some(vv)
                            && contains_seq(vv, needle@)));
                    }
                    return true;
                }
            }
        }
        i += 1;
    }
    proof {
        assert forall|k: Seq<u8>| #[trigger] e@.attrs.dom().contains(k) implies !(e@.attrs[k]
            matches Some(v) && contains_seq(v, needle@)) by {
            crate::dom::lemma_attrs_map_source(s, k);
        }
    }
    false
}

/// Whether the subtree of `f` (itself included) has a matching value.
fn subtree_contains_exec(elems: &Vec<FlatElem>, f: &FlatElem, needle: &[u8]) -> (r: bool)
    ensures
        r == subtree_has_needle(elems.deep_view(), f@, needle@),
{
    if attr_contains_exec(f, needle) {
        return true;
    }
    let ghost ev = elems.deep_view();
    let mut j: usize = 0;
    while j < elems.len()
        invariant
            j <= ev.len(),
            elems.deep_view() == ev,
            !attr_value_contains(f@, needle@),
            forall|i: int|
                0 <= i < j ==> !(is_descendant(f@, #[trigger] ev[i]) && attr_value_contains(
                    ev[i],
                    needle@,
                )),
        decreases ev.len() - j,
    {
        let e = &elems[j];
        proof {
            assert(e@ == ev[j as int]);
        }
        if f.sub_start <= e.node && e.node <= f.sub_end {
            if attr_contains_exec(e, needle) {
                return true;
            }
        }
        j += 1;
    }
    false
}

/// The source text of every subtree of the form in which some tag's
/// attribute value contains `needle`.
pub fn elements_with(form: &str, needle: &str) -> (r: Vec<String>)
    ensures
        match dom_of(encode_utf8(form@)) {
            Some(elems) => strings_bytes(r@) == matching_slices(
                encode_utf8(form@),
                elems,
                elems.len() as int,
                encode_utf8(needle@),
            ),
            None => r@.len() == 0,
        },
{
    let html = form.as_bytes();
    let elems = match dom_flatten(html) {
        Some(e) => e,
        None => {
            return Vec::new();
        },
    };
    let ghost ev = elems.deep_view();
    let ghost hv = encode_utf8(form@);
    let ghost nv = encode_utf8(needle@);
    let needle_b = needle.as_bytes();
    let mut out: Vec<String> = Vec::new();
    let mut k: usize = 0;
    let hl = html.len();
    proof {
        assert(strings_bytes(out@) =~~= matching_slices(hv, ev, 0, nv));
    }
    while k < elems.len()
        invariant
            k <= ev.len(),
            elems.deep_view() == ev,
            html@ == hv,
            hv.len() == hl,
            needle_b@ == nv,
            strings_bytes(out@) == matching_slices(hv, ev, k as int, nv),
        decreases ev.len() - k,
    {
        let e = &elems[k];
        proof {
            assert(e@ == ev[k as int]);
        }
        let ghost prev = strings_bytes(out@);
        if subtree_contains_exec(&elems, e, needle_b) && e.start <= e.end && e.end < hl {
            let slice = &html[e.start..e.end + 1];
            proof {
                assert(slice@ == elem_slice(hv, ev[k as int]));
            }
            match string_from_utf8(vstd::slice::slice_to_vec(slice)) {
                Some(s) => {
                    out.push(s);
                    proof {
                        assert(strings_bytes(out@) =~~= prev + seq![elem_slice(hv, ev[k as int])]);
                    }
                },
                None => {
                    proof {
                        assert(!valid_utf8(elem_slice(hv, ev[k as int])));
                    }
                },
            }
        }
        proof {
            assert(strings_bytes(out@) =~~= matching_slices(hv, ev, k + 1, nv));
        }
        k += 1;
    }
    out
}

/// The source text of every element (among the first `k`) whose raw
/// tag name equals `name`, document order.
pub open spec fn named_slices(
    html: Seq<u8>,
    elems: Seq<FlatElemV>,
    k: int,
    name: Seq<u8>,
) -> Seq<Seq<u8>>
    decreases k,
{
    if k <= 0 {
        Seq::empty()
    } else {
        named_slices(html, elems, k - 1, name) + (if elems[k - 1].name == name && slice_in_bounds(
            html,
            elems[k - 1],
        ) && valid_utf8(elem_slice(html, elems[k - 1])) {
            seq![elem_slice(html, elems[k - 1])]
        } else {
            Seq::empty()
        })
    }
}

/// The source text of every element of the form with the given tag
/// name (a plain element query).
pub fn elements_named(form: &str, name: &[u8]) -> (r: Vec<String>)
    ensures
        match dom_of(encode_utf8(form@)) {
            Some(elems) => strings_bytes(r@) == named_slices(
                encode_utf8(form@),
                elems,
                elems.len() as int,
                name@,
            ),
            None => r@.len() == 0,
        },
{
    let html = form.as_bytes();
    let elems = match dom_flatten(html) {
        Some(e) => e,
        None => {
            return Vec::new();
        },
    };
    let ghost ev = elems.deep_view();
    let ghost hv = encode_utf8(form@);
    let mut out: Vec<String> = Vec::new();
    let mut k: usize = 0;
    let hl = html.len();
    proof {
        assert(strings_bytes(out@) =~~= named_slices(hv, ev, 0, name@));
    }
    while k < elems.len()
        invariant
            k <= ev.len(),
            elems.deep_view() == ev,
            html@ == hv,
            hv.len() == hl,
            strings_bytes(out@) == named_slices(hv, ev, k as int, name@),
        decreases ev.len() - k,
    {
        let e = &elems[k];
        proof {
            assert(e@ == ev[k as int]);
        }
        let ghost prev = strings_bytes(out@);
        if eq_bytes(e.name.as_slice(), name) && e.start <= e.end && e.end < hl {
            let slice = &html[e.start..e.end + 1];
            proof {
                assert(slice@ == elem_slice(hv, ev[k as int]));
            }
            match string_from_utf8(vstd::slice::slice_to_vec(slice)) {
                Some(s) => {
                    out.push(s);
                    proof {
                        assert(strings_bytes(out@) =~~= prev + seq![elem_slice(hv, ev[k as int])]);
                    }
                },
                None => {
                    proof {
                        assert(!valid_utf8(elem_slice(hv, ev[k as int])));
                    }
                },
            }
        }
        proof {
            assert(strings_bytes(out@) =~~= named_slices(hv, ev, k + 1, name@));
        }
        k += 1;
    }
    out
}

/// What searching one form's source text yields.
pub open spec fn form_matches_of(f: Seq<u8>, needle: Seq<u8>) -> Seq<Seq<u8>> {
    match dom_of(f) {
        Some(elems) => matching_slices(f, elems, elems.len() as int, needle),
        None => Seq::empty(),
    }
}

/// What searching a URL's first `k` forms yields, concatenated.
pub open spec fn url_matches_of(forms: Seq<Seq<u8>>, k: int, needle: Seq<u8>) -> Seq<Seq<u8>>
    decreases k,
{
    if k <= 0 {
        Seq::empty()
    } else {
        url_matches_of(forms, k - 1, needle) + form_matches_of(forms[k - 1], needle)
    }
}

/// The URLs (among the first `k`) whose forms yield matches, each with
/// its matches, in order.
pub open spec fn summary_matches_of(
    urls: Seq<URLSummaryV>,
    k: int,
    needle: Seq<u8>,
) -> Seq<(Seq<u8>, Seq<Seq<u8>>)>
    decreases k,
{
    if k <= 0 {
        Seq::empty()
    } else {
        let ms = url_matches_of(
            urls[k - 1].with_patterns,
            urls[k - 1].with_patterns.len() as int,
            needle,
        );
        summary_matches_of(urls, k - 1, needle) + (if ms.len() > 0 {
            seq![(urls[k - 1].url, ms)]
        } else {
            Seq::empty()
        })
    }
}

/// The byte view of a list of URL-and-matches pairs.
pub open spec fn pairs_view(v: Seq<(String, Vec<String>)>) -> Seq<(Seq<u8>, Seq<Seq<u8>>)> {
    Seq::new(v.len(), |i: int| (encode_utf8(v[i].0@), strings_bytes(v[i].1@)))
}

/// Search every form of a summary for `needle`: each contributing URL
/// with the matching subtree sources of its forms, in order.
pub fn matches_in_summary(s: &ArchiveSummary, needle: &str) -> (r: Vec<(String, Vec<String>)>)
    ensures
        pairs_view(r@) == summary_matches_of(
            s@.urls_with_pattern_forms,
            s@.urls_with_pattern_forms.len() as int,
            encode_utf8(needle@),
        ),
{
    let ghost urls = s@.urls_with_pattern_forms;
    let ghost nv = encode_utf8(needle@);
    let mut out: Vec<(String, Vec<String>)> = Vec::new();
    let mut k: usize = 0;
    proof {
        assert(pairs_view(out@) =~~= summary_matches_of(urls, 0, nv));
    }
    while k < s.urls_with_pattern_forms.len()
        invariant
            k <= urls.len(),
            s@.urls_with_pattern_forms == urls,
            s.urls_with_pattern_forms@.len() == urls.len(),
            nv == encode_utf8(needle@),
            pairs_view(out@) == summary_matches_of(urls, k as int, nv),
        decreases urls.len() - k,
    {
        let u = &s.urls_with_pattern_forms[k];
        proof {
            assert(u@ == urls[k as int]);
        }
        let ghost forms = urls[k as int].with_patterns;
        let mut ms: Vec<String> = Vec::new();
        let mut j: usize = 0;
        proof {
            assert(strings_bytes(ms@) =~~= url_matches_of(forms, 0, nv));
        }
        while j < u.with_patterns.len()
            invariant
                j <= forms.len(),
                u@ == urls[k as int],
                forms == urls[k as int].with_patterns,
                u.with_patterns@.len() == forms.len(),
                nv == encode_utf8(needle@),
                strings_bytes(ms@) == url_matches_of(forms, j as int, nv),
            decreases forms.len() - j,
        {
            proof {
                assert(encode_utf8(u.with_patterns@[j as int]@) == forms[j as int]);
            }
            let mut hits = elements_with(u.with_patterns[j].as_str(), needle);
            let ghost hv = hits@;
            let ghost prev = ms@;
            proof {
                if dom_of(forms[j as int]) is None {
                    assert(strings_bytes(hv) =~~= Seq::<Seq<u8>>::empty());
                }
                assert(strings_bytes(hv) == form_matches_of(forms[j as int], nv));
            }
            ms.append(&mut hits);
            proof {
                assert(ms@ =~= prev + hv);
                assert(strings_bytes(ms@) =~~= strings_bytes(prev) + strings_bytes(hv));
            }
            j += 1;
        }
        let ghost prev_out = out@;
        if ms.len() > 0 {
            let url = u.url.clone();
            out.push((url, ms));
            proof {
                assert(pairs_view(out@) =~~= pairs_view(prev_out) + seq![
                    (urls[k as int].url, url_matches_of(forms, forms.len() as int, nv)),
                ]);
            }
        }
        proof {
            assert(pairs_view(out@) =~~= summary_matches_of(urls, k + 1, nv));
        }
        k += 1;
    }
    out
}

} // verus!
