//! A flattened view of a parsed HTML document.
//!
//! The `tl` crate does the tag-soup parsing; what the library reasons
//! about is the flat list of elements it hands back: for each element,
//! its raw tag name, its attributes, the byte range of its source text
//! and the node-table range of its subtree, all in document order.
//! The whole list is named [`dom_of`]; nothing else is assumed of it,
//! and all offsets are bounds-checked by the verified callers.

use vstd::prelude::*;

verus! {

/// One element of the flattened document.
pub struct FlatElem {
    /// Raw tag name, as written in the source.
    pub name: Vec<u8>,
    /// Attributes: name and optional value (`None` for a bare attribute).
    pub attrs: Vec<(String, Option<String>)>,
    /// Byte offset of the element's opening `<` in the source.
    pub start: usize,
    /// Byte offset of the last byte of the element's source text.
    pub end: usize,
    /// This element's index in the parser's node table.
    pub node: usize,
    /// First node-table index of the element's descendants.
    pub sub_start: usize,
    /// Last node-table index of the element's descendants (the range is
    /// empty when `sub_start > sub_end`).
    pub sub_end: usize,
}

/// Mathematical view of a [`FlatElem`]; strings appear as UTF-8
/// bytes, and the attributes as a map, since the parser keeps them in
/// a map whose iteration order is no function of the document.
#[verifier::ext_equal]
pub struct FlatElemV {
    pub name: Seq<u8>,
    pub attrs: Map<Seq<u8>, Option<Seq<u8>>>,
    pub start: int,
    pub end: int,
    pub node: int,
    pub sub_start: int,
    pub sub_end: int,
}

/// The UTF-8 bytes of one attribute's name.
pub open spec fn attr_key(a: (String, Option<String>)) -> Seq<u8> {
    vstd::utf8::encode_utf8(a.0@)
}

/// The UTF-8 bytes of one attribute's value.
pub open spec fn attr_val(a: (String, Option<String>)) -> Option<Seq<u8>> {
    match a.1 {
        Some(v) => Some(vstd::utf8::encode_utf8(v@)),
        None => None,
    }
}

/// The attribute list as a map; the first occurrence of a name wins.
pub open spec fn attrs_map_of(s: Seq<(String, Option<String>)>) -> Map<Seq<u8>, Option<Seq<u8>>>
    decreases s.len(),
{
    if s.len() == 0 {
        Map::empty()
    } else {
        attrs_map_of(s.drop_first()).insert(attr_key(s[0]), attr_val(s[0]))
    }
}

impl View for FlatElem {
    type V = FlatElemV;

    open spec fn view(&self) -> FlatElemV {
        FlatElemV {
            name: self.name@,
            attrs: attrs_map_of(self.attrs@),
            start: self.start as int,
            end: self.end as int,
            node: self.node as int,
            sub_start: self.sub_start as int,
            sub_end: self.sub_end as int,
        }
    }
}

impl DeepView for FlatElem {
    type V = FlatElemV;

    open spec fn deep_view(&self) -> FlatElemV {
        self.view()
    }
}

/// The flattened element list that parsing `html` yields: a function
/// of the input alone.  `None` when the input is not UTF-8 or the
/// parser refuses it.
pub uninterp spec fn dom_of(html: Seq<u8>) -> Option<Seq<FlatElemV>>;

#[verifier::external_type_specification]
#[verifier::external_body]
pub struct ExHTMLTag<'a>(tl::HTMLTag<'a>);

#[verifier::external_type_specification]
#[verifier::external_body]
pub struct ExParser<'a>(tl::Parser<'a>);

/// Relies on tl::HTMLTag::{boundaries, name, attributes, children} and
/// tl::Bytes::as_bytes: copies one parsed element into plain values.
#[verifier::external_body]
fn flat_of(tag: &tl::HTMLTag<'_>, parser: &tl::Parser<'_>, node: usize) -> FlatElem {
    let (start, end) = tag.boundaries(parser);
    let (sub_start, sub_end) = tag
        .children()
        .boundaries(parser)
        .map(|(a, b)| (a as usize, b as usize))
        .unwrap_or((1, 0));
    let attrs = tag
        .attributes()
        .iter()
        .map(|(k, v)| (k.into_owned(), v.map(|x| x.into_owned())))
        .collect();
    let name = tag.name().as_bytes().to_vec();
    FlatElem { name, attrs, start, end, node, sub_start, sub_end }
}

/// Relies on tl::parse and tl::VDom::{parser, nodes}: parses `html`
/// (tag-soup tolerant) and hands back every element in document order,
/// flattened by [`flat_of`].  The result is a function of `html` alone.
#[verifier::external_body]
pub(crate) fn dom_flatten(html: &[u8]) -> (r: Option<Vec<FlatElem>>)
    ensures
        match r {
            Some(v) => dom_of(html@) == Some(v.deep_view()),
            None => dom_of(html@) is None,
        },
{
    let s = core::str::from_utf8(html).ok()?;
    let dom = tl::parse(s, tl::ParserOptions::default()).ok()?;
    let parser = dom.parser();
    let mut out = Vec::new();
    for (i, node) in dom.nodes().iter().enumerate() {
        if let Some(tag) = node.as_tag() {
            out.push(flat_of(tag, parser, i));
        }
    }
    Some(out)
}

/// The attribute with the given name, byte-exact: `None` when absent,
/// `Some(None)` for a bare attribute, `Some(Some(v))` for a value.
pub open spec fn attr_lookup(
    attrs: Map<Seq<u8>, Option<Seq<u8>>>,
    name: Seq<u8>,
) -> Option<Option<Seq<u8>>> {
    if attrs.dom().contains(name) {
        Some(attrs[name])
    } else {
        None
    }
}

/// The element carries the attribute, with or without a value.
pub open spec fn attr_present(attrs: Map<Seq<u8>, Option<Seq<u8>>>, name: Seq<u8>) -> bool {
    attrs.dom().contains(name)
}

/// A name absent from a prefix of the list is looked up in the rest.
proof fn lemma_attrs_map_skip(s: Seq<(String, Option<String>)>, k: int, name: Seq<u8>)
    requires
        0 <= k <= s.len(),
        forall|i: int| 0 <= i < k ==> attr_key(s[i]) != name,
    ensures
        attr_lookup(attrs_map_of(s), name) == attr_lookup(
            attrs_map_of(s.subrange(k, s.len() as int)),
            name,
        ),
    decreases k,
{
    if k == 0 {
        assert(s.subrange(0, s.len() as int) =~= s);
    } else {
        lemma_attrs_map_skip(s.drop_first(), k - 1, name);
        assert(forall|i: int|
            0 <= i < k - 1 ==> attr_key(#[trigger] s.drop_first()[i]) == attr_key(s[i + 1]));
        assert(s.drop_first().subrange(k - 1, s.drop_first().len() as int) =~= s.subrange(
            k,
            s.len() as int,
        ));
        assert(attr_key(s[0]) != name);
    }
}

/// The first entry with a given name decides the map's value for it.
pub proof fn lemma_attrs_map_first(s: Seq<(String, Option<String>)>, i: int)
    requires
        0 <= i < s.len(),
        forall|j: int| 0 <= j < i ==> attr_key(#[trigger] s[j]) != attr_key(s[i]),
    ensures
        attrs_map_of(s).dom().contains(attr_key(s[i])),
        attrs_map_of(s)[attr_key(s[i])] == attr_val(s[i]),
    decreases s.len(),
{
    if i > 0 {
        assert(forall|j: int|
            0 <= j < i - 1 ==> attr_key(#[trigger] s.drop_first()[j]) == attr_key(s[j + 1]));
        assert(s.drop_first()[i - 1] == s[i]);
        lemma_attrs_map_first(s.drop_first(), i - 1);
        assert(attr_key(s[0]) != attr_key(s[i]));
    }
}

/// Every key of the map comes from the first entry bearing it.
pub proof fn lemma_attrs_map_source(s: Seq<(String, Option<String>)>, name: Seq<u8>)
    requires
        attrs_map_of(s).dom().contains(name),
    ensures
        exists|i: int|
            0 <= i < s.len() && attr_key(#[trigger] s[i]) == name && attrs_map_of(s)[name]
                == attr_val(s[i]) && (forall|j: int| 0 <= j < i ==> attr_key(s[j]) != name),
    decreases s.len(),
{
    if s.len() > 0 {
        if attr_key(s[0]) == name {
            assert(attrs_map_of(s)[name] == attr_val(s[0]));
            assert(0 <= 0 < s.len() && attr_key(s[0]) == name && attrs_map_of(s)[name]
                == attr_val(s[0]) && (forall|j: int| 0 <= j < 0 ==> attr_key(s[j]) != name));
        } else {
            lemma_attrs_map_source(s.drop_first(), name);
            let i = choose|i: int|
                0 <= i < s.drop_first().len() && attr_key(#[trigger] s.drop_first()[i]) == name
                    && attrs_map_of(s.drop_first())[name] == attr_val(s.drop_first()[i]) && (
                forall|j: int| 0 <= j < i ==> attr_key(s.drop_first()[j]) != name);
            assert(s.drop_first()[i] == s[i + 1]);
            assert(forall|j: int|
                0 <= j < i + 1 ==> (j == 0 || attr_key(#[trigger] s[j]) == attr_key(
                    s.drop_first()[j - 1],
                )));
            assert(attr_key(s[i + 1]) == name && attrs_map_of(s)[name] == attr_val(s[i + 1]) && (
            forall|j: int| 0 <= j < i + 1 ==> attr_key(s[j]) != name));
        }
    }
}

/// Look an attribute up by name on an element, byte-exact.
pub fn find_attr(e: &FlatElem, name: &[u8]) -> (r: Option<Option<String>>)
    ensures
        match r {
            Some(Some(v)) => attr_lookup(e@.attrs, name@) == Some(
                Some(vstd::utf8::encode_utf8(v@)),
            ),
            Some(None) => attr_lookup(e@.attrs, name@) == Some(None::<Seq<u8>>),
            None => attr_lookup(e@.attrs, name@) is None,
        },
{
    let ghost s = e.attrs@;
    let mut k: usize = 0;
    while k < e.attrs.len()
        invariant
            k <= s.len(),
            e.attrs@ == s,
            forall|i: int| 0 <= i < k ==> attr_key(#[trigger] s[i]) != name@,
        decreases s.len() - k,
    {
        let key = &e.attrs[k].0;
        if crate::bytes::eq_bytes(key.as_str().as_bytes(), name) {
            proof {
                lemma_attrs_map_skip(s, k as int, name@);
                let tail = s.subrange(k as int, s.len() as int);
                assert(tail[0] == s[k as int]);
                assert(attr_key(tail[0]) == name@);
                assert(attrs_map_of(tail) == attrs_map_of(tail.drop_first()).insert(
                    attr_key(tail[0]),
                    attr_val(tail[0]),
                ));
                assert(attr_lookup(attrs_map_of(s), name@) == Some(attr_val(s[k as int])));
            }
            return match &e.attrs[k].1 {
                Some(v) => Some(Some(v.clone())),
                None => Some(None),
            };
        }
        k += 1;
    }
    proof {
        lemma_attrs_map_skip(s, s.len() as int, name@);
        assert(s.subrange(s.len() as int, s.len() as int).len() == 0);
        assert(attrs_map_of(s.subrange(s.len() as int, s.len() as int)) =~= Map::<
            Seq<u8>,
            Option<Seq<u8>>,
        >::empty());
    }
    None
}

} // verus!
