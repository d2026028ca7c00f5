//! The per-WARC archive summary and its monoid structure.
//!
//! An [`ArchiveSummary`] is the reduction result for one WARC: three
//! counters and the list of URLs that contributed qualifying forms.
//! Summaries form a monoid under [`ArchiveSummary::merge`], commutative
//! up to the order of the URL list; the identity is the default value.
//! Contracts speak of the UTF-8 byte view of the contained strings.

use vstd::prelude::*;
use vstd::utf8::encode_utf8;

verus! {

/// One URL together with the qualifying forms extracted from its record.
#[derive(Debug)]
pub struct URLSummary {
    /// `WARC-Target-URI` of the record the forms came from.
    pub url: String,
    /// Source text of each qualifying form, in document order.
    pub with_patterns: Vec<String>,
}

/// Mathematical view of a [`URLSummary`]: the UTF-8 bytes of its strings.
#[verifier::ext_equal]
pub struct URLSummaryV {
    pub url: Seq<u8>,
    pub with_patterns: Seq<Seq<u8>>,
}

impl View for URLSummary {
    type V = URLSummaryV;

    open spec fn view(&self) -> URLSummaryV {
        URLSummaryV {
            url: encode_utf8(self.url@),
            with_patterns: Seq::new(
                self.with_patterns@.len(),
                |i: int| encode_utf8(self.with_patterns@[i]@),
            ),
        }
    }
}

/// The reduction result for one WARC.
#[derive(Debug)]
pub struct ArchiveSummary {
    /// Records whose HTML could not be decoded or whose forms appeared
    /// truncated.
    pub nr_unknown_encoding: i64,
    /// HTML records that contributed no qualifying form.
    pub nr_urls_without_patterns: i64,
    /// Forms that were seen but not retained.
    pub nr_forms_without_patterns: i64,
    /// All URLs that contributed at least one qualifying form.
    pub urls_with_pattern_forms: Vec<URLSummary>,
}

/// Mathematical view of an [`ArchiveSummary`].
#[verifier::ext_equal]
pub struct ArchiveSummaryV {
    pub nr_unknown_encoding: int,
    pub nr_urls_without_patterns: int,
    pub nr_forms_without_patterns: int,
    pub urls_with_pattern_forms: Seq<URLSummaryV>,
}

impl View for ArchiveSummary {
    type V = ArchiveSummaryV;

    open spec fn view(&self) -> ArchiveSummaryV {
        ArchiveSummaryV {
            nr_unknown_encoding: self.nr_unknown_encoding as int,
            nr_urls_without_patterns: self.nr_urls_without_patterns as int,
            nr_forms_without_patterns: self.nr_forms_without_patterns as int,
            urls_with_pattern_forms: Seq::new(
                self.urls_with_pattern_forms@.len(),
                |i: int| self.urls_with_pattern_forms@[i]@,
            ),
        }
    }
}

/// The identity of the merge operation: all counters zero, no URLs.
pub open spec fn zero_v() -> ArchiveSummaryV {
    ArchiveSummaryV {
        nr_unknown_encoding: 0,
        nr_urls_without_patterns: 0,
        nr_forms_without_patterns: 0,
        urls_with_pattern_forms: Seq::empty(),
    }
}

/// Pairwise sum on counters, concatenation on the URL list.
pub open spec fn merge_v(a: ArchiveSummaryV, b: ArchiveSummaryV) -> ArchiveSummaryV {
    ArchiveSummaryV {
        nr_unknown_encoding: a.nr_unknown_encoding + b.nr_unknown_encoding,
        nr_urls_without_patterns: a.nr_urls_without_patterns + b.nr_urls_without_patterns,
        nr_forms_without_patterns: a.nr_forms_without_patterns + b.nr_forms_without_patterns,
        urls_with_pattern_forms: a.urls_with_pattern_forms + b.urls_with_pattern_forms,
    }
}

/// All counters are non-negative.
pub open spec fn wf_v(a: ArchiveSummaryV) -> bool {
    &&& a.nr_unknown_encoding >= 0
    &&& a.nr_urls_without_patterns >= 0
    &&& a.nr_forms_without_patterns >= 0
}

/// The counter sums of a merge stay within `i64`.
pub open spec fn merge_fits(a: ArchiveSummaryV, b: ArchiveSummaryV) -> bool {
    &&& i64::MIN <= a.nr_unknown_encoding + b.nr_unknown_encoding <= i64::MAX
    &&& i64::MIN <= a.nr_urls_without_patterns + b.nr_urls_without_patterns <= i64::MAX
    &&& i64::MIN <= a.nr_forms_without_patterns + b.nr_forms_without_patterns <= i64::MAX
}

/// How many records contributed to a summary: each considered record
/// adds one, either to a counter or to the URL list.
pub open spec fn weight(a: ArchiveSummaryV) -> int {
    a.nr_unknown_encoding + a.nr_urls_without_patterns + a.urls_with_pattern_forms.len()
}

impl ArchiveSummary {
    /// Combine two summaries: counters add, URL lists concatenate.
    pub fn merge(self, other: ArchiveSummary) -> (r: ArchiveSummary)
        requires
            merge_fits(self@, other@),
        ensures
            r@ == merge_v(self@, other@),
    {
        let mut summarised_forms = self.urls_with_pattern_forms;
        let mut more = other.urls_with_pattern_forms;
        summarised_forms.append(&mut more);
        let r = ArchiveSummary {
            nr_unknown_encoding: self.nr_unknown_encoding + other.nr_unknown_encoding,
            nr_urls_without_patterns: self.nr_urls_without_patterns
                + other.nr_urls_without_patterns,
            nr_forms_without_patterns: self.nr_forms_without_patterns
                + other.nr_forms_without_patterns,
            urls_with_pattern_forms: summarised_forms,
        };
        proof {
            assert(r@.urls_with_pattern_forms =~= merge_v(self@, other@).urls_with_pattern_forms);
            assert(r@ =~= merge_v(self@, other@));
        }
        r
    }
}

impl Default for ArchiveSummary {
    /// The identity of [`ArchiveSummary::merge`].
    fn default() -> (r: ArchiveSummary)
        ensures
            r@ == zero_v(),
    {
        let r = ArchiveSummary {
            nr_unknown_encoding: 0,
            nr_urls_without_patterns: 0,
            nr_forms_without_patterns: 0,
            urls_with_pattern_forms: Vec::new(),
        };
        proof {
            assert(r@ =~= zero_v());
        }
        r
    }
}

/// Merging with the identity changes nothing, on either side.
pub proof fn lemma_merge_zero(a: ArchiveSummaryV)
    ensures
        merge_v(a, zero_v()) == a,
        merge_v(zero_v(), a) == a,
{
    assert(merge_v(a, zero_v()) =~= a);
    assert(merge_v(zero_v(), a) =~= a);
}

/// Merge is commutative: the counters agree exactly, and the URL lists
/// agree as multisets (their order is unspecified across records).
pub proof fn lemma_merge_commutative(a: ArchiveSummaryV, b: ArchiveSummaryV)
    ensures
        merge_v(a, b).nr_unknown_encoding == merge_v(b, a).nr_unknown_encoding,
        merge_v(a, b).nr_urls_without_patterns == merge_v(b, a).nr_urls_without_patterns,
        merge_v(a, b).nr_forms_without_patterns == merge_v(b, a).nr_forms_without_patterns,
        merge_v(a, b).urls_with_pattern_forms.to_multiset() == merge_v(
            b,
            a,
        ).urls_with_pattern_forms.to_multiset(),
{
    vstd::seq_lib::lemma_multiset_commutative(
        a.urls_with_pattern_forms,
        b.urls_with_pattern_forms,
    );
    vstd::seq_lib::lemma_multiset_commutative(
        b.urls_with_pattern_forms,
        a.urls_with_pattern_forms,
    );
}

/// Merge is associative.
pub proof fn lemma_merge_associative(a: ArchiveSummaryV, b: ArchiveSummaryV, c: ArchiveSummaryV)
    ensures
        merge_v(merge_v(a, b), c) == merge_v(a, merge_v(b, c)),
{
    assert(merge_v(merge_v(a, b), c) =~= merge_v(a, merge_v(b, c)));
}

/// The weight of a merge is the sum of the weights: the monoid never
/// loses or invents a record's contribution.
pub proof fn lemma_merge_weight(a: ArchiveSummaryV, b: ArchiveSummaryV)
    ensures
        weight(merge_v(a, b)) == weight(a) + weight(b),
{
}

} // verus!
