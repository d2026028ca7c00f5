//! The corpus-wide analysis sums behind the summary report: per
//! summary, how many URLs and forms were seen and how many carried
//! patterns; tallies add up elementwise across summaries.

use vstd::prelude::*;
use crate::summary::{wf_v, ArchiveSummary, ArchiveSummaryV, URLSummaryV};

verus! {

/// The six analysis sums of the summary report.
#[derive(Debug, PartialEq, Eq, Clone, Copy)]
pub struct Tally {
    /// URLs that contributed at least one qualifying form.
    pub urls_with_pattern: i64,
    /// All URLs looked at, decodable or not.
    pub total_urls: i64,
    /// Qualifying forms retained.
    pub forms_with_pattern: i64,
    /// All forms seen on URLs that contributed.
    pub total_forms: i64,
    /// URLs whose HTML could not be decoded.
    pub nr_unknown_encoding: i64,
    /// URLs whose HTML was decoded.
    pub successful_urls: i64,
}

/// Mathematical view of a [`Tally`].
#[verifier::ext_equal]
pub struct TallyV {
    pub urls_with_pattern: int,
    pub total_urls: int,
    pub forms_with_pattern: int,
    pub total_forms: int,
    pub nr_unknown_encoding: int,
    pub successful_urls: int,
}

impl View for Tally {
    type V = TallyV;

    open spec fn view(&self) -> TallyV {
        TallyV {
            urls_with_pattern: self.urls_with_pattern as int,
            total_urls: self.total_urls as int,
            forms_with_pattern: self.forms_with_pattern as int,
            total_forms: self.total_forms as int,
            nr_unknown_encoding: self.nr_unknown_encoding as int,
            successful_urls: self.successful_urls as int,
        }
    }
}

/// How many forms a summary retained, over all its URLs.
pub open spec fn retained_forms(urls: Seq<URLSummaryV>) -> int
    decreases urls.len(),
{
    if urls.len() == 0 {
        0
    } else {
        retained_forms(urls.drop_last()) + urls.last().with_patterns.len()
    }
}

/// The tally of one summary.
pub open spec fn tally_of(a: ArchiveSummaryV) -> TallyV {
    let urls_w = a.urls_with_pattern_forms.len() as int;
    let successful = urls_w + a.nr_urls_without_patterns;
    let forms_w = retained_forms(a.urls_with_pattern_forms);
    TallyV {
        urls_with_pattern: urls_w,
        total_urls: successful + a.nr_unknown_encoding,
        forms_with_pattern: forms_w,
        total_forms: forms_w + a.nr_forms_without_patterns,
        nr_unknown_encoding: a.nr_unknown_encoding,
        successful_urls: successful,
    }
}

/// Elementwise sum of two tallies.
pub open spec fn tally_add_v(l: TallyV, r: TallyV) -> TallyV {
    TallyV {
        urls_with_pattern: l.urls_with_pattern + r.urls_with_pattern,
        total_urls: l.total_urls + r.total_urls,
        forms_with_pattern: l.forms_with_pattern + r.forms_with_pattern,
        total_forms: l.total_forms + r.total_forms,
        nr_unknown_encoding: l.nr_unknown_encoding + r.nr_unknown_encoding,
        successful_urls: l.successful_urls + r.successful_urls,
    }
}

/// All fields lie in the `i64` range.
pub open spec fn tally_fits(t: TallyV) -> bool {
    &&& i64::MIN <= t.urls_with_pattern <= i64::MAX
    &&& i64::MIN <= t.total_urls <= i64::MAX
    &&& i64::MIN <= t.forms_with_pattern <= i64::MAX
    &&& i64::MIN <= t.total_forms <= i64::MAX
    &&& i64::MIN <= t.nr_unknown_encoding <= i64::MAX
    &&& i64::MIN <= t.successful_urls <= i64::MAX
}

impl Tally {
    /// The identity of the elementwise sum.
    pub fn identity() -> (r: Tally)
        ensures
            r@ == (TallyV {
                urls_with_pattern: 0,
                total_urls: 0,
                forms_with_pattern: 0,
                total_forms: 0,
                nr_unknown_encoding: 0,
                successful_urls: 0,
            }),
    {
        let r = Tally {
            urls_with_pattern: 0,
            total_urls: 0,
            forms_with_pattern: 0,
            total_forms: 0,
            nr_unknown_encoding: 0,
            successful_urls: 0,
        };
        proof {
            assert(r@ =~= (TallyV {
                urls_with_pattern: 0,
                total_urls: 0,
                forms_with_pattern: 0,
                total_forms: 0,
                nr_unknown_encoding: 0,
                successful_urls: 0,
            }));
        }
        r
    }

    /// Add another tally elementwise; `None` if a sum leaves `i64`.
    pub fn add(self, other: Tally) -> (r: Option<Tally>)
        ensures
            match r {
                Some(t) => t@ == tally_add_v(self@, other@),
                None => !tally_fits(tally_add_v(self@, other@)),
            },
    {
        let a = match self.urls_with_pattern.checked_add(other.urls_with_pattern) {
            Some(x) => x,
            None => {
                return None;
            },
        };
        let b = match self.total_urls.checked_add(other.total_urls) {
            Some(x) => x,
            None => {
                return None;
            },
        };
        let c = match self.forms_with_pattern.checked_add(other.forms_with_pattern) {
            Some(x) => x,
            None => {
                return None;
            },
        };
        let d = match self.total_forms.checked_add(other.total_forms) {
            Some(x) => x,
            None => {
                return None;
            },
        };
        let e = match self.nr_unknown_encoding.checked_add(other.nr_unknown_encoding) {
            Some(x) => x,
            None => {
                return None;
            },
        };
        let f = match self.successful_urls.checked_add(other.successful_urls) {
            Some(x) => x,
            None => {
                return None;
            },
        };
        let r = Tally {
            urls_with_pattern: a,
            total_urls: b,
            forms_with_pattern: c,
            total_forms: d,
            nr_unknown_encoding: e,
            successful_urls: f,
        };
        proof {
            assert(r@ =~= tally_add_v(self@, other@));
        }
        Some(r)
    }
}

/// The tally of one summary; `None` if a sum leaves `i64`.
pub fn summary_tally(a: &ArchiveSummary) -> (r: Option<Tally>)
    requires
        wf_v(a@),
    ensures
        match r {
            Some(t) => t@ == tally_of(a@),
            None => !tally_fits(tally_of(a@)),
        },
{
    let ghost urls = a@.urls_with_pattern_forms;
    let urls_w = a.urls_with_pattern_forms.len();
    if urls_w as u64 > i64::MAX as u64 {
        proof {
            lemma_retained_forms_nonneg(urls);
        }
        return None;
    }
    let urls_w = urls_w as i64;
    let mut forms_w: i64 = 0;
    let mut k: usize = 0;
    proof {
        assert(urls.subrange(0, 0) =~= Seq::<URLSummaryV>::empty());
    }
    while k < a.urls_with_pattern_forms.len()
        invariant
            k <= urls.len(),
            a@.urls_with_pattern_forms == urls,
            a.urls_with_pattern_forms@.len() == urls.len(),
            0 <= forms_w,
            forms_w as int == retained_forms(urls.subrange(0, k as int)),
        decreases urls.len() - k,
    {
        proof {
            assert(a.urls_with_pattern_forms@[k as int]@ == urls[k as int]);
            let pre = urls.subrange(0, k + 1);
            assert(pre.drop_last() =~= urls.subrange(0, k as int));
            assert(pre.last() == urls[k as int]);
        }
        let n = a.urls_with_pattern_forms[k].with_patterns.len();
        if n as u64 > i64::MAX as u64 {
            proof {
                lemma_retained_forms_prefix(urls, k + 1);
                let pre = urls.subrange(0, k + 1);
                assert(pre.drop_last() =~= urls.subrange(0, k as int));
                assert(retained_forms(pre) == retained_forms(urls.subrange(0, k as int))
                    + urls[k as int].with_patterns.len());
            }
            return None;
        }
        forms_w = match forms_w.checked_add(n as i64) {
            Some(x) => x,
            None => {
                proof {
                    lemma_retained_forms_prefix(urls, k + 1);
                    let pre = urls.subrange(0, k + 1);
                    assert(pre.drop_last() =~= urls.subrange(0, k as int));
                    assert(retained_forms(pre) == retained_forms(urls.subrange(0, k as int))
                        + urls[k as int].with_patterns.len());
                }
                return None;
            },
        };
        k += 1;
    }
    proof {
        assert(urls.subrange(0, urls.len() as int) =~= urls);
    }
    let successful = match urls_w.checked_add(a.nr_urls_without_patterns) {
        Some(x) => x,
        None => {
            return None;
        },
    };
    let total_urls = match successful.checked_add(a.nr_unknown_encoding) {
        Some(x) => x,
        None => {
            return None;
        },
    };
    let total_forms = match forms_w.checked_add(a.nr_forms_without_patterns) {
        Some(x) => x,
        None => {
            return None;
        },
    };
    let r = Tally {
        urls_with_pattern: urls_w,
        total_urls,
        forms_with_pattern: forms_w,
        total_forms,
        nr_unknown_encoding: a.nr_unknown_encoding,
        successful_urls: successful,
    };
    proof {
        assert(r@ =~= tally_of(a@));
    }
    Some(r)
}

/// Retained-form counts are non-negative.
pub proof fn lemma_retained_forms_nonneg(urls: Seq<URLSummaryV>)
    ensures
        retained_forms(urls) >= 0,
    decreases urls.len(),
{
    if urls.len() > 0 {
        lemma_retained_forms_nonneg(urls.drop_last());
    }
}

/// A prefix retains no more forms than the whole.
pub proof fn lemma_retained_forms_prefix(urls: Seq<URLSummaryV>, k: int)
    requires
        0 <= k <= urls.len(),
    ensures
        retained_forms(urls.subrange(0, k)) <= retained_forms(urls),
    decreases urls.len() - k,
{
    if k == urls.len() {
        assert(urls.subrange(0, k) =~= urls);
    } else {
        lemma_retained_forms_prefix(urls, k + 1);
        let pre = urls.subrange(0, k + 1);
        assert(pre.drop_last() =~= urls.subrange(0, k));
        assert(retained_forms(pre) == retained_forms(urls.subrange(0, k))
            + pre.last().with_patterns.len());
    }
}

} // verus!
