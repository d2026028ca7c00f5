use bo_cc::summary::{ArchiveSummary, URLSummary};

fn sample(url: &str, forms: Vec<&str>, unknown: i64, without: i64, skipped: i64) -> ArchiveSummary {
    ArchiveSummary {
        nr_unknown_encoding: unknown,
        nr_urls_without_patterns: without,
        nr_forms_without_patterns: skipped,
        urls_with_pattern_forms: vec![URLSummary {
            url: url.to_string(),
            with_patterns: forms.into_iter().map(|f| f.to_string()).collect(),
        }],
    }
}

fn url_names(a: &ArchiveSummary) -> Vec<String> {
    a.urls_with_pattern_forms.iter().map(|u| u.url.clone()).collect()
}

#[test]
fn merge_adds_counters_and_concatenates() {
    let a = sample("http://a.example/", vec!["<form>1</form>"], 1, 2, 3);
    let b = sample("http://b.example/", vec!["<form>2</form>"], 10, 20, 30);
    let m = a.merge(b);
    assert_eq!(m.nr_unknown_encoding, 11);
    assert_eq!(m.nr_urls_without_patterns, 22);
    assert_eq!(m.nr_forms_without_patterns, 33);
    assert_eq!(url_names(&m), vec!["http://a.example/", "http://b.example/"]);
}

#[test]
fn merge_is_commutative_up_to_url_order() {
    let a = sample("http://a.example/", vec!["<form>1</form>"], 1, 2, 3);
    let b = sample("http://b.example/", vec!["<form>2</form>"], 10, 20, 30);
    let a2 = sample("http://a.example/", vec!["<form>1</form>"], 1, 2, 3);
    let b2 = sample("http://b.example/", vec!["<form>2</form>"], 10, 20, 30);
    let ab = a.merge(b);
    let ba = b2.merge(a2);
    assert_eq!(ab.nr_unknown_encoding, ba.nr_unknown_encoding);
    assert_eq!(ab.nr_urls_without_patterns, ba.nr_urls_without_patterns);
    assert_eq!(ab.nr_forms_without_patterns, ba.nr_forms_without_patterns);
    let mut ab_urls = url_names(&ab);
    let mut ba_urls = url_names(&ba);
    ab_urls.sort();
    ba_urls.sort();
    assert_eq!(ab_urls, ba_urls);
}

#[test]
fn merge_with_zero_is_identity() {
    let a = sample("http://a.example/", vec!["<form>x</form>"], 5, 6, 7);
    let m = a.merge(ArchiveSummary::default());
    assert_eq!(m.nr_unknown_encoding, 5);
    assert_eq!(m.nr_urls_without_patterns, 6);
    assert_eq!(m.nr_forms_without_patterns, 7);
    assert_eq!(url_names(&m), vec!["http://a.example/"]);
    assert_eq!(m.urls_with_pattern_forms[0].with_patterns, vec!["<form>x</form>"]);

    let z = ArchiveSummary::default();
    let b = sample("http://b.example/", vec![], 1, 1, 1);
    let m2 = z.merge(b);
    assert_eq!(m2.nr_unknown_encoding, 1);
    assert_eq!(url_names(&m2), vec!["http://b.example/"]);
}

#[test]
fn default_is_zero() {
    let z = ArchiveSummary::default();
    assert_eq!(z.nr_unknown_encoding, 0);
    assert_eq!(z.nr_urls_without_patterns, 0);
    assert_eq!(z.nr_forms_without_patterns, 0);
    assert!(z.urls_with_pattern_forms.is_empty());
}
