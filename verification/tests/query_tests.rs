use bo_cc::query::{elements_named, elements_with, matches_in_summary, patterns_in};
use bo_cc::tally::{summary_tally, Tally};
use bo_cc::summary::{ArchiveSummary, URLSummary};

#[test]
fn patterns_in_order_per_input() {
    let form = "<form><input ng-pattern=\"c\" pattern=\"a\"><input data-val-regex-pattern=\"b\"></form>";
    // per input: pattern, then data-val-regex-pattern, then ng-pattern
    assert_eq!(patterns_in(form), vec!["a", "c", "b"]);
}

#[test]
fn patterns_in_skips_valueless_attributes() {
    let form = "<form><input pattern><input pattern=\"x\"></form>";
    assert_eq!(patterns_in(form), vec!["x"]);
}

#[test]
fn patterns_in_empty_value_is_kept() {
    let form = "<form><input pattern=\"\"></form>";
    assert_eq!(patterns_in(form), vec![""]);
}

#[test]
fn elements_with_finds_matching_subtrees() {
    let form = "<form><div id=\"keep\"><input pattern=\"magic-needle\"></div><div id=\"other\"><input pattern=\"x\"></div></form>";
    let hits = elements_with(form, "magic-needle");
    // the form, the matching div and the input itself all enclose the match
    assert!(hits.iter().any(|h| h.starts_with("<form")));
    assert!(hits.iter().any(|h| h.starts_with("<div id=\"keep\"")));
    assert!(hits.iter().any(|h| h.starts_with("<input")));
    assert!(hits.iter().all(|h| h.contains("magic-needle")));
    // the sibling without the needle is not itself a hit
    assert!(!hits.iter().any(|h| h.starts_with("<div id=\"other\"")));
    assert!(elements_with(form, "absent-needle").is_empty());
}

#[test]
fn elements_named_finds_by_tag() {
    let form = "<form><input pattern=\"a\"><select><option>x</option></select></form>";
    let inputs = elements_named(form, b"input");
    assert_eq!(inputs.len(), 1);
    assert!(inputs[0].starts_with("<input"));
    let selects = elements_named(form, b"select");
    assert_eq!(selects.len(), 1);
    assert!(selects[0].contains("<option>"));
    assert!(elements_named(form, b"textarea").is_empty());
}

#[test]
fn tally_of_one_summary() {
    let a = ArchiveSummary {
        nr_unknown_encoding: 2,
        nr_urls_without_patterns: 5,
        nr_forms_without_patterns: 7,
        urls_with_pattern_forms: vec![
            URLSummary {
                url: "http://a/".to_string(),
                with_patterns: vec!["<form>1</form>".to_string(), "<form>2</form>".to_string()],
            },
            URLSummary {
                url: "http://b/".to_string(),
                with_patterns: vec!["<form>3</form>".to_string()],
            },
        ],
    };
    let t = summary_tally(&a).expect("tally fits");
    assert_eq!(t.urls_with_pattern, 2);
    assert_eq!(t.successful_urls, 7);
    assert_eq!(t.total_urls, 9);
    assert_eq!(t.forms_with_pattern, 3);
    assert_eq!(t.total_forms, 10);
    assert_eq!(t.nr_unknown_encoding, 2);
}

#[test]
fn tallies_add_elementwise() {
    let a = Tally {
        urls_with_pattern: 1,
        total_urls: 2,
        forms_with_pattern: 3,
        total_forms: 4,
        nr_unknown_encoding: 5,
        successful_urls: 6,
    };
    let b = Tally {
        urls_with_pattern: 10,
        total_urls: 20,
        forms_with_pattern: 30,
        total_forms: 40,
        nr_unknown_encoding: 50,
        successful_urls: 60,
    };
    let c = a.add(b).expect("fits");
    assert_eq!(c.urls_with_pattern, 11);
    assert_eq!(c.total_urls, 22);
    assert_eq!(c.forms_with_pattern, 33);
    assert_eq!(c.total_forms, 44);
    assert_eq!(c.nr_unknown_encoding, 55);
    assert_eq!(c.successful_urls, 66);
    let id = Tally::identity();
    let d = c.add(id).expect("fits");
    assert_eq!(d, c);
    // overflow is reported, not wrapped
    let big = Tally {
        urls_with_pattern: i64::MAX,
        total_urls: 0,
        forms_with_pattern: 0,
        total_forms: 0,
        nr_unknown_encoding: 0,
        successful_urls: 0,
    };
    let one = Tally {
        urls_with_pattern: 1,
        total_urls: 0,
        forms_with_pattern: 0,
        total_forms: 0,
        nr_unknown_encoding: 0,
        successful_urls: 0,
    };
    assert!(big.add(one).is_none());
}

#[test]
fn find_pattern_groups_by_url() {
    let s = ArchiveSummary {
        nr_unknown_encoding: 0,
        nr_urls_without_patterns: 0,
        nr_forms_without_patterns: 0,
        urls_with_pattern_forms: vec![
            URLSummary {
                url: "http://hit/".to_string(),
                with_patterns: vec!["<form><input pattern=\"needle-x\"></form>".to_string()],
            },
            URLSummary {
                url: "http://miss/".to_string(),
                with_patterns: vec!["<form><input pattern=\"other\"></form>".to_string()],
            },
        ],
    };
    let found = matches_in_summary(&s, "needle-x");
    assert_eq!(found.len(), 1);
    assert_eq!(found[0].0, "http://hit/");
    assert!(!found[0].1.is_empty());
    assert!(found[0].1.iter().all(|e| e.contains("needle-x")));
}
