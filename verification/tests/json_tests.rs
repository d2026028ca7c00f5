use bo_cc::json::{parse_summary, ser_summary};
use bo_cc::store::{encode_summary, load_summary, to_storage_fn};
use bo_cc::summary::{ArchiveSummary, URLSummary};

fn sample() -> ArchiveSummary {
    ArchiveSummary {
        nr_unknown_encoding: 3,
        nr_urls_without_patterns: 14,
        nr_forms_without_patterns: 15,
        urls_with_pattern_forms: vec![
            URLSummary {
                url: "http://a.example/x?q=1".to_string(),
                with_patterns: vec![
                    "<form><input pattern=\"\\d+\"></form>".to_string(),
                    "<form>\n<input ng-pattern=\"x\">\n</form>".to_string(),
                ],
            },
            URLSummary {
                url: "http://b.example/".to_string(),
                with_patterns: vec!["<form><input pattern=\"\"></form>".to_string()],
            },
        ],
    }
}

fn summaries_equal(a: &ArchiveSummary, b: &ArchiveSummary) -> bool {
    a.nr_unknown_encoding == b.nr_unknown_encoding
        && a.nr_urls_without_patterns == b.nr_urls_without_patterns
        && a.nr_forms_without_patterns == b.nr_forms_without_patterns
        && a.urls_with_pattern_forms.len() == b.urls_with_pattern_forms.len()
        && a
            .urls_with_pattern_forms
            .iter()
            .zip(b.urls_with_pattern_forms.iter())
            .all(|(x, y)| x.url == y.url && x.with_patterns == y.with_patterns)
}

#[test]
fn serialization_is_conventional_json() {
    let a = sample();
    let bytes = ser_summary(&a);
    // a conventional JSON parser reads the same values back
    let v: serde_json::Value = serde_json::from_slice(&bytes).expect("output must be valid JSON");
    assert_eq!(v["nr_unknown_encoding"], serde_json::Value::from(3));
    assert_eq!(v["nr_urls_without_patterns"], serde_json::Value::from(14));
    assert_eq!(v["nr_forms_without_patterns"], serde_json::Value::from(15));
    let urls = v["urls_with_pattern_forms"].as_array().unwrap();
    assert_eq!(urls.len(), 2);
    assert_eq!(urls[0]["url"].as_str().unwrap(), "http://a.example/x?q=1");
    let wp = urls[0]["with_patterns"].as_array().unwrap();
    assert_eq!(wp.len(), 2);
    assert_eq!(
        wp[1].as_str().unwrap(),
        "<form>\n<input ng-pattern=\"x\">\n</form>"
    );
    assert_eq!(urls[1]["url"].as_str().unwrap(), "http://b.example/");
}

#[test]
fn json_round_trip() {
    let a = sample();
    let bytes = ser_summary(&a);
    let back = parse_summary(&bytes).expect("own serialization must parse");
    assert!(summaries_equal(&a, &back));
    // and the re-serialization is byte-identical
    assert_eq!(ser_summary(&back), bytes);
}

#[test]
fn json_escapes_round_trip() {
    let a = ArchiveSummary {
        nr_unknown_encoding: 0,
        nr_urls_without_patterns: 0,
        nr_forms_without_patterns: 0,
        urls_with_pattern_forms: vec![URLSummary {
            url: "http://x/\"quote\\back\u{1}ctrl".to_string(),
            with_patterns: vec!["<form>\r\n\tmixed \u{e9}\u{30c6}</form>".to_string()],
        }],
    };
    let bytes = ser_summary(&a);
    let s = String::from_utf8(bytes.clone()).unwrap();
    assert!(s.contains("\\\"quote\\\\back\\u0001ctrl"));
    assert!(s.contains("\\r\\n\\t"));
    let back = parse_summary(&bytes).expect("escapes must parse back");
    assert!(summaries_equal(&a, &back));
}

#[test]
fn empty_summary_round_trip() {
    let a = ArchiveSummary::default();
    let bytes = ser_summary(&a);
    assert_eq!(
        String::from_utf8(bytes.clone()).unwrap(),
        "{\"nr_unknown_encoding\":0,\"nr_urls_without_patterns\":0,\"nr_forms_without_patterns\":0,\"urls_with_pattern_forms\":[]}"
    );
    let back = parse_summary(&bytes).expect("must parse");
    assert!(summaries_equal(&a, &back));
}

#[test]
fn parser_is_strict_about_form() {
    // the reader accepts exactly what the writer emits
    assert!(parse_summary(b"{\"nr_unknown_encoding\": 0}").is_none());
    assert!(parse_summary(b"").is_none());
    assert!(
        parse_summary(
            b"{\"nr_unknown_encoding\":00,\"nr_urls_without_patterns\":0,\"nr_forms_without_patterns\":0,\"urls_with_pattern_forms\":[]}"
        )
        .is_none()
    );
    let good = b"{\"nr_unknown_encoding\":0,\"nr_urls_without_patterns\":0,\"nr_forms_without_patterns\":0,\"urls_with_pattern_forms\":[]}";
    assert!(parse_summary(good).is_some());
    // trailing garbage is refused
    let mut bad = good.to_vec();
    bad.push(b' ');
    assert!(parse_summary(&bad).is_none());
}

#[test]
fn storage_encode_load_round_trip() {
    let a = sample();
    let stored = encode_summary(&a).expect("compression should succeed");
    // the stored bytes are a real xz stream, not the raw JSON
    assert_eq!(&stored[..6], b"\xfd7zXZ\x00");
    assert_ne!(stored, ser_summary(&a));
    let back = load_summary(&stored).expect("stored file must load");
    assert!(summaries_equal(&a, &back));
    // and a foreign xz decoder reads the canonical JSON back out
    let mut raw = Vec::new();
    let mut dec = xz2::read::XzDecoder::new(&stored[..]);
    std::io::Read::read_to_end(&mut dec, &mut raw).unwrap();
    assert_eq!(raw, ser_summary(&a));
}

#[test]
fn storage_file_name() {
    assert_eq!(
        to_storage_fn("crawl-data/CC-MAIN-2023-40/segments/1.warc.gz"),
        "forms.d/crawl-data!CC-MAIN-2023-40!segments!1.warc.gz.json.xz"
    );
    assert_eq!(to_storage_fn(""), "forms.d/.json.xz");
}
