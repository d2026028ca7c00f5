use bo_cc::analyze::from_record;
use bo_cc::warc::WarcRecord;

fn http_payload(headers: &str, body: &[u8]) -> Vec<u8> {
    let mut p = Vec::new();
    p.extend_from_slice(b"HTTP/1.1 200 OK\r\n");
    p.extend_from_slice(headers.as_bytes());
    p.extend_from_slice(b"\r\n");
    p.extend_from_slice(body);
    p
}

fn html_record(uri: &str, payload: Vec<u8>) -> WarcRecord {
    WarcRecord {
        headers: vec![
            (b"WARC-Type".to_vec(), b"response".to_vec()),
            (b"WARC-Target-URI".to_vec(), uri.as_bytes().to_vec()),
            (
                b"WARC-Identified-Payload-Type".to_vec(),
                b"text/html".to_vec(),
            ),
        ],
        content: payload,
    }
}

#[test]
fn basic_qualification() {
    let body = b"<html><body><form><input type=\"text\" pattern=\"\\d+\"></form></body></html>";
    let rec = html_record(
        "http://example.com/",
        http_payload("Content-type: text/html; charset=utf-8\r\n", body),
    );
    let s = from_record(&rec).expect("record should contribute");
    assert_eq!(s.nr_unknown_encoding, 0);
    assert_eq!(s.nr_urls_without_patterns, 0);
    assert_eq!(s.nr_forms_without_patterns, 0);
    assert_eq!(s.urls_with_pattern_forms.len(), 1);
    let u = &s.urls_with_pattern_forms[0];
    assert_eq!(u.url, "http://example.com/");
    assert_eq!(u.with_patterns.len(), 1);
    let f = &u.with_patterns[0];
    assert!(f.starts_with("<form"));
    assert!(f.ends_with("</form>"));
}

#[test]
fn three_attribute_flavors() {
    let body = "<html><body>\
        <form><input pattern=\"a\"></form>\
        <form><input data-val-regex-pattern=\"b\"></form>\
        <form><input ng-pattern=\"c\"></form>\
        <form><input name=\"plain\"></form>\
        </body></html>"
        .as_bytes();
    let rec = html_record(
        "http://example.com/three",
        http_payload("Content-type: text/html; charset=utf-8\r\n", body),
    );
    let s = from_record(&rec).expect("record should contribute");
    assert_eq!(s.urls_with_pattern_forms.len(), 1);
    assert_eq!(s.urls_with_pattern_forms[0].with_patterns.len(), 3);
    assert_eq!(s.nr_forms_without_patterns, 1);
}

#[test]
fn truncated_body_counts_as_unknown_encoding() {
    let body = b"<html><body><form><input pattern=\"x\">";
    let rec = html_record(
        "http://example.com/broken",
        http_payload("Content-type: text/html; charset=utf-8\r\n", body),
    );
    let s = from_record(&rec).expect("record should contribute");
    assert_eq!(s.nr_unknown_encoding, 1);
    assert_eq!(s.nr_urls_without_patterns, 0);
    assert_eq!(s.nr_forms_without_patterns, 0);
    assert!(s.urls_with_pattern_forms.is_empty());
}

#[test]
fn non_html_record_is_skipped() {
    let rec = WarcRecord {
        headers: vec![
            (b"WARC-Type".to_vec(), b"response".to_vec()),
            (b"WARC-Target-URI".to_vec(), b"http://example.com/img".to_vec()),
            (b"WARC-Identified-Payload-Type".to_vec(), b"image/png".to_vec()),
        ],
        content: b"\x89PNG....".to_vec(),
    };
    assert!(from_record(&rec).is_none());
}

#[test]
fn missing_payload_type_is_skipped() {
    let rec = WarcRecord {
        headers: vec![(b"WARC-Type".to_vec(), b"response".to_vec())],
        content: b"<form><input pattern=\"x\"></form>".to_vec(),
    };
    assert!(from_record(&rec).is_none());
}

#[test]
fn forms_without_trigger_count_as_url_without_patterns() {
    let body = b"<html><form><input name=\"q\"></form></html>";
    let rec = html_record(
        "http://example.com/plain",
        http_payload("Content-type: text/html; charset=utf-8\r\n", body),
    );
    let s = from_record(&rec).expect("record should contribute");
    assert_eq!(s.nr_urls_without_patterns, 1);
    assert!(s.urls_with_pattern_forms.is_empty());
}

#[test]
fn shift_jis_fallback_detection() {
    // no charset in the Content-type header: the detector gets to guess
    let text = "<html><head><title>\u{30c6}\u{30b9}\u{30c8}\u{30da}\u{30fc}\u{30b8}</title></head><body>\
        <p>\u{3053}\u{308c}\u{306f}\u{65e5}\u{672c}\u{8a9e}\u{306e}\u{30c6}\u{30ad}\u{30b9}\u{30c8}\u{3067}\u{3059}\u{3002}\
        \u{6f22}\u{5b57}\u{3068}\u{3072}\u{3089}\u{304c}\u{306a}\u{3068}\u{30ab}\u{30bf}\u{30ab}\u{30ca}\u{3002}</p>\
        <form><input pattern=\"\\d+\"></form></body></html>";
    let (encoded, _, had_errors) = encoding_rs::SHIFT_JIS.encode(text);
    assert!(!had_errors);
    let rec = html_record(
        "http://example.jp/",
        http_payload("Content-type: text/html\r\n", &encoded),
    );
    let s = from_record(&rec).expect("record should contribute");
    assert_eq!(s.urls_with_pattern_forms.len(), 1);
    let forms = &s.urls_with_pattern_forms[0].with_patterns;
    assert_eq!(forms.len(), 1);
    assert!(forms[0].len() > 0);
    assert!(forms[0].contains("</form>"));
}

#[test]
fn charset_label_is_honoured() {
    // 0xE9 is "é" in windows-1252 but invalid UTF-8
    let mut body = Vec::new();
    body.extend_from_slice(b"<html><body><p>caf\xe9</p><form><input pattern=\"x\"></form></body></html>");
    let rec = html_record(
        "http://example.com/latin",
        http_payload("Content-type: text/html; charset=windows-1252\r\n", &body),
    );
    let s = from_record(&rec).expect("record should contribute");
    assert_eq!(s.urls_with_pattern_forms.len(), 1);
    assert_eq!(s.urls_with_pattern_forms[0].with_patterns.len(), 1);
}
