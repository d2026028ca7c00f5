use bo_cc::analyze::summarize_stream;
use bo_cc::warc::{next_record, WarcStep};

fn frame(version: &str, warc_headers: &[(&str, &str)], payload: &[u8]) -> Vec<u8> {
    let mut out = Vec::new();
    out.extend_from_slice(version.as_bytes());
    out.extend_from_slice(b"\r\n");
    for (k, v) in warc_headers {
        out.extend_from_slice(k.as_bytes());
        out.extend_from_slice(b": ");
        out.extend_from_slice(v.as_bytes());
        out.extend_from_slice(b"\r\n");
    }
    out.extend_from_slice(
        format!("Content-Length: {}\r\n", payload.len()).as_bytes(),
    );
    out.extend_from_slice(b"\r\n");
    out.extend_from_slice(payload);
    out.extend_from_slice(b"\r\n\r\n");
    out
}

fn response_payload(body: &[u8]) -> Vec<u8> {
    let mut p = Vec::new();
    p.extend_from_slice(b"HTTP/1.1 200 OK\r\nContent-type: text/html; charset=utf-8\r\n\r\n");
    p.extend_from_slice(body);
    p
}

#[test]
fn frames_one_record() {
    let payload = b"hello world";
    let buf = frame(
        "WARC/1.0",
        &[("WARC-Type", "response"), ("WARC-Target-URI", "http://x/")],
        payload,
    );
    match next_record(&buf, 0) {
        WarcStep::Record(rec, next) => {
            assert_eq!(rec.content, payload.to_vec());
            assert_eq!(next, buf.len());
            let mut found = false;
            for (k, v) in &rec.headers {
                if k == b"WARC-Type" {
                    assert_eq!(v, b"response");
                    found = true;
                }
            }
            assert!(found);
        },
        _ => panic!("expected a record"),
    }
}

#[test]
fn foreign_version_is_skipped() {
    let payload = b"data";
    let mut buf = frame("WARC/0.9", &[("WARC-Type", "response")], payload);
    let good = frame(
        "WARC/1.1",
        &[("WARC-Type", "response"), ("WARC-Target-URI", "http://y/")],
        payload,
    );
    let skip_at = buf.len();
    buf.extend_from_slice(&good);
    match next_record(&buf, 0) {
        WarcStep::Skip(next) => {
            assert_eq!(next, skip_at);
            match next_record(&buf, next) {
                WarcStep::Record(_, n2) => assert_eq!(n2, buf.len()),
                _ => panic!("expected the second record"),
            }
        },
        _ => panic!("expected a skip"),
    }
}

#[test]
fn truncated_record_ends_stream() {
    let payload = b"0123456789";
    let full = frame("WARC/1.0", &[("WARC-Type", "response")], payload);
    // cut the body short
    let cut = &full[..full.len() - 8];
    match next_record(cut, 0) {
        WarcStep::Done => {},
        _ => panic!("expected a clean end"),
    }
}

#[test]
fn garbage_ends_stream() {
    match next_record(b"not a warc at all", 0) {
        WarcStep::Done => {},
        _ => panic!("expected a clean end"),
    }
}

#[test]
fn stream_counters_sum_to_considered_records() {
    // one qualifying, one without patterns, one broken, one non-response
    let q = response_payload(b"<html><form><input pattern=\"a\"></form></html>");
    let w = response_payload(b"<html><p>no forms</p></html>");
    let b = response_payload(b"<html><form><input pattern=\"x\">");
    let mut buf = Vec::new();
    buf.extend_from_slice(&frame(
        "WARC/1.0",
        &[
            ("WARC-Type", "response"),
            ("WARC-Target-URI", "http://one/"),
            ("WARC-Identified-Payload-Type", "text/html"),
        ],
        &q,
    ));
    buf.extend_from_slice(&frame(
        "WARC/1.0",
        &[
            ("WARC-Type", "response"),
            ("WARC-Target-URI", "http://two/"),
            ("WARC-Identified-Payload-Type", "text/html"),
        ],
        &w,
    ));
    buf.extend_from_slice(&frame(
        "WARC/1.0",
        &[
            ("WARC-Type", "response"),
            ("WARC-Target-URI", "http://three/"),
            ("WARC-Identified-Payload-Type", "text/html"),
        ],
        &b,
    ));
    buf.extend_from_slice(&frame(
        "WARC/1.0",
        &[("WARC-Type", "request"), ("WARC-Target-URI", "http://one/")],
        b"GET / HTTP/1.1\r\n\r\n",
    ));
    let s = summarize_stream(&buf);
    assert_eq!(s.nr_unknown_encoding, 1);
    assert_eq!(s.nr_urls_without_patterns, 1);
    assert_eq!(s.urls_with_pattern_forms.len(), 1);
    assert_eq!(s.urls_with_pattern_forms[0].url, "http://one/");
    // counter sum equals the three considered records
    assert_eq!(
        s.nr_unknown_encoding
            + s.nr_urls_without_patterns
            + s.urls_with_pattern_forms.len() as i64,
        3
    );
}

#[test]
fn malformed_record_is_skipped_mid_stream() {
    // a record whose header block cannot be parsed (no colon), then a
    // well-formed response record: the framer resynchronizes at the
    // next record boundary instead of ending the stream
    let mut buf = Vec::new();
    buf.extend_from_slice(b"WARC/1.0\r\nthis header line has no colon\r\n\r\njunk bytes\r\n");
    let good_at = buf.len();
    let good = frame(
        "WARC/1.1",
        &[
            ("WARC-Type", "response"),
            ("WARC-Target-URI", "http://after-skip/"),
            ("WARC-Identified-Payload-Type", "text/html"),
        ],
        &response_payload(b"<html><form><input pattern=\"z\"></form></html>"),
    );
    buf.extend_from_slice(&good);
    match next_record(&buf, 0) {
        WarcStep::Skip(next) => {
            assert_eq!(next, good_at);
            match next_record(&buf, next) {
                WarcStep::Record(_, n2) => assert_eq!(n2, buf.len()),
                _ => panic!("expected the good record after the skip"),
            }
        },
        _ => panic!("expected a skip over the malformed record"),
    }
    // and the reducer sees the good record
    let s = summarize_stream(&buf);
    assert_eq!(s.urls_with_pattern_forms.len(), 1);
    assert_eq!(s.urls_with_pattern_forms[0].url, "http://after-skip/");
}

#[test]
fn missing_content_length_is_skipped() {
    let mut buf = Vec::new();
    buf.extend_from_slice(b"WARC/1.0\r\nWARC-Type: response\r\n\r\n");
    let good_at = buf.len();
    buf.extend_from_slice(&frame(
        "WARC/1.0",
        &[("WARC-Type", "response")],
        b"payload",
    ));
    match next_record(&buf, 0) {
        WarcStep::Skip(next) => assert_eq!(next, good_at),
        _ => panic!("expected a skip over the record without a length"),
    }
    // a malformed record with nothing after it ends the stream
    let lone = b"WARC/1.0\r\nno colon\r\n\r\nrest";
    match next_record(lone, 0) {
        WarcStep::Done => {},
        _ => panic!("expected a clean end"),
    }
}
