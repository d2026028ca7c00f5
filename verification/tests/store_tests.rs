use std::io::Write;

use bo_cc::store::{parse_index, parse_manifest, remaining_warcs, IndexSession, index_line};

fn gz_member(data: &[u8]) -> Vec<u8> {
    let mut enc = flate2::write::GzEncoder::new(Vec::new(), flate2::Compression::default());
    enc.write_all(data).unwrap();
    enc.finish().unwrap()
}

#[test]
fn index_lines_split_and_strip() {
    let text = b"crawl-data/a.warc.gz\ncrawl-data/b.warc.gz\r\ncrawl-data/c.warc.gz\n";
    let lines = parse_index(text);
    assert_eq!(
        lines,
        vec![
            b"crawl-data/a.warc.gz".to_vec(),
            b"crawl-data/b.warc.gz".to_vec(),
            b"crawl-data/c.warc.gz".to_vec(),
        ]
    );
    assert_eq!(parse_index(b""), Vec::<Vec<u8>>::new());
    assert_eq!(parse_index(b"only-one"), vec![b"only-one".to_vec()]);
}

#[test]
fn index_line_format() {
    assert_eq!(index_line(b"crawl-data/a.warc.gz"), b"crawl-data/a.warc.gz\n".to_vec());
}

#[test]
fn manifest_decodes_multi_member_gzip() {
    // two gzip members back to back, as Common Crawl serves them
    let mut gz = gz_member(b"crawl-data/one.warc.gz\ncrawl-data/two.warc.gz\n");
    gz.extend_from_slice(&gz_member(b"crawl-data/three.warc.gz\n"));
    let paths = parse_manifest(&gz).expect("manifest must decompress");
    assert_eq!(
        paths,
        vec![
            b"crawl-data/one.warc.gz".to_vec(),
            b"crawl-data/two.warc.gz".to_vec(),
            b"crawl-data/three.warc.gz".to_vec(),
        ]
    );
    assert!(parse_manifest(b"not gzip").is_none());
}

#[test]
fn session_index_never_repeats() {
    let existing = vec![b"a".to_vec(), b"b".to_vec(), b"a".to_vec()];
    let mut session = IndexSession::begin(&existing);
    assert!(session.already_done(b"a"));
    assert!(session.already_done(b"b"));
    assert!(!session.already_done(b"c"));
    // a duplicate is refused, a new entry accepted
    assert!(!session.record(b"a"));
    assert!(session.record(b"c"));
    assert!(session.already_done(b"c"));
    assert!(!session.record(b"c"));
}

#[test]
fn writer_session_two_summaries() {
    // two completions recorded, a third never arrives: exactly the two
    // stand in the index, each once
    let mut session = IndexSession::begin(&Vec::new());
    assert!(session.record(b"crawl-data/one.warc.gz"));
    assert!(session.record(b"crawl-data/two.warc.gz"));
    assert!(session.already_done(b"crawl-data/one.warc.gz"));
    assert!(session.already_done(b"crawl-data/two.warc.gz"));
    assert!(!session.already_done(b"crawl-data/three.warc.gz"));
}

#[test]
fn remaining_diffs_and_dedups() {
    let manifest = vec![
        b"a".to_vec(),
        b"b".to_vec(),
        b"a".to_vec(),
        b"c".to_vec(),
    ];
    let done = vec![b"b".to_vec()];
    let rest = remaining_warcs(&manifest, &done);
    assert_eq!(rest, vec![b"a".to_vec(), b"c".to_vec()]);
}
