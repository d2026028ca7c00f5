//! Mining Common Crawl WARC archives for HTML forms that carry
//! client-side validation patterns.
//!
//! The library holds the verified core of the pipeline: WARC framing,
//! HTTP header splitting, charset-label extraction, form qualification
//! and extraction, the archive-summary monoid, the canonical JSON
//! storage format, the index bookkeeping and the polite fetcher's
//! backoff state machine.  Network and file I/O live outside.

pub mod analyze;
pub mod bytes;
pub mod dec;
pub mod decode;
pub mod dom;
pub mod extract;
pub mod fetch;
pub mod http;
pub mod json;
pub mod query;
pub mod store;
pub mod summary;
pub mod tally;
pub mod text;
pub mod warc;
