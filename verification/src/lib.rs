//! Record framing and normalization for heterogeneous archival corpora.
//!
//! The library recovers length-delimited records from a WARC container byte
//! stream, normalizes records from three source formats (WARC conversion
//! records, bibliographic citation XML, encyclopedia abstract feeds) into a
//! common document shape, and decides, per input file, which normalizer to
//! run. I/O, decompression, XML deserialization and the indexing backend live
//! outside this crate; the library works on plain bytes and strings.

use vstd::prelude::*;

pub mod dispatch;
pub mod document;
pub mod framer;
pub mod pubmed;
pub mod scan;
pub mod serialize;
pub mod warc;
pub mod wikipedia_abstract;

verus! {

/// Error taxonomy for framing and normalization.
///
/// Fatal variants abort the processing of a whole run; `MalformedHeaderLine`
/// aborts only the current record scan (the caller treats it as end of
/// stream), and `UnsupportedSource` only skips one file.
#[derive(Clone, Copy, Debug, PartialEq, Eq, Structural)]
pub enum IngestError {
    /// A header line that is neither `key: value`, the version marker, nor
    /// blank; or a header block that ends before any header was seen.
    MalformedHeaderLine,
    /// A required header or record field is missing (version marker,
    /// `WARC-Type`, `Content-Length`, or a per-record required field).
    MissingRequiredHeader,
    /// The `WARC-Type` value names no known record kind.
    UnknownRecordKind,
    /// Fewer payload bytes are available than `Content-Length` declared.
    TruncatedPayload,
    /// Bytes expected to be text are not valid UTF-8.
    InvalidTextEncoding,
    /// A whole-document XML parse failed.
    StructuredParseFailure,
    /// The declared source type matches no normalizer.
    UnsupportedSource,
}

} // verus!
