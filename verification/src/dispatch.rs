//! The ingestion dispatcher's decisions: which normalizer, if any, to run
//! on a file, from the declared source type, the file's extension, and its
//! 1-based position in the directory listing against the configured index
//! range.
//!
//! Opening files, decompressing them and running the chosen normalizer
//! happen outside this crate; this module fixes the policy.

use vstd::prelude::*;
use vstd::utf8::encode_utf8_decode_utf8;
use crate::document::opt_view;
use crate::scan::bytes_eq;
use crate::IngestError;

verus! {

/// The enumerated source kinds a run can declare.
#[derive(Clone, Copy, Debug, PartialEq, Eq, Structural)]
pub enum SourceKind {
    /// WARC container streams of crawled pages.
    Warc,
    /// Encyclopedia abstract-feed XML.
    AbstractFeed,
    /// Bibliographic citation XML.
    Citation,
}

/// The source kind a declared source-type token names; an unknown token is
/// the unsupported-source error, which skips a file without aborting the
/// run.
pub open spec fn spec_classify_source(source: Seq<char>) -> Result<SourceKind, IngestError> {
    if source == "WARC"@ {
        Ok(SourceKind::Warc)
    } else if source == "WIKIPEDIA_ABSTRACT"@ {
        Ok(SourceKind::AbstractFeed)
    } else if source == "ENTREZ"@ {
        Ok(SourceKind::Citation)
    } else {
        Err(IngestError::UnsupportedSource)
    }
}

/// Classify a declared source-type token, as `spec_classify_source`
/// describes.
pub fn classify_source(source: &str) -> (r: Result<SourceKind, IngestError>)
    ensures
        r == spec_classify_source(source@),
{
    if str_eq(source, "WARC") {
        Ok(SourceKind::Warc)
    } else if str_eq(source, "WIKIPEDIA_ABSTRACT") {
        Ok(SourceKind::AbstractFeed)
    } else if str_eq(source, "ENTREZ") {
        Ok(SourceKind::Citation)
    } else {
        Err(IngestError::UnsupportedSource)
    }
}

/// What the dispatcher decides for one file.
#[derive(Clone, Copy, Debug, PartialEq, Eq, Structural)]
pub enum DispatchAction {
    /// The file's 1-based index falls outside the configured range: skip
    /// it before any parsing.
    SkipOutOfRange,
    /// A compressed file whose declared source type names no normalizer:
    /// skip it, not fatally.
    SkipUnknownType,
    /// An extension that marks neither a compressed container nor a plain
    /// one: skip the file.
    SkipExtension,
    /// Run the container framer and the record normalizer, decompressing
    /// first when the file is compressed.
    ProcessWarc { compressed: bool },
    /// Parse the whole file as citation XML, after decompression.
    ProcessCitation,
    /// Parse the whole file as an abstract feed, after decompression.
    ProcessFeed,
}

/// True exactly when the two texts are equal.
pub fn str_eq(a: &str, b: &str) -> (r: bool)
    ensures
        r <==> a@ == b@,
{
    let r = bytes_eq(a.as_bytes(), b.as_bytes());
    proof {
        if r {
            encode_utf8_decode_utf8(a@);
            encode_utf8_decode_utf8(b@);
        }
    }
    r
}

/// The dispatcher's decision for one file: the index range first, then
/// the extension, then — for a compressed file — the declared source
/// type.
pub open spec fn spec_select_action(
    source: Seq<char>,
    ext: Option<Seq<char>>,
    index: int,
    from: int,
    to: int,
) -> DispatchAction {
    if index < from || index > to {
        DispatchAction::SkipOutOfRange
    } else {
        match ext {
            None => DispatchAction::SkipExtension,
            Some(x) => if x == "gz"@ {
                match spec_classify_source(source) {
                    Ok(SourceKind::Warc) => DispatchAction::ProcessWarc { compressed: true },
                    Ok(SourceKind::AbstractFeed) => DispatchAction::ProcessFeed,
                    Ok(SourceKind::Citation) => DispatchAction::ProcessCitation,
                    Err(_) => DispatchAction::SkipUnknownType,
                }
            } else if x == "wet"@ {
                DispatchAction::ProcessWarc { compressed: false }
            } else {
                DispatchAction::SkipExtension
            },
        }
    }
}

/// Decide one file, as `spec_select_action` describes.
pub fn select_action(source: &str, ext: Option<&str>, index: usize, from: usize, to: usize) -> (r:
    DispatchAction)
    ensures
        r == spec_select_action(
            source@,
            match ext {
                Some(x) => Some(x@),
                None => None,
            },
            index as int,
            from as int,
            to as int,
        ),
{
    if index < from || index > to {
        return DispatchAction::SkipOutOfRange;
    }
    match ext {
        None => DispatchAction::SkipExtension,
        Some(x) => {
            if str_eq(x, "gz") {
                match classify_source(source) {
                    Ok(SourceKind::Warc) => DispatchAction::ProcessWarc { compressed: true },
                    Ok(SourceKind::AbstractFeed) => DispatchAction::ProcessFeed,
                    Ok(SourceKind::Citation) => DispatchAction::ProcessCitation,
                    Err(_) => DispatchAction::SkipUnknownType,
                }
            } else if str_eq(x, "wet") {
                DispatchAction::ProcessWarc { compressed: false }
            } else {
                DispatchAction::SkipExtension
            }
        },
    }
}

/// Decide a whole directory listing: the ordered files of a run, each
/// identified by its optional extension and its 1-based index. A file
/// outside the index range is skipped before any other criterion; a
/// decision for one file never affects the next.
pub fn plan_files(source: &str, exts: &Vec<Option<String>>, from: usize, to: usize) -> (r: Vec<
    DispatchAction,
>)
    ensures
        r@.len() == exts@.len(),
        forall|i: int| 0 <= i < exts@.len() ==> r@[i] == spec_select_action(
            source@,
            opt_view(#[trigger] exts@[i]),
            i + 1,
            from as int,
            to as int,
        ),
{
    let mut r: Vec<DispatchAction> = Vec::new();
    let mut i: usize = 0;
    while i < exts.len()
        invariant
            i <= exts@.len(),
            r@.len() == i,
            forall|j: int| 0 <= j < i ==> r@[j] == spec_select_action(
                source@,
                opt_view(#[trigger] exts@[j]),
                j + 1,
                from as int,
                to as int,
            ),
        decreases exts@.len() - i,
    {
        let a = match &exts[i] {
            Some(x) => select_action(source, Some(x.as_str()), i + 1, from, to),
            None => select_action(source, None, i + 1, from, to),
        };
        r.push(a);
        i = i + 1;
    }
    r
}

} // verus!
