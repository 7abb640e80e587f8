//! Normalization of encyclopedia abstract-feed entries: every entry of a
//! well-formed feed yields a document with its title, abstract text as the
//! body, and URL; no entry-level condition is fatal.
//!
//! The entries are the plain-value shape of a parsed feed XML document;
//! reading and parsing the XML happens outside this crate, and a document
//! that fails that whole-file parse is one fatal error for the file.

use vstd::prelude::*;
use crate::document::{doc_well_formed, DocModel, NormalizedDocument};

verus! {

/// One entry of the abstract feed.
pub struct FeedEntry {
    pub title: String,
    pub abstract_text: String,
    pub url: String,
}

/// The document one feed entry yields.
pub open spec fn spec_normalize_entry(e: FeedEntry) -> DocModel {
    DocModel {
        uri: Some(e.url@),
        title: Some(e.title@),
        body: Some(e.abstract_text@),
        date: None,
        journal: None,
    }
}

/// Every feed document carries a title, so it is fit for submission.
pub proof fn lemma_feed_doc_well_formed(e: FeedEntry)
    ensures
        doc_well_formed(spec_normalize_entry(e)),
{
}

/// Normalize one feed entry, as `spec_normalize_entry` describes.
pub fn normalize_entry(e: &FeedEntry) -> (r: NormalizedDocument)
    ensures
        r@ == spec_normalize_entry(*e),
{
    NormalizedDocument {
        uri: Some(e.url.clone()),
        title: Some(e.title.clone()),
        body: Some(e.abstract_text.clone()),
        date: None,
        journal: None,
    }
}

/// Normalize a whole feed: one document per entry, in entry order.
pub fn normalize_feed(entries: &Vec<FeedEntry>) -> (r: Vec<NormalizedDocument>)
    ensures
        r@.len() == entries@.len(),
        forall|i: int| 0 <= i < entries@.len() ==> r@[i]@ == spec_normalize_entry(
            #[trigger] entries@[i],
        ),
{
    let mut docs: Vec<NormalizedDocument> = Vec::new();
    let mut i: usize = 0;
    while i < entries.len()
        invariant
            i <= entries@.len(),
            docs@.len() == i,
            forall|j: int| 0 <= j < i ==> docs@[j]@ == spec_normalize_entry(#[trigger] entries@[j]),
        decreases entries@.len() - i,
    {
        let d = normalize_entry(&entries[i]);
        docs.push(d);
        i = i + 1;
    }
    docs
}

} // verus!
