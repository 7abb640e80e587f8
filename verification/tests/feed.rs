//! Abstract-feed normalization tests: every entry yields one document, in
//! entry order, with title, body and URI populated.

use warc_indexer::wikipedia_abstract::{normalize_entry, normalize_feed, FeedEntry};

fn entry(title: &str, abstract_text: &str, url: &str) -> FeedEntry {
    FeedEntry {
        title: title.to_string(),
        abstract_text: abstract_text.to_string(),
        url: url.to_string(),
    }
}

#[test]
fn entry_fields_map_onto_document() {
    let e = entry(
        "Wikipedia: Anarchism",
        "Anarchism is a political philosophy.",
        "https://en.wikipedia.org/wiki/Anarchism",
    );
    let d = normalize_entry(&e);
    assert_eq!(d.title.as_deref(), Some("Wikipedia: Anarchism"));
    assert_eq!(d.body.as_deref(), Some("Anarchism is a political philosophy."));
    assert_eq!(d.uri.as_deref(), Some("https://en.wikipedia.org/wiki/Anarchism"));
    assert!(d.date.is_none());
    assert!(d.journal.is_none());
}

#[test]
fn feed_keeps_entry_order() {
    let feed = vec![
        entry("One", "first", "u1"),
        entry("Two", "second", "u2"),
        entry("Three", "third", "u3"),
    ];
    let docs = normalize_feed(&feed);
    assert_eq!(docs.len(), 3);
    assert_eq!(docs[0].title.as_deref(), Some("One"));
    assert_eq!(docs[1].title.as_deref(), Some("Two"));
    assert_eq!(docs[2].title.as_deref(), Some("Three"));
    assert_eq!(docs[2].body.as_deref(), Some("third"));
    assert_eq!(docs[2].uri.as_deref(), Some("u3"));
}

#[test]
fn empty_feed_yields_no_documents() {
    let feed: Vec<FeedEntry> = Vec::new();
    assert!(normalize_feed(&feed).is_empty());
}

#[test]
fn empty_texts_are_kept_as_fields() {
    let d = normalize_entry(&entry("", "", ""));
    assert_eq!(d.title.as_deref(), Some(""));
    assert_eq!(d.body.as_deref(), Some(""));
    assert_eq!(d.uri.as_deref(), Some(""));
}
