//! Citation-normalization tests: the journal requirement, the optional
//! title and abstract, and the joining of abstract fragments.

use warc_indexer::pubmed::{
    normalize_article, normalize_articles, AbstractEntry, ArticleEntry, ArticleRecord,
    JournalEntry, MedlineEntry, TextFragment,
};
use warc_indexer::IngestError;

fn article(
    title: Option<&str>,
    journal_title: Option<Option<&str>>,
    fragments: Option<Vec<Option<&str>>>,
) -> ArticleRecord {
    ArticleRecord {
        medline: Some(MedlineEntry {
            article: Some(ArticleEntry {
                title: title.map(|t| t.to_string()),
                journal: journal_title.map(|jt| JournalEntry { title: jt.map(|t| t.to_string()) }),
                abstract_text: fragments.map(|fs| AbstractEntry {
                    fragments: fs
                        .into_iter()
                        .map(|v| TextFragment { value: v.map(|t| t.to_string()) })
                        .collect(),
                }),
            }),
        }),
    }
}

#[test]
fn full_article_normalizes() {
    let a = article(
        Some("A Study"),
        Some(Some("Journal of Examples")),
        Some(vec![Some("Background."), Some("Results.")]),
    );
    let d = normalize_article(&a).expect("normalization failed");
    assert_eq!(d.title.as_deref(), Some("A Study"));
    assert_eq!(d.journal.as_deref(), Some("Journal of Examples"));
    assert_eq!(d.body.as_deref(), Some("Background.\nResults."));
    assert!(d.uri.is_none());
    assert!(d.date.is_none());
}

#[test]
fn missing_journal_element_is_fatal() {
    let a = article(Some("A Study"), None, Some(vec![Some("Text.")]));
    assert_eq!(normalize_article(&a).unwrap_err(), IngestError::MissingRequiredHeader);
}

#[test]
fn missing_journal_title_is_fatal() {
    let a = article(Some("A Study"), Some(None), Some(vec![Some("Text.")]));
    assert_eq!(normalize_article(&a).unwrap_err(), IngestError::MissingRequiredHeader);
}

#[test]
fn missing_medline_element_is_fatal() {
    let a = ArticleRecord { medline: None };
    assert_eq!(normalize_article(&a).unwrap_err(), IngestError::MissingRequiredHeader);
}

#[test]
fn missing_article_element_is_fatal() {
    let a = ArticleRecord { medline: Some(MedlineEntry { article: None }) };
    assert_eq!(normalize_article(&a).unwrap_err(), IngestError::MissingRequiredHeader);
}

#[test]
fn missing_abstract_keeps_document_without_body() {
    let a = article(Some("A Study"), Some(Some("Journal of Examples")), None);
    let d = normalize_article(&a).expect("normalization failed");
    assert_eq!(d.title.as_deref(), Some("A Study"));
    assert!(d.body.is_none());
    assert_eq!(d.journal.as_deref(), Some("Journal of Examples"));
}

#[test]
fn missing_title_keeps_document_with_body() {
    let a = article(None, Some(Some("Journal of Examples")), Some(vec![Some("Text.")]));
    let d = normalize_article(&a).expect("normalization failed");
    assert!(d.title.is_none());
    assert_eq!(d.body.as_deref(), Some("Text."));
}

#[test]
fn neither_title_nor_body_is_rejected() {
    let a = article(None, Some(Some("Journal of Examples")), None);
    assert_eq!(normalize_article(&a).unwrap_err(), IngestError::MissingRequiredHeader);
}

#[test]
fn valueless_fragments_are_skipped() {
    let a = article(
        None,
        Some(Some("Journal of Examples")),
        Some(vec![None, Some("Kept."), None, Some("Also kept.")]),
    );
    let d = normalize_article(&a).expect("normalization failed");
    assert_eq!(d.body.as_deref(), Some("Kept.\nAlso kept."));
}

#[test]
fn abstract_of_only_valueless_fragments_yields_no_body() {
    let a = article(Some("A Study"), Some(Some("Journal of Examples")), Some(vec![None, None]));
    let d = normalize_article(&a).expect("normalization failed");
    assert!(d.body.is_none());
}

#[test]
fn file_aborts_on_first_bad_article() {
    let arts = vec![
        article(Some("First"), Some(Some("Journal A")), None),
        article(Some("Second"), Some(None), None),
        article(Some("Third"), Some(Some("Journal C")), None),
    ];
    assert_eq!(normalize_articles(&arts).unwrap_err(), IngestError::MissingRequiredHeader);
}

#[test]
fn file_of_good_articles_normalizes_in_order() {
    let arts = vec![
        article(Some("First"), Some(Some("Journal A")), None),
        article(Some("Second"), Some(Some("Journal B")), Some(vec![Some("Body.")])),
    ];
    let docs = normalize_articles(&arts).expect("file failed");
    assert_eq!(docs.len(), 2);
    assert_eq!(docs[0].title.as_deref(), Some("First"));
    assert_eq!(docs[1].title.as_deref(), Some("Second"));
    assert_eq!(docs[1].body.as_deref(), Some("Body."));
}

#[test]
fn empty_file_yields_no_documents() {
    let arts: Vec<ArticleRecord> = Vec::new();
    let docs = normalize_articles(&arts).expect("file failed");
    assert!(docs.is_empty());
}
