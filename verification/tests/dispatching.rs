//! Dispatch tests: index-range filtering, extension handling, and the
//! tolerance of unknown declared source types.

use warc_indexer::dispatch::{classify_source, plan_files, select_action, DispatchAction, SourceKind};
use warc_indexer::IngestError;

#[test]
fn source_tokens_classify() {
    assert_eq!(classify_source("WARC"), Ok(SourceKind::Warc));
    assert_eq!(classify_source("WIKIPEDIA_ABSTRACT"), Ok(SourceKind::AbstractFeed));
    assert_eq!(classify_source("ENTREZ"), Ok(SourceKind::Citation));
    assert_eq!(classify_source("MYSTERY"), Err(IngestError::UnsupportedSource));
    assert_eq!(classify_source("warc"), Err(IngestError::UnsupportedSource));
}

#[test]
fn range_filters_by_one_based_index() {
    let exts: Vec<Option<String>> = (0..10).map(|_| Some("gz".to_string())).collect();
    let plan = plan_files("WARC", &exts, 3, 5);
    assert_eq!(plan.len(), 10);
    for (i, action) in plan.iter().enumerate() {
        let index = i + 1;
        if (3..=5).contains(&index) {
            assert_eq!(*action, DispatchAction::ProcessWarc { compressed: true });
        } else {
            assert_eq!(*action, DispatchAction::SkipOutOfRange);
        }
    }
}

#[test]
fn unknown_source_type_skips_file_but_not_run() {
    let exts: Vec<Option<String>> = vec![
        Some("gz".to_string()),
        Some("gz".to_string()),
        Some("gz".to_string()),
    ];
    let plan = plan_files("MYSTERY", &exts, 0, usize::MAX);
    assert_eq!(
        plan,
        vec![
            DispatchAction::SkipUnknownType,
            DispatchAction::SkipUnknownType,
            DispatchAction::SkipUnknownType,
        ]
    );
    // The same listing with a known type processes every file: the skip is
    // per-file policy, not an abort.
    let plan = plan_files("ENTREZ", &exts, 0, usize::MAX);
    assert_eq!(
        plan,
        vec![
            DispatchAction::ProcessCitation,
            DispatchAction::ProcessCitation,
            DispatchAction::ProcessCitation,
        ]
    );
}

#[test]
fn compressed_sources_dispatch_by_declared_type() {
    assert_eq!(
        select_action("WARC", Some("gz"), 1, 0, usize::MAX),
        DispatchAction::ProcessWarc { compressed: true }
    );
    assert_eq!(
        select_action("WIKIPEDIA_ABSTRACT", Some("gz"), 1, 0, usize::MAX),
        DispatchAction::ProcessFeed
    );
    assert_eq!(
        select_action("ENTREZ", Some("gz"), 1, 0, usize::MAX),
        DispatchAction::ProcessCitation
    );
}

#[test]
fn plain_container_extension_ignores_declared_type() {
    assert_eq!(
        select_action("ENTREZ", Some("wet"), 1, 0, usize::MAX),
        DispatchAction::ProcessWarc { compressed: false }
    );
}

#[test]
fn other_extensions_and_missing_extension_are_skipped() {
    assert_eq!(
        select_action("WARC", Some("txt"), 1, 0, usize::MAX),
        DispatchAction::SkipExtension
    );
    assert_eq!(select_action("WARC", None, 1, 0, usize::MAX), DispatchAction::SkipExtension);
}

#[test]
fn range_check_precedes_every_other_criterion() {
    assert_eq!(select_action("WARC", Some("gz"), 7, 1, 5), DispatchAction::SkipOutOfRange);
    assert_eq!(select_action("MYSTERY", None, 0, 1, 5), DispatchAction::SkipOutOfRange);
}
