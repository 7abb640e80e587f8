//! Normalization of bibliographic citation records: one document per
//! article, with the journal title required, the article title optional,
//! and the abstract fragments concatenated into one body value.
//!
//! The records are the plain-value shape of a parsed citation XML file;
//! reading and parsing the XML happens outside this crate.

use vstd::prelude::*;
use crate::document::{doc_well_formed, DocModel, NormalizedDocument, opt_view};
use crate::IngestError;

verus! {

/// One fragment of an article's abstract; its textual value may be absent.
pub struct TextFragment {
    pub value: Option<String>,
}

/// An article's abstract: an ordered run of text fragments.
pub struct AbstractEntry {
    pub fragments: Vec<TextFragment>,
}

/// An article's journal, whose title every citation must declare.
pub struct JournalEntry {
    pub title: Option<String>,
}

/// The article element of a citation.
pub struct ArticleEntry {
    pub title: Option<String>,
    pub journal: Option<JournalEntry>,
    pub abstract_text: Option<AbstractEntry>,
}

/// The citation element wrapping an article.
pub struct MedlineEntry {
    pub article: Option<ArticleEntry>,
}

/// One record of a citation file: a citation element that should wrap an
/// article.
pub struct ArticleRecord {
    pub medline: Option<MedlineEntry>,
}

/// The textual values of the fragments that carry one, in order.
pub open spec fn frag_values(fs: Seq<TextFragment>) -> Seq<Seq<char>>
    decreases fs.len(),
{
    if fs.len() == 0 {
        Seq::empty()
    } else {
        frag_values(fs.drop_last()) + match fs.last().value {
            Some(v) => seq![v@],
            None => Seq::empty(),
        }
    }
}

/// Texts joined with one line feed between consecutive paragraphs.
pub open spec fn join_lines(vs: Seq<Seq<char>>) -> Seq<char>
    decreases vs.len(),
{
    if vs.len() == 0 {
        Seq::empty()
    } else if vs.len() == 1 {
        vs[0]
    } else {
        join_lines(vs.drop_last()) + seq!['\n'] + vs.last()
    }
}

/// The body an article's abstract yields: its present fragment values as
/// joined paragraphs, or nothing when there is no abstract or no fragment
/// carries a value.
pub open spec fn spec_article_body(art: ArticleEntry) -> Option<Seq<char>> {
    match art.abstract_text {
        None => None,
        Some(ab) => if frag_values(ab.fragments@).len() == 0 {
            None
        } else {
            Some(join_lines(frag_values(ab.fragments@)))
        },
    }
}

/// What normalization makes of one citation record.
///
/// The citation and article elements and the journal title are required;
/// their absence is the missing-required-field error. The article title
/// and the abstract are optional, but a document must keep at least one of
/// title and body, so a record with neither is rejected the same way.
pub open spec fn spec_normalize_article(a: ArticleRecord) -> Result<DocModel, IngestError> {
    match a.medline {
        None => Err(IngestError::MissingRequiredHeader),
        Some(ml) => match ml.article {
            None => Err(IngestError::MissingRequiredHeader),
            Some(art) => match art.journal {
                None => Err(IngestError::MissingRequiredHeader),
                Some(j) => match j.title {
                    None => Err(IngestError::MissingRequiredHeader),
                    Some(jt) => if art.title is None && spec_article_body(art) is None {
                        Err(IngestError::MissingRequiredHeader)
                    } else {
                        Ok(
                            DocModel {
                                uri: None,
                                title: opt_view(art.title),
                                body: spec_article_body(art),
                                date: None,
                                journal: Some(jt@),
                            },
                        )
                    },
                },
            },
        },
    }
}

/// The documents of a whole citation file, in article order; the first
/// failing article aborts the run.
pub open spec fn spec_normalize_set(arts: Seq<ArticleRecord>) -> Result<Seq<DocModel>, IngestError>
    decreases arts.len(),
{
    if arts.len() == 0 {
        Ok(Seq::empty())
    } else {
        match spec_normalize_set(arts.drop_last()) {
            Err(e) => Err(e),
            Ok(ds) => match spec_normalize_article(arts.last()) {
                Err(e) => Err(e),
                Ok(d) => Ok(ds.push(d)),
            },
        }
    }
}

/// Every document a citation record normalizes to keeps a title or a
/// body, so it is fit for submission.
pub proof fn lemma_citation_doc_well_formed(a: ArticleRecord)
    ensures
        spec_normalize_article(a) matches Ok(d) ==> doc_well_formed(d),
{
}

/// Every document a citation file normalizes to is fit for submission:
/// it carries a title or a body.
pub proof fn lemma_set_docs_well_formed(arts: Seq<ArticleRecord>)
    ensures
        spec_normalize_set(arts) matches Ok(ds) ==> forall|i: int|
            0 <= i < ds.len() ==> doc_well_formed(#[trigger] ds[i]),
    decreases arts.len(),
{
    if arts.len() > 0 {
        lemma_set_docs_well_formed(arts.drop_last());
        lemma_citation_doc_well_formed(arts.last());
    }
}

/// A record whose journal title is missing — the journal element absent,
/// or carrying no title — is rejected as missing a required field.
pub proof fn lemma_journal_required(a: ArticleRecord)
    requires
        a.medline matches Some(ml) && ml.article matches Some(art) && (art.journal is None || (
        art.journal matches Some(j) && j.title is None)),
    ensures
        spec_normalize_article(a) == Err::<DocModel, IngestError>(IngestError::MissingRequiredHeader),
{
}

/// A record missing only its abstract still yields a document, with the
/// body absent.
pub proof fn lemma_abstract_optional(a: ArticleRecord)
    requires
        a.medline matches Some(ml) && ml.article matches Some(art) && art.journal matches Some(j)
            && art.title is Some && art.abstract_text is None && j.title is Some,
    ensures
        spec_normalize_article(a) matches Ok(d) && d.body is None && d.title is Some && d.journal is Some,
{
}

/// Once one article of a file fails, the whole file's normalization fails
/// with that article's error, whatever follows it.
pub proof fn lemma_first_error_aborts(arts: Seq<ArticleRecord>, i: int, j: int, e: IngestError)
    requires
        0 <= i < j <= arts.len(),
        spec_normalize_set(arts.subrange(0, i)) is Ok,
        spec_normalize_article(arts[i]) == Err::<DocModel, IngestError>(e),
    ensures
        spec_normalize_set(arts.subrange(0, j)) == Err::<Seq<DocModel>, IngestError>(e),
    decreases j,
{
    if j == i + 1 {
        assert(arts.subrange(0, j).drop_last() =~= arts.subrange(0, i));
        assert(arts.subrange(0, j).last() == arts[i]);
    } else {
        lemma_first_error_aborts(arts, i, j - 1, e);
        assert(arts.subrange(0, j).drop_last() =~= arts.subrange(0, j - 1));
    }
}

/// A file holding an article whose journal title is missing, after
/// articles that normalize, aborts the whole run with the
/// missing-required-field error.
pub proof fn lemma_run_aborts_on_missing_journal(arts: Seq<ArticleRecord>, i: int)
    requires
        0 <= i < arts.len(),
        spec_normalize_set(arts.subrange(0, i)) is Ok,
        arts[i].medline matches Some(ml) && ml.article matches Some(art) && (art.journal is None
            || (art.journal matches Some(j) && j.title is None)),
    ensures
        spec_normalize_set(arts) == Err::<Seq<DocModel>, IngestError>(
            IngestError::MissingRequiredHeader,
        ),
{
    lemma_journal_required(arts[i]);
    lemma_first_error_aborts(arts, i, arts.len() as int, IngestError::MissingRequiredHeader);
    assert(arts.subrange(0, arts.len() as int) =~= arts);
}

/// The body of one article: its present abstract fragment values joined
/// as paragraphs, as `spec_article_body` describes.
fn article_body(art: &ArticleEntry) -> (r: Option<String>)
    ensures
        opt_view(r) == spec_article_body(*art),
{
    let ab = match &art.abstract_text {
        Some(ab) => ab,
        None => {
            return None;
        },
    };
    let mut acc = String::new();
    let mut any = false;
    let mut i: usize = 0;
    proof {
        assert(ab.fragments@.subrange(0, 0) =~= Seq::<TextFragment>::empty());
    }
    while i < ab.fragments.len()
        invariant
            i <= ab.fragments@.len(),
            any <==> frag_values(ab.fragments@.subrange(0, i as int)).len() > 0,
            any ==> acc@ == join_lines(frag_values(ab.fragments@.subrange(0, i as int))),
            !any ==> acc@ == Seq::<char>::empty(),
        decreases ab.fragments@.len() - i,
    {
        let ghost pre = ab.fragments@.subrange(0, i as int);
        let ghost vals = frag_values(pre);
        proof {
            assert(ab.fragments@.subrange(0, i + 1).drop_last() =~= pre);
            assert(ab.fragments@.subrange(0, i + 1).last() == ab.fragments@[i as int]);
        }
        match &ab.fragments[i].value {
            Some(v) => {
                proof {
                    assert(frag_values(ab.fragments@.subrange(0, i + 1)) =~= vals.push(v@));
                    reveal_strlit("\n");
                    assert("\n"@ =~= seq!['\n']);
                }
                if any {
                    acc.append("\n");
                    acc.append(v.as_str());
                    proof {
                        assert(vals.push(v@).drop_last() =~= vals);
                        assert(vals.push(v@).len() >= 2);
                        assert(acc@ =~= join_lines(vals.push(v@)));
                    }
                } else {
                    acc.append(v.as_str());
                    proof {
                        assert(vals.push(v@).len() == 1);
                        assert(acc@ =~= v@);
                        assert(join_lines(vals.push(v@)) == vals.push(v@)[0]);
                    }
                }
                any = true;
            },
            None => {
                proof {
                    assert(frag_values(ab.fragments@.subrange(0, i + 1)) =~= vals);
                }
            },
        }
        i = i + 1;
    }
    proof {
        assert(ab.fragments@.subrange(0, ab.fragments@.len() as int) =~= ab.fragments@);
    }
    if any {
        Some(acc)
    } else {
        None
    }
}

/// Normalize one citation record, as `spec_normalize_article` describes.
pub fn normalize_article(a: &ArticleRecord) -> (r: Result<NormalizedDocument, IngestError>)
    ensures
        match r {
            Ok(d) => spec_normalize_article(*a) == Ok::<DocModel, IngestError>(d@),
            Err(e) => spec_normalize_article(*a) == Err::<DocModel, IngestError>(e),
        },
{
    let ml = match &a.medline {
        Some(ml) => ml,
        None => {
            return Err(IngestError::MissingRequiredHeader);
        },
    };
    let art = match &ml.article {
        Some(art) => art,
        None => {
            return Err(IngestError::MissingRequiredHeader);
        },
    };
    let journal = match &art.journal {
        Some(j) => match &j.title {
            Some(jt) => jt.clone(),
            None => {
                return Err(IngestError::MissingRequiredHeader);
            },
        },
        None => {
            return Err(IngestError::MissingRequiredHeader);
        },
    };
    let title = match &art.title {
        Some(t) => Some(t.clone()),
        None => None,
    };
    let body = article_body(art);
    if matches!(title, None) && matches!(body, None) {
        return Err(IngestError::MissingRequiredHeader);
    }
    Ok(
        NormalizedDocument {
            uri: None,
            title,
            body,
            date: None,
            journal: Some(journal),
        },
    )
}

/// Normalize a whole citation file: one document per article, in order,
/// aborting on the first failing article, as `spec_normalize_set`
/// describes.
pub fn normalize_articles(arts: &Vec<ArticleRecord>) -> (r: Result<Vec<NormalizedDocument>, IngestError>)
    ensures
        match r {
            Ok(docs) => spec_normalize_set(arts@) == Ok::<Seq<DocModel>, IngestError>(
                docs@.map_values(|d: NormalizedDocument| d@),
            ),
            Err(e) => spec_normalize_set(arts@) == Err::<Seq<DocModel>, IngestError>(e),
        },
{
    let mut docs: Vec<NormalizedDocument> = Vec::new();
    let mut i: usize = 0;
    proof {
        assert(arts@.subrange(0, 0) =~= Seq::<ArticleRecord>::empty());
        assert(docs@.map_values(|d: NormalizedDocument| d@) =~= Seq::<DocModel>::empty());
    }
    while i < arts.len()
        invariant
            i <= arts@.len(),
            spec_normalize_set(arts@.subrange(0, i as int)) == Ok::<Seq<DocModel>, IngestError>(
                docs@.map_values(|d: NormalizedDocument| d@),
            ),
        decreases arts@.len() - i,
    {
        let ghost pre = arts@.subrange(0, i as int);
        proof {
            assert(arts@.subrange(0, i + 1).drop_last() =~= pre);
            assert(arts@.subrange(0, i + 1).last() == arts@[i as int]);
        }
        match normalize_article(&arts[i]) {
            Ok(d) => {
                let ghost prev = docs@;
                docs.push(d);
                proof {
                    assert(docs@.map_values(|x: NormalizedDocument| x@) =~= prev.map_values(
                        |x: NormalizedDocument| x@,
                    ).push(docs@.last()@));
                }
            },
            Err(e) => {
                proof {
                    lemma_first_error_aborts(arts@, i as int, arts@.len() as int, e);
                    assert(arts@.subrange(0, arts@.len() as int) =~= arts@);
                }
                return Err(e);
            },
        }
        i = i + 1;
    }
    proof {
        assert(arts@.subrange(0, arts@.len() as int) =~= arts@);
    }
    Ok(docs)
}

} // verus!
