//! The common document shape that every normalizer emits: a fixed set of
//! optional text fields, submitted downstream to an external indexer.

use vstd::prelude::*;
use vstd::utf8::{decode_utf8, valid_utf8};

verus! {

/// The mathematical shape of a normalized document: each field either
/// absent or a character sequence.
pub struct DocModel {
    pub uri: Option<Seq<char>>,
    pub title: Option<Seq<char>>,
    pub body: Option<Seq<char>>,
    pub date: Option<Seq<char>>,
    pub journal: Option<Seq<char>>,
}

/// One normalized document: the fixed field set every source format maps
/// onto.
#[derive(Debug)]
pub struct NormalizedDocument {
    pub uri: Option<String>,
    pub title: Option<String>,
    pub body: Option<String>,
    pub date: Option<String>,
    pub journal: Option<String>,
}

/// The character sequence of an optional text field.
pub open spec fn opt_view(o: Option<String>) -> Option<Seq<char>> {
    match o {
        Some(s) => Some(s@),
        None => None,
    }
}

impl View for NormalizedDocument {
    type V = DocModel;

    open spec fn view(&self) -> DocModel {
        DocModel {
            uri: opt_view(self.uri),
            title: opt_view(self.title),
            body: opt_view(self.body),
            date: opt_view(self.date),
            journal: opt_view(self.journal),
        }
    }
}

/// A document fit for submission: at least one of title and body present.
pub open spec fn doc_well_formed(d: DocModel) -> bool {
    d.title is Some || d.body is Some
}

/// Relies on `core::str::from_utf8`: it returns `Ok` exactly on valid
/// UTF-8 input, viewing the same bytes as text; stated over vstd's model
/// of the encoding (`valid_utf8`, `decode_utf8`).
#[verifier::external_body]
pub(crate) fn decode_text(bytes: &Vec<u8>) -> (r: Option<String>)
    ensures
        r is Some <==> valid_utf8(bytes@),
        r matches Some(s) ==> s@ == decode_utf8(bytes@),
{
    match core::str::from_utf8(bytes.as_slice()) {
        Ok(s) => Some(s.to_string()),
        Err(_) => None,
    }
}

} // verus!
