//! Normalization of framed WARC records: only records of the Conversion
//! kind — the plain-text rendering of a crawled page — become documents;
//! every other kind is consumed and discarded.

use vstd::prelude::*;
use vstd::string::StrSliceExecFns;
use vstd::utf8::{decode_utf8, valid_utf8};
use crate::document::{decode_text, doc_well_formed, DocModel, NormalizedDocument};
use crate::framer::{date_key, date_key_bytes, header_get, HeaderScan, kind_of_name, lemma_after_line, lemma_scan_headers_bounds, length_key, RawRecord, read_record, RecordKind, RecordModel, scan_headers, SpecFrame, spec_read_record, type_key, uri_key, uri_key_bytes, version_key};
use crate::scan::{dec_value, is_dec_digits, lemma_dec_value_bounds};
use crate::IngestError;

verus! {

/// Index of the first occurrence of `c` in `s` at or after `pos`;
/// `s.len()` when there is none.
pub open spec fn char_find(s: Seq<char>, pos: int, c: char) -> int
    decreases s.len() - pos when 0 <= pos <= s.len()
{
    if pos >= s.len() {
        s.len() as int
    } else if s[pos] == c {
        pos
    } else {
        char_find(s, pos + 1, c)
    }
}

proof fn lemma_char_find(s: Seq<char>, pos: int, c: char)
    requires
        0 <= pos <= s.len(),
    ensures
        pos <= char_find(s, pos, c) <= s.len(),
        forall|i: int| pos <= i < char_find(s, pos, c) ==> s[i] != c,
        char_find(s, pos, c) < s.len() ==> s[char_find(s, pos, c)] == c,
    decreases s.len() - pos,
{
    if pos < s.len() && s[pos] != c {
        lemma_char_find(s, pos + 1, c);
    }
}

/// The first line of a text: the characters before the first line feed,
/// with one trailing carriage return removed.
pub open spec fn first_line(s: Seq<char>) -> Seq<char> {
    let l = s.subrange(0, char_find(s, 0, '\n'));
    if l.len() > 0 && l[l.len() - 1] == '\r' {
        l.drop_last()
    } else {
        l
    }
}

/// The first line of a body text, from which a Conversion record's title
/// is derived.
pub fn title_of_body(body: &String) -> (r: String)
    ensures
        r@ == first_line(body@),
{
    proof {
        lemma_char_find(body@, 0, '\n');
    }
    let s = body.as_str();
    let n = s.unicode_len();
    let mut i: usize = 0;
    while i < n && s.get_char(i) != '\n'
        invariant
            n == body@.len(),
            s@ == body@,
            i <= n,
            char_find(body@, 0, '\n') == char_find(body@, i as int, '\n'),
        decreases n - i,
    {
        i = i + 1;
    }
    proof {
        assert(char_find(body@, 0, '\n') == i);
    }
    let end = if i > 0 && s.get_char(i - 1) == '\r' {
        i - 1
    } else {
        i
    };
    let t = s.substring_char(0, end);
    proof {
        let l = body@.subrange(0, i as int);
        if i > 0 && body@[i - 1] == '\r' {
            assert(l.drop_last() =~= body@.subrange(0, i - 1));
        }
        assert(t@ == first_line(body@));
    }
    t.to_owned()
}

/// What normalization makes of one framed record.
///
/// A record of any kind but Conversion yields no document. A Conversion
/// record must carry a UTF-8 payload, a target-URI header and a date
/// header, and a non-empty body from whose first line the title is
/// derived; the checks apply in that order, and the two header values must
/// themselves be text.
pub open spec fn spec_normalize(rec: RecordModel) -> Result<Option<DocModel>, IngestError> {
    if rec.kind != RecordKind::Conversion {
        Ok(None)
    } else if !valid_utf8(rec.payload) {
        Err(IngestError::InvalidTextEncoding)
    } else if !rec.headers.contains_key(uri_key()) {
        Err(IngestError::MissingRequiredHeader)
    } else if !valid_utf8(rec.headers[uri_key()]) {
        Err(IngestError::InvalidTextEncoding)
    } else if !rec.headers.contains_key(date_key()) {
        Err(IngestError::MissingRequiredHeader)
    } else if !valid_utf8(rec.headers[date_key()]) {
        Err(IngestError::InvalidTextEncoding)
    } else if decode_utf8(rec.payload).len() == 0 {
        Err(IngestError::MissingRequiredHeader)
    } else {
        Ok(
            Some(
                DocModel {
                    uri: Some(decode_utf8(rec.headers[uri_key()])),
                    title: Some(first_line(decode_utf8(rec.payload))),
                    body: Some(decode_utf8(rec.payload)),
                    date: Some(decode_utf8(rec.headers[date_key()])),
                    journal: None,
                },
            ),
        )
    }
}

/// The model of a normalization result.
pub open spec fn norm_model(r: Result<Option<NormalizedDocument>, IngestError>) -> Result<
    Option<DocModel>,
    IngestError,
> {
    match r {
        Ok(Some(d)) => Ok(Some(d@)),
        Ok(None) => Ok(None),
        Err(e) => Err(e),
    }
}

/// Every document a Conversion record normalizes to carries a title, so
/// it is fit for submission.
pub proof fn lemma_normalized_doc_well_formed(rec: RecordModel)
    ensures
        spec_normalize(rec) matches Ok(Some(d)) ==> doc_well_formed(d),
{
}

/// Normalize one framed record, as `spec_normalize` describes.
pub fn normalize_record(rec: &RawRecord) -> (r: Result<Option<NormalizedDocument>, IngestError>)
    ensures
        norm_model(r) == spec_normalize(rec@),
{
    if !matches!(rec.kind, RecordKind::Conversion) {
        return Ok(None);
    }
    let body = match decode_text(&rec.payload) {
        Some(b) => b,
        None => {
            return Err(IngestError::InvalidTextEncoding);
        },
    };
    let uk = uri_key_bytes();
    let uri = match header_get(&rec.headers, &uk) {
        Some(v) => match decode_text(v) {
            Some(u) => u,
            None => {
                return Err(IngestError::InvalidTextEncoding);
            },
        },
        None => {
            return Err(IngestError::MissingRequiredHeader);
        },
    };
    let dk = date_key_bytes();
    let date = match header_get(&rec.headers, &dk) {
        Some(v) => match decode_text(v) {
            Some(d) => d,
            None => {
                return Err(IngestError::InvalidTextEncoding);
            },
        },
        None => {
            return Err(IngestError::MissingRequiredHeader);
        },
    };
    if body.as_str().is_empty() {
        return Err(IngestError::MissingRequiredHeader);
    }
    let title = title_of_body(&body);
    Ok(
        Some(
            NormalizedDocument {
                uri: Some(uri),
                title: Some(title),
                body: Some(body),
                date: Some(date),
                journal: None,
            },
        ),
    )
}

/// The documents a whole container stream normalizes to, reading records
/// from `pos` until end of stream. A malformed header line ends the scan
/// of the stream without error; every other framing or normalization error
/// aborts it.
pub open spec fn spec_stream_docs(s: Seq<u8>, pos: int) -> Result<Seq<DocModel>, IngestError>
    decreases s.len() - pos
        when 0 <= pos <= s.len()
        via spec_stream_docs_dec
{
    match spec_read_record(s, pos) {
        SpecFrame::End => Ok(Seq::empty()),
        SpecFrame::Abort { err } => if err == IngestError::MalformedHeaderLine {
            Ok(Seq::empty())
        } else {
            Err(err)
        },
        SpecFrame::Record { rec, next } => match spec_normalize(rec) {
            Err(e) => Err(e),
            Ok(None) => spec_stream_docs(s, next),
            Ok(Some(d)) => match spec_stream_docs(s, next) {
                Ok(rest) => Ok(seq![d] + rest),
                Err(e) => Err(e),
            },
        },
    }
}

/// A framed record ends after its starting position and within the input.
pub proof fn lemma_spec_read_record_bounds(s: Seq<u8>, pos: int)
    requires
        0 <= pos <= s.len(),
    ensures
        spec_read_record(s, pos) matches SpecFrame::Record { next, .. } ==> pos < next <= s.len(),
{
    lemma_scan_headers_bounds(s, pos, Map::empty());
    if let HeaderScan::Complete { map, next } = scan_headers(s, pos, Map::empty()) {
        if map.contains_key(version_key()) && map.contains_key(type_key()) && kind_of_name(
            map[type_key()],
        ) is Some && map.contains_key(length_key()) && is_dec_digits(map[length_key()]) && s.len()
            - next >= dec_value(map[length_key()]) {
            let cl = dec_value(map[length_key()]);
            lemma_dec_value_bounds(map[length_key()]);
            lemma_after_line(s, next + cl);
            lemma_after_line(s, crate::framer::after_line(s, next + cl));
        }
    }
}

#[via_fn]
proof fn spec_stream_docs_dec(s: Seq<u8>, pos: int) {
    lemma_spec_read_record_bounds(s, pos);
}

/// Every document a container stream normalizes to is fit for
/// submission: it carries a title or a body.
pub proof fn lemma_stream_docs_well_formed(s: Seq<u8>, pos: int)
    requires
        0 <= pos <= s.len(),
    ensures
        spec_stream_docs(s, pos) matches Ok(ds) ==> forall|i: int|
            0 <= i < ds.len() ==> doc_well_formed(#[trigger] ds[i]),
    decreases s.len() - pos,
{
    lemma_spec_read_record_bounds(s, pos);
    if let SpecFrame::Record { rec, next } = spec_read_record(s, pos) {
        lemma_normalized_doc_well_formed(rec);
        lemma_stream_docs_well_formed(s, next);
    }
}

/// Normalize a whole container stream: frame records in order and collect
/// the documents of its Conversion records, as `spec_stream_docs`
/// describes. The per-file document counter is the length of the result.
pub fn extract_documents(buf: &Vec<u8>) -> (r: Result<Vec<NormalizedDocument>, IngestError>)
    ensures
        match r {
            Ok(docs) => spec_stream_docs(buf@, 0) == Ok::<Seq<DocModel>, IngestError>(
                docs@.map_values(|d: NormalizedDocument| d@),
            ),
            Err(e) => spec_stream_docs(buf@, 0) == Err::<Seq<DocModel>, IngestError>(e),
        },
{
    let mut docs: Vec<NormalizedDocument> = Vec::new();
    let mut pos: usize = 0;
    proof {
        assert(docs@.map_values(|d: NormalizedDocument| d@) =~= Seq::<DocModel>::empty());
    }
    loop
        invariant
            pos <= buf@.len(),
            match spec_stream_docs(buf@, pos as int) {
                Ok(rest) => spec_stream_docs(buf@, 0) == Ok::<Seq<DocModel>, IngestError>(
                    docs@.map_values(|d: NormalizedDocument| d@) + rest,
                ),
                Err(e) => spec_stream_docs(buf@, 0) == Err::<Seq<DocModel>, IngestError>(e),
            },
        decreases buf@.len() - pos,
    {
        let (step, next) = read_record(buf, pos);
        match step {
            Ok(None) => {
                proof {
                    assert(docs@.map_values(|d: NormalizedDocument| d@) + Seq::<DocModel>::empty()
                        =~= docs@.map_values(|d: NormalizedDocument| d@));
                }
                return Ok(docs);
            },
            Err(e) => {
                if matches!(e, IngestError::MalformedHeaderLine) {
                    proof {
                        assert(docs@.map_values(|d: NormalizedDocument| d@) + Seq::<
                            DocModel,
                        >::empty() =~= docs@.map_values(|d: NormalizedDocument| d@));
                    }
                    return Ok(docs);
                }
                return Err(e);
            },
            Ok(Some(rec)) => {
                let ghost prev = docs@;
                match normalize_record(&rec) {
                    Err(e) => {
                        return Err(e);
                    },
                    Ok(None) => {
                        pos = next;
                    },
                    Ok(Some(d)) => {
                        docs.push(d);
                        proof {
                            assert(docs@.map_values(|x: NormalizedDocument| x@) =~= prev.map_values(
                                |x: NormalizedDocument| x@,
                            ).push(docs@.last()@));
                            if let Ok(rest) = spec_stream_docs(buf@, next as int) {
                                assert(prev.map_values(|x: NormalizedDocument| x@) + (seq![
                                    docs@.last()@,
                                ] + rest) =~= docs@.map_values(|x: NormalizedDocument| x@) + rest);
                            }
                        }
                        pos = next;
                    },
                }
            },
        }
    }
}

} // verus!
