//! Stream-normalization tests: selective normalization of Conversion
//! records, title derivation, and the fatal conditions of the record
//! normalizer.

use warc_indexer::warc::extract_documents;
use warc_indexer::IngestError;

fn record(kind: &str, headers: &[(&str, &str)], payload: &[u8]) -> Vec<u8> {
    let mut buf = Vec::new();
    buf.extend_from_slice(b"WARC/1.0\r\n");
    buf.extend_from_slice(format!("WARC-Type: {}\r\n", kind).as_bytes());
    for (k, v) in headers {
        buf.extend_from_slice(format!("{}: {}\r\n", k, v).as_bytes());
    }
    buf.extend_from_slice(format!("Content-Length: {}\r\n", payload.len()).as_bytes());
    buf.extend_from_slice(b"\r\n");
    buf.extend_from_slice(payload);
    buf.extend_from_slice(b"\r\n\r\n");
    buf
}

fn conversion_headers<'a>() -> Vec<(&'a str, &'a str)> {
    vec![
        ("WARC-Target-URI", "http://example.com/"),
        ("WARC-Date", "2020-04-10T14:25:56Z"),
    ]
}

#[test]
fn only_conversion_records_are_normalized() {
    let mut buf = Vec::new();
    buf.extend_from_slice(&record("warcinfo", &[], b"archive metadata"));
    buf.extend_from_slice(&record(
        "conversion",
        &conversion_headers(),
        b"First Page\nbody text",
    ));
    buf.extend_from_slice(&record(
        "conversion",
        &conversion_headers(),
        b"Second Page\nmore text",
    ));
    buf.extend_from_slice(&record("metadata", &[], b"ignored"));
    let docs = extract_documents(&buf).expect("stream failed");
    assert_eq!(docs.len(), 2);
    assert_eq!(docs[0].title.as_deref(), Some("First Page"));
    assert_eq!(docs[1].title.as_deref(), Some("Second Page"));
}

#[test]
fn title_is_first_line_of_body() {
    let payload = b"Example Domain\nThis domain is for use in illustrative examples.";
    let buf = record("conversion", &conversion_headers(), payload);
    let docs = extract_documents(&buf).expect("stream failed");
    assert_eq!(docs.len(), 1);
    let doc = &docs[0];
    assert_eq!(doc.title.as_deref(), Some("Example Domain"));
    assert_eq!(
        doc.body.as_deref(),
        Some("Example Domain\nThis domain is for use in illustrative examples.")
    );
    assert_eq!(doc.uri.as_deref(), Some("http://example.com/"));
    assert_eq!(doc.date.as_deref(), Some("2020-04-10T14:25:56Z"));
    assert!(doc.journal.is_none());
}

#[test]
fn title_strips_carriage_return() {
    let payload = b"Example Domain\r\nrest";
    let buf = record("conversion", &conversion_headers(), payload);
    let docs = extract_documents(&buf).expect("stream failed");
    assert_eq!(docs[0].title.as_deref(), Some("Example Domain"));
}

#[test]
fn body_without_line_feed_is_its_own_title() {
    let buf = record("conversion", &conversion_headers(), b"Only line");
    let docs = extract_documents(&buf).expect("stream failed");
    assert_eq!(docs[0].title.as_deref(), Some("Only line"));
}

#[test]
fn multibyte_body_is_decoded() {
    let payload = "S\u{e9}ance\ntexte fran\u{e7}ais".as_bytes();
    let buf = record("conversion", &conversion_headers(), payload);
    let docs = extract_documents(&buf).expect("stream failed");
    assert_eq!(docs[0].title.as_deref(), Some("S\u{e9}ance"));
    assert_eq!(docs[0].body.as_deref(), Some("S\u{e9}ance\ntexte fran\u{e7}ais"));
}

#[test]
fn invalid_utf8_payload_is_fatal() {
    let buf = record("conversion", &conversion_headers(), &[0xff, 0xfe, 0x00]);
    assert_eq!(extract_documents(&buf).unwrap_err(), IngestError::InvalidTextEncoding);
}

#[test]
fn missing_uri_is_fatal() {
    let buf = record(
        "conversion",
        &[("WARC-Date", "2020-04-10T14:25:56Z")],
        b"text",
    );
    assert_eq!(extract_documents(&buf).unwrap_err(), IngestError::MissingRequiredHeader);
}

#[test]
fn missing_date_is_fatal() {
    let buf = record(
        "conversion",
        &[("WARC-Target-URI", "http://example.com/")],
        b"text",
    );
    assert_eq!(extract_documents(&buf).unwrap_err(), IngestError::MissingRequiredHeader);
}

#[test]
fn empty_body_is_fatal() {
    let buf = record("conversion", &conversion_headers(), b"");
    assert_eq!(extract_documents(&buf).unwrap_err(), IngestError::MissingRequiredHeader);
}

#[test]
fn empty_stream_yields_no_documents() {
    let buf: Vec<u8> = Vec::new();
    let docs = extract_documents(&buf).expect("stream failed");
    assert!(docs.is_empty());
}

#[test]
fn malformed_header_line_ends_stream_quietly() {
    let mut buf = record("conversion", &conversion_headers(), b"Kept\ntext");
    buf.extend_from_slice(b"WARC/1.0\r\ngarbage without colon\r\n");
    let docs = extract_documents(&buf).expect("stream failed");
    assert_eq!(docs.len(), 1);
    assert_eq!(docs[0].title.as_deref(), Some("Kept"));
}

#[test]
fn payload_holding_header_text_stays_payload() {
    // The payload is length-delimited, not self-terminating: bytes that
    // look like a header block inside it must not desynchronize framing.
    let tricky = b"Tricky\nWARC/1.0\r\nWARC-Type: conversion\r\n\r\n";
    let mut buf = record("conversion", &conversion_headers(), tricky);
    buf.extend_from_slice(&record("conversion", &conversion_headers(), b"Second\ntext"));
    let docs = extract_documents(&buf).expect("stream failed");
    assert_eq!(docs.len(), 2);
    assert_eq!(docs[0].title.as_deref(), Some("Tricky"));
    assert_eq!(docs[0].body.as_deref(), Some(std::str::from_utf8(tricky).unwrap()));
    assert_eq!(docs[1].title.as_deref(), Some("Second"));
}

#[test]
fn truncated_stream_is_fatal() {
    let mut buf = record("conversion", &conversion_headers(), b"Kept\ntext");
    buf.extend_from_slice(b"WARC/1.0\r\nWARC-Type: conversion\r\nContent-Length: 999\r\n\r\nshort");
    assert_eq!(extract_documents(&buf).unwrap_err(), IngestError::TruncatedPayload);
}
