//! Framing tests: round-trip serialization, truncation detection, and the
//! framer's error taxonomy on malformed streams.

use warc_indexer::framer::{header_get, read_record, RecordKind};
use warc_indexer::serialize::serialize_record;
use warc_indexer::IngestError;

fn entry(k: &str, v: &str) -> (Vec<u8>, Vec<u8>) {
    (k.as_bytes().to_vec(), v.as_bytes().to_vec())
}

#[test]
fn round_trip_recovers_record() {
    let payload: Vec<u8> = b"Example Domain\nThis domain is for use in examples.".to_vec();
    let entries: Vec<(Vec<u8>, Vec<u8>)> = vec![
        entry("WARC", "1.0"),
        entry("WARC-Type", "conversion"),
        entry("WARC-Target-URI", "http://example.com/"),
        entry("WARC-Date", "2020-04-10T14:25:56Z"),
        entry("Content-Length", "50"),
    ];
    assert_eq!(payload.len(), 50);
    let buf = serialize_record(&entries, &payload);
    let (res, next) = read_record(&buf, 0);
    let rec = res.expect("framing failed").expect("no record");
    assert_eq!(rec.kind, RecordKind::Conversion);
    assert_eq!(rec.payload, payload);
    assert_eq!(next, buf.len());
    for (k, v) in &entries {
        let got = header_get(&rec.headers, k).expect("header lost");
        assert_eq!(got, v);
    }
    assert_eq!(rec.version, b"1.0".to_vec());
}

#[test]
fn round_trip_empty_payload() {
    let payload: Vec<u8> = Vec::new();
    let entries: Vec<(Vec<u8>, Vec<u8>)> = vec![
        entry("WARC", "1.0"),
        entry("WARC-Type", "warcinfo"),
        entry("Content-Length", "0"),
    ];
    let buf = serialize_record(&entries, &payload);
    let (res, _) = read_record(&buf, 0);
    let rec = res.expect("framing failed").expect("no record");
    assert_eq!(rec.kind, RecordKind::WarcInfo);
    assert!(rec.payload.is_empty());
}

#[test]
fn last_header_value_wins() {
    let payload: Vec<u8> = b"x".to_vec();
    let buf =
        b"WARC/1.0\r\nWARC-Type: metadata\r\nA: first\r\nA: second\r\nContent-Length: 1\r\n\r\nx\r\n\r\n"
            .to_vec();
    let (res, _) = read_record(&buf, 0);
    let rec = res.expect("framing failed").expect("no record");
    assert_eq!(rec.payload, payload);
    let got = header_get(&rec.headers, &b"A".to_vec()).expect("header missing");
    assert_eq!(got, &b"second".to_vec());
}

#[test]
fn truncation_is_detected() {
    let buf = b"WARC/1.0\r\nWARC-Type: conversion\r\nContent-Length: 100\r\n\r\nshort".to_vec();
    let (res, _) = read_record(&buf, 0);
    assert_eq!(res.unwrap_err(), IngestError::TruncatedPayload);
}

#[test]
fn truncated_serialized_record_is_detected() {
    let payload: Vec<u8> = b"0123456789".to_vec();
    let entries: Vec<(Vec<u8>, Vec<u8>)> = vec![
        entry("WARC", "1.0"),
        entry("WARC-Type", "conversion"),
        entry("Content-Length", "10"),
    ];
    let buf = serialize_record(&entries, &payload);
    // Cut the separator and the payload's last byte off the stream.
    let cut = buf[..buf.len() - 5].to_vec();
    let (res, _) = read_record(&cut, 0);
    assert_eq!(res.unwrap_err(), IngestError::TruncatedPayload);
}

#[test]
fn oversized_declared_length_is_truncation() {
    let buf =
        b"WARC/1.0\r\nWARC-Type: conversion\r\nContent-Length: 99999999999999999999999999\r\n\r\nshort"
            .to_vec();
    let (res, _) = read_record(&buf, 0);
    assert_eq!(res.unwrap_err(), IngestError::TruncatedPayload);
}

#[test]
fn end_of_stream_yields_no_record() {
    let buf: Vec<u8> = Vec::new();
    let (res, _) = read_record(&buf, 0);
    assert!(res.unwrap().is_none());
}

#[test]
fn missing_separator_at_end_of_stream_is_tolerated() {
    let buf = b"WARC/1.0\r\nWARC-Type: resource\r\nContent-Length: 3\r\n\r\nabc".to_vec();
    let (res, next) = read_record(&buf, 0);
    let rec = res.expect("framing failed").expect("no record");
    assert_eq!(rec.payload, b"abc".to_vec());
    assert_eq!(next, buf.len());
}

#[test]
fn malformed_header_line_aborts_scan() {
    let buf = b"WARC/1.0\r\nnot a header line\r\n".to_vec();
    let (res, _) = read_record(&buf, 0);
    assert_eq!(res.unwrap_err(), IngestError::MalformedHeaderLine);
}

#[test]
fn blank_line_before_any_header_is_malformed() {
    let buf = b"\r\nWARC/1.0\r\n".to_vec();
    let (res, _) = read_record(&buf, 0);
    assert_eq!(res.unwrap_err(), IngestError::MalformedHeaderLine);
}

#[test]
fn missing_version_marker_is_required() {
    let buf = b"WARC-Type: conversion\r\nContent-Length: 0\r\n\r\n\r\n\r\n".to_vec();
    let (res, _) = read_record(&buf, 0);
    assert_eq!(res.unwrap_err(), IngestError::MissingRequiredHeader);
}

#[test]
fn missing_type_is_required() {
    let buf = b"WARC/1.0\r\nContent-Length: 0\r\n\r\n\r\n\r\n".to_vec();
    let (res, _) = read_record(&buf, 0);
    assert_eq!(res.unwrap_err(), IngestError::MissingRequiredHeader);
}

#[test]
fn missing_length_is_required() {
    let buf = b"WARC/1.0\r\nWARC-Type: conversion\r\n\r\n\r\n\r\n".to_vec();
    let (res, _) = read_record(&buf, 0);
    assert_eq!(res.unwrap_err(), IngestError::MissingRequiredHeader);
}

#[test]
fn non_numeric_length_is_rejected() {
    let buf = b"WARC/1.0\r\nWARC-Type: conversion\r\nContent-Length: ten\r\n\r\n\r\n\r\n".to_vec();
    let (res, _) = read_record(&buf, 0);
    assert_eq!(res.unwrap_err(), IngestError::MissingRequiredHeader);
}

#[test]
fn unknown_record_kind_is_fatal() {
    let buf = b"WARC/1.0\r\nWARC-Type: movie\r\nContent-Length: 0\r\n\r\n\r\n\r\n".to_vec();
    let (res, _) = read_record(&buf, 0);
    assert_eq!(res.unwrap_err(), IngestError::UnknownRecordKind);
}

#[test]
fn header_sides_are_trimmed() {
    let buf = b"WARC/1.0\r\nWARC-Type:   resource  \r\n  Content-Length  : 0\r\n\r\n\r\n\r\n".to_vec();
    let (res, _) = read_record(&buf, 0);
    let rec = res.expect("framing failed").expect("no record");
    assert_eq!(rec.kind, RecordKind::Resource);
    assert!(rec.payload.is_empty());
}

#[test]
fn all_kind_names_resolve() {
    let cases: Vec<(&str, RecordKind)> = vec![
        ("warcinfo", RecordKind::WarcInfo),
        ("response", RecordKind::Response),
        ("resource", RecordKind::Resource),
        ("request", RecordKind::Request),
        ("metadata", RecordKind::Metadata),
        ("revisit", RecordKind::Revisit),
        ("conversion", RecordKind::Conversion),
        ("continuation", RecordKind::Continuation),
    ];
    for (name, kind) in cases {
        let buf = format!("WARC/1.0\r\nWARC-Type: {}\r\nContent-Length: 0\r\n\r\n\r\n\r\n", name)
            .into_bytes();
        let (res, _) = read_record(&buf, 0);
        let rec = res.expect("framing failed").expect("no record");
        assert_eq!(rec.kind, kind);
    }
}
