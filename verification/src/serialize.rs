//! Serialization of framed records into the container text form, and the
//! proof that framing recovers what serialization wrote: an equal header
//! mapping, an equal record kind, and a byte-identical payload.

use vstd::prelude::*;
use crate::scan::{bytes_eq, dec_value, find_from, is_dec_digits, is_ws, lemma_find_from, trim_stable, trim_ws, ws_prefix_end, ws_suffix_start};
use crate::framer::{after_line, as_map, has_colon, HeaderScan, kind_of_name, kv_key, kv_value, length_key, line_at, line_end, RecordKind, RecordModel, scan_headers, SpecFrame, spec_read_record, type_key, version_key, version_key_bytes, version_marker, version_marker_bytes, version_value};
use crate::IngestError;

verus! {

/// The two-byte line terminator of the container's text lines.
pub open spec fn crlf() -> Seq<u8> {
    seq![13u8, 10u8]
}

/// One serialized `key: value` header line.
pub open spec fn kv_line_bytes(k: Seq<u8>, v: Seq<u8>) -> Seq<u8> {
    k + seq![58u8, 32u8] + v + crlf()
}

/// The serialized header lines for the entries from `i` on. Entries under
/// the synthetic `WARC` key are not written: the version marker line
/// carries them.
pub open spec fn header_lines_bytes(e: Seq<(Vec<u8>, Vec<u8>)>, i: int) -> Seq<u8>
    decreases e.len() - i when 0 <= i <= e.len()
{
    if i >= e.len() {
        Seq::empty()
    } else if e[i].0@ == version_key() {
        header_lines_bytes(e, i + 1)
    } else {
        kv_line_bytes(e[i].0@, e[i].1@) + header_lines_bytes(e, i + 1)
    }
}

/// A whole serialized record: the version marker line, the header lines,
/// the blank line closing the header block, the payload, and the
/// two-blank-line record separator.
pub open spec fn frame_bytes(e: Seq<(Vec<u8>, Vec<u8>)>, payload: Seq<u8>) -> Seq<u8> {
    version_marker() + crlf() + header_lines_bytes(e, 0) + crlf() + payload + crlf() + crlf()
}

/// A serialized record whose payload was cut short: the stream ends before
/// the declared length is reached.
pub open spec fn truncated_frame_bytes(e: Seq<(Vec<u8>, Vec<u8>)>, payload: Seq<u8>) -> Seq<u8> {
    version_marker() + crlf() + header_lines_bytes(e, 0) + crlf() + payload
}

/// A header key that serialization can carry through a `key: value` line:
/// trim-stable and free of line breaks and colons.
pub open spec fn clean_key(k: Seq<u8>) -> bool {
    trim_stable(k) && forall|i: int| 0 <= i < k.len() ==> #[trigger] k[i] != 10 && k[i] != 13 && k[i] != 58
}

/// A header value that serialization can carry: trim-stable and free of
/// line breaks.
pub open spec fn clean_value(v: Seq<u8>) -> bool {
    trim_stable(v) && forall|i: int| 0 <= i < v.len() ==> #[trigger] v[i] != 10 && v[i] != 13
}

/// Entries whose keys and values serialization can carry.
pub open spec fn clean_entries(e: Seq<(Vec<u8>, Vec<u8>)>) -> bool {
    forall|j: int| 0 <= j < e.len() ==> clean_key(#[trigger] e[j].0@) && clean_value(e[j].1@)
}

/// The mapping after inserting the entries from `i` on, in order.
pub open spec fn insert_all(m: Map<Seq<u8>, Seq<u8>>, e: Seq<(Vec<u8>, Vec<u8>)>, i: int) -> Map<Seq<u8>, Seq<u8>>
    decreases e.len() - i when 0 <= i <= e.len()
{
    if i >= e.len() {
        m
    } else {
        insert_all(m.insert(e[i].0@, e[i].1@), e, i + 1)
    }
}

/// Inserting a suffix of the entries onto the mapping of the matching
/// prefix yields the mapping of the whole entry list.
proof fn lemma_insert_all_as_map(e: Seq<(Vec<u8>, Vec<u8>)>, i: int)
    requires
        0 <= i <= e.len(),
    ensures
        insert_all(as_map(e.subrange(0, i)), e, i) == as_map(e),
    decreases e.len() - i,
{
    if i < e.len() {
        assert(e.subrange(0, i + 1).drop_last() =~= e.subrange(0, i));
        assert(e.subrange(0, i + 1).last() == e[i]);
        lemma_insert_all_as_map(e, i + 1);
    } else {
        assert(e.subrange(0, i) =~= e);
    }
}

/// A prior binding for a key that some later entry rebinds does not affect
/// the final mapping.
proof fn lemma_insert_all_absorb(m: Map<Seq<u8>, Seq<u8>>, e: Seq<(Vec<u8>, Vec<u8>)>, i: int, k: Seq<u8>, v: Seq<u8>)
    requires
        0 <= i <= e.len(),
        exists|j: int| i <= j < e.len() && #[trigger] e[j].0@ == k,
    ensures
        insert_all(m.insert(k, v), e, i) == insert_all(m, e, i),
    decreases e.len() - i,
{
    let j0 = choose|j: int| i <= j < e.len() && #[trigger] e[j].0@ == k;
    if e[i].0@ == k {
        assert(m.insert(k, v).insert(e[i].0@, e[i].1@) =~= m.insert(e[i].0@, e[i].1@));
    } else {
        assert(m.insert(k, v).insert(e[i].0@, e[i].1@) =~= m.insert(e[i].0@, e[i].1@).insert(k, v));
        assert(i + 1 <= j0 < e.len() && e[j0].0@ == k);
        lemma_insert_all_absorb(m.insert(e[i].0@, e[i].1@), e, i + 1, k, v);
    }
}

/// When every entry for a key carries the same value and at least one
/// exists, the entry list's mapping binds the key to that value.
pub proof fn lemma_as_map_uniform(e: Seq<(Vec<u8>, Vec<u8>)>, k: Seq<u8>, v: Seq<u8>)
    requires
        exists|j: int| 0 <= j < e.len() && #[trigger] e[j].0@ == k,
        forall|j: int| 0 <= j < e.len() && #[trigger] e[j].0@ == k ==> e[j].1@ == v,
    ensures
        as_map(e).contains_key(k),
        as_map(e)[k] == v,
    decreases e.len(),
{
    let j0 = choose|j: int| 0 <= j < e.len() && #[trigger] e[j].0@ == k;
    if e.last().0@ == k {
        assert(e.last().1@ == v);
    } else {
        let d = e.drop_last();
        assert(0 <= j0 < d.len() && d[j0].0@ == k);
        lemma_as_map_uniform(d, k, v);
    }
}

/// The first occurrence of `b` at or after `pos` is at `q` when nothing
/// before `q` matches and `s[q]` does.
proof fn lemma_find_from_exact(s: Seq<u8>, pos: int, q: int, b: u8)
    requires
        0 <= pos <= q < s.len(),
        forall|i: int| pos <= i < q ==> s[i] != b,
        s[q] == b,
    ensures
        find_from(s, pos, b) == q,
{
    lemma_find_from(s, pos, b);
    let f = find_from(s, pos, b);
    if f < q {
        assert(s[f] != b);
    }
    if f > q {
        assert(s[q] != b);
    }
}

/// A line of known line-break-free text followed by the line terminator
/// reads back as exactly that text.
proof fn lemma_line_at_exact(s: Seq<u8>, pos: int, l: Seq<u8>)
    requires
        0 <= pos,
        pos + l.len() + 2 <= s.len(),
        forall|i: int| 0 <= i < l.len() ==> #[trigger] l[i] != 10 && l[i] != 13,
        s.subrange(pos, pos + l.len() + 2) == l + crlf(),
    ensures
        line_at(s, pos) == l,
        after_line(s, pos) == pos + l.len() + 2,
{
    let n = l.len() as int;
    let lc = l + crlf();
    assert forall|q: int| 0 <= q < n + 2 implies s[pos + q] == lc[q] by {
        assert(s.subrange(pos, pos + n + 2)[q] == s[pos + q]);
    }
    assert(lc[n] == 13);
    assert(lc[n + 1] == 10);
    assert(s[pos + n] == 13);
    assert(s[pos + n + 1] == 10);
    assert forall|q: int| 0 <= q < n implies s[pos + q] == l[q] by {
        assert(lc[q] == l[q]);
    }
    assert forall|i: int| pos <= i < pos + n + 1 implies s[i] != 10 by {
        if i < pos + n {
            assert(s[pos + (i - pos)] == l[i - pos]);
            assert(l[i - pos] != 10);
        } else {
            assert(i == pos + n);
        }
    }
    lemma_find_from_exact(s, pos, pos + n + 1, 10);
    assert(line_end(s, pos) == pos + n + 1);
    assert(after_line(s, pos) == pos + n + 2);
    let raw = s.subrange(pos, pos + n + 1);
    assert(raw.len() == n + 1);
    assert(raw[n] == 13);
    assert(raw.drop_last() =~= l);
    assert(line_at(s, pos) == l);
}

/// A serialized `key: value` line reads back as that key and value.
proof fn lemma_kv_line_parses(s: Seq<u8>, pos: int, k: Seq<u8>, v: Seq<u8>)
    requires
        0 <= pos,
        clean_key(k),
        clean_value(v),
        pos + k.len() + v.len() + 4 <= s.len(),
        s.subrange(pos, pos + k.len() + v.len() + 4) == kv_line_bytes(k, v),
    ensures
        after_line(s, pos) == pos + k.len() + v.len() + 4,
        has_colon(line_at(s, pos)),
        kv_key(line_at(s, pos)) == k,
        kv_value(line_at(s, pos)) == v,
{
    let l = k + seq![58u8, 32u8] + v;
    let kn = k.len() as int;
    assert(l.len() == k.len() + v.len() + 2);
    assert(forall|i: int| 0 <= i < l.len() ==> #[trigger] l[i] != 10 && l[i] != 13) by {
        assert forall|i: int| 0 <= i < l.len() implies #[trigger] l[i] != 10 && l[i] != 13 by {
            if i < kn {
                assert(l[i] == k[i]);
            } else if i < kn + 2 {
                assert(l[kn] == 58 && l[kn + 1] == 32);
            } else {
                assert(l[i] == v[i - kn - 2]);
            }
        }
    }
    assert(kv_line_bytes(k, v) =~= l + crlf());
    lemma_line_at_exact(s, pos, l);
    assert(forall|i: int| 0 <= i < kn ==> #[trigger] l[i] != 58) by {
        assert(forall|i: int| 0 <= i < kn ==> l[i] == #[trigger] k[i]);
    }
    assert(l[kn] == 58);
    lemma_find_from_exact(l, 0, kn, 58);
    assert(has_colon(l));
    assert(l.subrange(0, kn) =~= k);
    crate::scan::lemma_trim_stable(k);
    assert(kv_key(l) == k);
    assert(l.subrange(kn + 1, l.len() as int) =~= seq![32u8] + v);
    lemma_trim_space(v);
    assert(kv_value(l) == v);
}

/// Trimming a single leading space from trim-stable text yields the text.
proof fn lemma_trim_space(v: Seq<u8>)
    requires
        trim_stable(v),
    ensures
        trim_ws(seq![32u8] + v) == v,
{
    let s = seq![32u8] + v;
    assert(is_ws(s[0]));
    if v.len() == 0 {
        assert(s.len() == 1);
        assert(ws_prefix_end(s, 1) == 1);
        assert(ws_prefix_end(s, 0) == 1);
        assert(trim_ws(s) =~= v);
    } else {
        assert(s[1] == v[0]);
        assert(!is_ws(s[1]));
        assert(ws_prefix_end(s, 1) == 1);
        assert(ws_prefix_end(s, 0) == 1);
        assert(s[s.len() - 1] == v[v.len() - 1]);
        assert(!is_ws(s[s.len() - 1]));
        assert(ws_suffix_start(s, s.len() as int) == s.len());
        assert(trim_ws(s) == s.subrange(1, s.len() as int));
        assert(s.subrange(1, s.len() as int) =~= v);
    }
}

/// The version marker holds no line break, no colon, and no surrounding
/// whitespace.
proof fn lemma_version_marker_shape()
    ensures
        version_marker().len() == 8,
        forall|i: int| 0 <= i < 8 ==> #[trigger] version_marker()[i] != 10 && version_marker()[i] != 13
            && version_marker()[i] != 58,
        trim_stable(version_marker()),
        trim_ws(version_marker()) == version_marker(),
        !has_colon(version_marker()),
{
    let m = version_marker();
    assert(m[0] == 87 && m[1] == 65 && m[2] == 82 && m[3] == 67 && m[4] == 47 && m[5] == 49 && m[6]
        == 46 && m[7] == 48);
    assert(forall|i: int| 0 <= i < 8 ==> #[trigger] m[i] != 10 && m[i] != 13 && m[i] != 58) by {
        assert forall|i: int| 0 <= i < 8 implies #[trigger] m[i] != 10 && m[i] != 13 && m[i] != 58 by {
            if i == 0 {
            } else if i == 1 {
            } else if i == 2 {
            } else if i == 3 {
            } else if i == 4 {
            } else if i == 5 {
            } else if i == 6 {
            } else {
                assert(i == 7);
            }
        }
    }
    crate::scan::lemma_trim_stable(m);
    lemma_find_from(m, 0, 58);
    let f = find_from(m, 0, 58);
    if f < 8 {
        assert(m[f] != 58);
    }
}

/// Scanning the serialized header lines from `i` on, followed by the blank
/// line, completes with every remaining entry inserted.
proof fn lemma_scan_serialized(s: Seq<u8>, pos: int, e: Seq<(Vec<u8>, Vec<u8>)>, i: int, m: Map<Seq<u8>, Seq<u8>>)
    requires
        0 <= i <= e.len(),
        clean_entries(e),
        forall|j: int| 0 <= j < e.len() && #[trigger] e[j].0@ == version_key() ==> e[j].1@ == version_value(),
        m.contains_key(version_key()),
        m[version_key()] == version_value(),
        0 <= pos,
        pos + header_lines_bytes(e, i).len() + 2 <= s.len(),
        s.subrange(pos, pos + header_lines_bytes(e, i).len() + 2) == header_lines_bytes(e, i) + crlf(),
    ensures
        scan_headers(s, pos, m) == (HeaderScan::Complete {
            map: insert_all(m, e, i),
            next: pos + header_lines_bytes(e, i).len() + 2,
        }),
    decreases e.len() - i,
{
    let b = header_lines_bytes(e, i);
    assert(forall|q: int| 0 <= q < b.len() + 2 ==> s[pos + q] == #[trigger] (b + crlf())[q]) by {
        assert(forall|q: int| 0 <= q < b.len() + 2 ==> s[pos + q] == #[trigger] s.subrange(
            pos,
            pos + b.len() + 2,
        )[q]);
    }
    if i >= e.len() {
        assert(b.len() == 0);
        assert(s[pos] == 13);
        assert(s[pos + 1] == 10);
        lemma_find_from_exact(s, pos, pos + 1, 10);
        let raw = s.subrange(pos, pos + 1);
        assert(raw.len() == 1 && raw[0] == 13);
        assert(raw.drop_last() =~= Seq::<u8>::empty());
        let l = line_at(s, pos);
        assert(l =~= Seq::<u8>::empty());
        assert(find_from(l, 0, 58) == 0);
        assert(!has_colon(l));
        assert(ws_prefix_end(l, 0) == 0);
        assert(trim_ws(l) =~= Seq::<u8>::empty());
        assert(version_marker().len() == 8) by {
            lemma_version_marker_shape();
        }
        assert(trim_ws(l) != version_marker());
        assert(m.contains_key(version_key()));
        assert(m != Map::<Seq<u8>, Seq<u8>>::empty());
        assert(after_line(s, pos) == pos + 2);
        assert(scan_headers(s, pos, m) == (HeaderScan::Complete { map: m, next: pos + 2 }));
    } else if e[i].0@ == version_key() {
        assert(b == header_lines_bytes(e, i + 1));
        assert(e[i].1@ == version_value());
        assert(m.insert(e[i].0@, e[i].1@) =~= m);
        lemma_scan_serialized(s, pos, e, i + 1, m);
        assert(insert_all(m, e, i) == insert_all(m.insert(e[i].0@, e[i].1@), e, i + 1));
    } else {
        let k = e[i].0@;
        let v = e[i].1@;
        let bl = kv_line_bytes(k, v);
        let rest = header_lines_bytes(e, i + 1);
        assert(b == bl + rest);
        assert(bl.len() == k.len() + v.len() + 4);
        assert(clean_key(k) && clean_value(v));
        assert(s.subrange(pos, pos + bl.len() as int) =~= bl) by {
            assert(forall|q: int| 0 <= q < bl.len() ==> (b + crlf())[q] == #[trigger] bl[q]);
        }
        lemma_kv_line_parses(s, pos, k, v);
        let np = pos + bl.len() as int;
        assert(s.subrange(np, np + rest.len() + 2) =~= rest + crlf()) by {
            assert(forall|q: int| 0 <= q < rest.len() + 2 ==> s[np + q] == #[trigger] (b
                + crlf())[bl.len() + q]);
            assert(forall|q: int| 0 <= q < rest.len() + 2 ==> (b + crlf())[bl.len() + q]
                == #[trigger] (rest + crlf())[q]);
        }
        let m2 = m.insert(k, v);
        assert(k != version_key());
        assert(m2.contains_key(version_key()) && m2[version_key()] == version_value());
        lemma_scan_serialized(s, np, e, i + 1, m2);
        let l = line_at(s, pos);
        assert(scan_headers(s, pos, m) == scan_headers(s, np, m.insert(kv_key(l), kv_value(l))));
        assert(insert_all(m, e, i) == insert_all(m2, e, i + 1));
        assert(pos + b.len() + 2 == np + rest.len() + 2);
    }
}

/// The well-formedness a header entry list needs for serialization to
/// round-trip: clean keys and values; the synthetic `WARC` key present and
/// always carrying `1.0`; a `WARC-Type` naming a known kind; and a
/// `Content-Length` whose digits state the payload length exactly.
pub open spec fn round_trip_ready(e: Seq<(Vec<u8>, Vec<u8>)>, payload: Seq<u8>, k: RecordKind) -> bool {
    &&& clean_entries(e)
    &&& forall|j: int| 0 <= j < e.len() && #[trigger] e[j].0@ == version_key() ==> e[j].1@ == version_value()
    &&& exists|j: int| 0 <= j < e.len() && #[trigger] e[j].0@ == version_key()
    &&& as_map(e).contains_key(type_key())
    &&& kind_of_name(as_map(e)[type_key()]) == Some(k)
    &&& as_map(e).contains_key(length_key())
    &&& is_dec_digits(as_map(e)[length_key()])
    &&& dec_value(as_map(e)[length_key()]) == payload.len()
}

/// Round-trip framing: serializing any well-formed header mapping with a
/// correctly stated payload length and then framing the result recovers an
/// equal header mapping, the same record kind, and a byte-identical
/// payload, consuming the whole serialized record.
pub proof fn lemma_frame_round_trip(e: Seq<(Vec<u8>, Vec<u8>)>, payload: Seq<u8>, k: RecordKind)
    requires
        round_trip_ready(e, payload, k),
    ensures
        spec_read_record(frame_bytes(e, payload), 0) == (SpecFrame::Record {
            rec: RecordModel {
                version: version_value(),
                kind: k,
                payload: payload,
                headers: as_map(e),
            },
            next: frame_bytes(e, payload).len() as int,
        }),
{
    let s = frame_bytes(e, payload);
    let b = header_lines_bytes(e, 0);
    let hdr_end = 10 + b.len() as int + 2;
    lemma_version_marker_shape();
    assert(s.len() == hdr_end + payload.len() + 4);
    assert(forall|q: int| 0 <= q < s.len() ==> s[q] == #[trigger] (version_marker() + crlf() + b
        + crlf() + payload + crlf() + crlf())[q]);

    // The version marker line.
    assert(s.subrange(0, 10) =~= version_marker() + crlf());
    lemma_line_at_exact(s, 0, version_marker());
    assert(0 < s.len());
    assert(scan_headers(s, 0, Map::<Seq<u8>, Seq<u8>>::empty()) == scan_headers(
        s,
        10,
        Map::<Seq<u8>, Seq<u8>>::empty().insert(version_key(), version_value()),
    ));

    // The header lines and the blank line closing the block.
    let m0 = Map::<Seq<u8>, Seq<u8>>::empty().insert(version_key(), version_value());
    assert(s.subrange(10, hdr_end) =~= b + crlf());
    lemma_scan_serialized(s, 10, e, 0, m0);
    assert(scan_headers(s, 0, Map::<Seq<u8>, Seq<u8>>::empty()) == (HeaderScan::Complete {
        map: insert_all(m0, e, 0),
        next: hdr_end,
    }));
    lemma_insert_all_absorb(Map::<Seq<u8>, Seq<u8>>::empty(), e, 0, version_key(), version_value());
    assert(e.subrange(0, 0) =~= Seq::<(Vec<u8>, Vec<u8>)>::empty());
    lemma_insert_all_as_map(e, 0);
    assert(insert_all(m0, e, 0) == as_map(e));
    lemma_as_map_uniform(e, version_key(), version_value());

    // Resolution: required headers hold, the payload is exactly as long as
    // declared, and the separator's two lines close the record.
    let m = as_map(e);
    assert(s.len() - hdr_end >= dec_value(m[length_key()]));
    let q = hdr_end + payload.len() as int;
    assert(s.subrange(hdr_end, q) =~= payload);
    assert(s[q] == 13 && s[q + 1] == 10 && s[q + 2] == 13 && s[q + 3] == 10);
    lemma_find_from_exact(s, q, q + 1, 10);
    assert(after_line(s, q) == q + 2);
    lemma_find_from_exact(s, q + 2, q + 3, 10);
    assert(after_line(s, q + 2) == q + 4);
    assert(q + 4 == s.len());
}

/// Truncation detection: a stream whose headers declare more payload bytes
/// than the stream still holds frames to the truncation error, never to a
/// silently short record.
pub proof fn lemma_truncation_detected(e: Seq<(Vec<u8>, Vec<u8>)>, payload: Seq<u8>, k: RecordKind, declared: int)
    requires
        clean_entries(e),
        forall|j: int| 0 <= j < e.len() && #[trigger] e[j].0@ == version_key() ==> e[j].1@ == version_value(),
        exists|j: int| 0 <= j < e.len() && #[trigger] e[j].0@ == version_key(),
        as_map(e).contains_key(type_key()),
        kind_of_name(as_map(e)[type_key()]) == Some(k),
        as_map(e).contains_key(length_key()),
        is_dec_digits(as_map(e)[length_key()]),
        dec_value(as_map(e)[length_key()]) == declared,
        declared > payload.len(),
    ensures
        spec_read_record(truncated_frame_bytes(e, payload), 0) == (SpecFrame::Abort {
            err: IngestError::TruncatedPayload,
        }),
{
    let s = truncated_frame_bytes(e, payload);
    let b = header_lines_bytes(e, 0);
    let hdr_end = 10 + b.len() as int + 2;
    lemma_version_marker_shape();
    assert(s.len() == hdr_end + payload.len());
    assert(forall|q: int| 0 <= q < s.len() ==> s[q] == #[trigger] (version_marker() + crlf() + b
        + crlf() + payload)[q]);
    assert(s.subrange(0, 10) =~= version_marker() + crlf());
    lemma_line_at_exact(s, 0, version_marker());
    assert(scan_headers(s, 0, Map::<Seq<u8>, Seq<u8>>::empty()) == scan_headers(
        s,
        10,
        Map::<Seq<u8>, Seq<u8>>::empty().insert(version_key(), version_value()),
    ));
    let m0 = Map::<Seq<u8>, Seq<u8>>::empty().insert(version_key(), version_value());
    assert(s.subrange(10, hdr_end) =~= b + crlf());
    lemma_scan_serialized(s, 10, e, 0, m0);
    lemma_insert_all_absorb(Map::<Seq<u8>, Seq<u8>>::empty(), e, 0, version_key(), version_value());
    assert(e.subrange(0, 0) =~= Seq::<(Vec<u8>, Vec<u8>)>::empty());
    lemma_insert_all_as_map(e, 0);
    assert(insert_all(m0, e, 0) == as_map(e));
    lemma_as_map_uniform(e, version_key(), version_value());
    assert(s.len() - hdr_end < declared);
}

/// Append the bytes of `src` to `out`.
pub fn append_bytes(out: &mut Vec<u8>, src: &[u8])
    ensures
        final(out)@ == old(out)@ + src@,
{
    let mut i: usize = 0;
    while i < src.len()
        invariant
            i <= src@.len(),
            out@ == old(out)@ + src@.subrange(0, i as int),
        decreases src@.len() - i,
    {
        let x = src[i];
        out.push(x);
        proof {
            assert(old(out)@ + src@.subrange(0, i + 1) =~= (old(out)@ + src@.subrange(0, i as int)).push(
                src@[i as int],
            ));
        }
        i = i + 1;
    }
    proof {
        assert(old(out)@ + src@.subrange(0, src@.len() as int) =~= old(out)@ + src@);
    }
}

/// Append the line terminator to `out`.
fn append_crlf(out: &mut Vec<u8>)
    ensures
        final(out)@ == old(out)@ + crlf(),
{
    out.push(13);
    out.push(10);
    proof {
        assert(old(out)@.push(13u8).push(10u8) =~= old(out)@ + crlf());
    }
}

/// Serialize header entries and a payload into the container text form
/// that `read_record` frames.
pub fn serialize_record(entries: &Vec<(Vec<u8>, Vec<u8>)>, payload: &Vec<u8>) -> (r: Vec<u8>)
    ensures
        r@ == frame_bytes(entries@, payload@),
{
    let mut out: Vec<u8> = Vec::new();
    let marker = version_marker_bytes();
    append_bytes(&mut out, marker.as_slice());
    append_crlf(&mut out);
    proof {
        assert(out@ =~= version_marker() + crlf());
    }
    let vk = version_key_bytes();
    let mut i: usize = 0;
    while i < entries.len()
        invariant
            i <= entries@.len(),
            out@ + header_lines_bytes(entries@, i as int) =~= version_marker() + crlf()
                + header_lines_bytes(entries@, 0),
            vk@ == version_key(),
        decreases entries@.len() - i,
    {
        let ghost out0 = out@;
        let pair = &entries[i];
        if !bytes_eq(pair.0.as_slice(), vk.as_slice()) {
            append_bytes(&mut out, pair.0.as_slice());
            out.push(58);
            out.push(32);
            append_bytes(&mut out, pair.1.as_slice());
            append_crlf(&mut out);
            proof {
                assert(out@ =~= out0 + kv_line_bytes(entries@[i as int].0@, entries@[i as int].1@));
                assert(header_lines_bytes(entries@, i as int) == kv_line_bytes(
                    entries@[i as int].0@,
                    entries@[i as int].1@,
                ) + header_lines_bytes(entries@, i + 1));
                assert(out@ + header_lines_bytes(entries@, i + 1) =~= out0 + header_lines_bytes(
                    entries@,
                    i as int,
                ));
            }
        } else {
            proof {
                assert(header_lines_bytes(entries@, i as int) == header_lines_bytes(
                    entries@,
                    i + 1,
                ));
            }
        }
        i = i + 1;
    }
    proof {
        assert(header_lines_bytes(entries@, entries@.len() as int) =~= Seq::<u8>::empty());
        assert(out@ + Seq::<u8>::empty() =~= out@);
    }
    append_crlf(&mut out);
    append_bytes(&mut out, payload.as_slice());
    append_crlf(&mut out);
    append_crlf(&mut out);
    proof {
        assert(out@ =~= frame_bytes(entries@, payload@));
    }
    out
}

} // verus!
