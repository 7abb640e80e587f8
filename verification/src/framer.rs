//! The record framer for the WARC container format: recovers one
//! self-describing record — a textual header block plus a length-delimited
//! binary payload — from a byte stream, and serializes records back into the
//! container form.

use vstd::prelude::*;
use crate::scan::{bytes_eq, copy_range, dec_value, find_byte, find_from, is_dec_digits, lemma_find_from, trim_bytes, trim_ws};
use crate::IngestError;

verus! {

/// The enumerated record kinds a container record can declare in its
/// `WARC-Type` header.
#[derive(Clone, Copy, Debug, PartialEq, Eq, Structural)]
pub enum RecordKind {
    WarcInfo,
    Response,
    Resource,
    Request,
    Metadata,
    Revisit,
    Conversion,
    Continuation,
}

// Byte runs of the header grammar, spelled out so that proofs can reason
// about their exact bytes: the version marker line `WARC/1.0`, the synthetic
// `WARC` key it is stored under with value `1.0`, and the header names the
// framer resolves.
/// `WARC/1.0`
pub open spec fn version_marker() -> Seq<u8> {
    seq![87u8, 65u8, 82u8, 67u8, 47u8, 49u8, 46u8, 48u8]
}

/// `WARC`
pub open spec fn version_key() -> Seq<u8> {
    seq![87u8, 65u8, 82u8, 67u8]
}

/// `1.0`
pub open spec fn version_value() -> Seq<u8> {
    seq![49u8, 46u8, 48u8]
}

/// `WARC-Type`
pub open spec fn type_key() -> Seq<u8> {
    seq![87u8, 65u8, 82u8, 67u8, 45u8, 84u8, 121u8, 112u8, 101u8]
}

/// `Content-Length`
pub open spec fn length_key() -> Seq<u8> {
    seq![67u8, 111u8, 110u8, 116u8, 101u8, 110u8, 116u8, 45u8, 76u8, 101u8, 110u8, 103u8, 116u8, 104u8]
}

/// `WARC-Target-URI`
pub open spec fn uri_key() -> Seq<u8> {
    seq![87u8, 65u8, 82u8, 67u8, 45u8, 84u8, 97u8, 114u8, 103u8, 101u8, 116u8, 45u8, 85u8, 82u8, 73u8]
}

/// `WARC-Date`
pub open spec fn date_key() -> Seq<u8> {
    seq![87u8, 65u8, 82u8, 67u8, 45u8, 68u8, 97u8, 116u8, 101u8]
}

/// The lower-case name under which each record kind appears in `WARC-Type`.
pub open spec fn kind_name(k: RecordKind) -> Seq<u8> {
    match k {
        RecordKind::WarcInfo => seq![119u8, 97u8, 114u8, 99u8, 105u8, 110u8, 102u8, 111u8],
        RecordKind::Response => seq![114u8, 101u8, 115u8, 112u8, 111u8, 110u8, 115u8, 101u8],
        RecordKind::Resource => seq![114u8, 101u8, 115u8, 111u8, 117u8, 114u8, 99u8, 101u8],
        RecordKind::Request => seq![114u8, 101u8, 113u8, 117u8, 101u8, 115u8, 116u8],
        RecordKind::Metadata => seq![109u8, 101u8, 116u8, 97u8, 100u8, 97u8, 116u8, 97u8],
        RecordKind::Revisit => seq![114u8, 101u8, 118u8, 105u8, 115u8, 105u8, 116u8],
        RecordKind::Conversion => seq![99u8, 111u8, 110u8, 118u8, 101u8, 114u8, 115u8, 105u8, 111u8, 110u8],
        RecordKind::Continuation => seq![99u8, 111u8, 110u8, 116u8, 105u8, 110u8, 117u8, 97u8, 116u8, 105u8, 111u8, 110u8],
    }
}

/// The record kind a `WARC-Type` value names, if any.
pub open spec fn kind_of_name(n: Seq<u8>) -> Option<RecordKind> {
    if n == kind_name(RecordKind::Conversion) {
        Some(RecordKind::Conversion)
    } else if n == kind_name(RecordKind::WarcInfo) {
        Some(RecordKind::WarcInfo)
    } else if n == kind_name(RecordKind::Continuation) {
        Some(RecordKind::Continuation)
    } else if n == kind_name(RecordKind::Revisit) {
        Some(RecordKind::Revisit)
    } else if n == kind_name(RecordKind::Metadata) {
        Some(RecordKind::Metadata)
    } else if n == kind_name(RecordKind::Request) {
        Some(RecordKind::Request)
    } else if n == kind_name(RecordKind::Resource) {
        Some(RecordKind::Resource)
    } else if n == kind_name(RecordKind::Response) {
        Some(RecordKind::Response)
    } else {
        None
    }
}

/// A copy of the byte run `s@` as a growable vector.
pub fn bytes_of(s: &[u8]) -> (r: Vec<u8>)
    ensures
        r@ == s@,
{
    let mut r: Vec<u8> = Vec::new();
    let mut i: usize = 0;
    while i < s.len()
        invariant
            i <= s@.len(),
            r@ == s@.subrange(0, i as int),
        decreases s@.len() - i,
    {
        let x = s[i];
        r.push(x);
        proof {
            assert(r@ =~= s@.subrange(0, i + 1));
        }
        i = i + 1;
    }
    proof {
        assert(r@ =~= s@);
    }
    r
}

/// The version marker bytes, for runtime comparison and construction.
pub fn version_marker_bytes() -> (r: Vec<u8>)
    ensures
        r@ == version_marker(),
{
    let a: [u8; 8] = [87, 65, 82, 67, 47, 49, 46, 48];
    let r = bytes_of(a.as_slice());
    proof {
        assert(r@ =~= version_marker());
    }
    r
}

/// The synthetic `WARC` key bytes.
pub fn version_key_bytes() -> (r: Vec<u8>)
    ensures
        r@ == version_key(),
{
    let a: [u8; 4] = [87, 65, 82, 67];
    let r = bytes_of(a.as_slice());
    proof {
        assert(r@ =~= version_key());
    }
    r
}

/// The `1.0` version value bytes.
pub fn version_value_bytes() -> (r: Vec<u8>)
    ensures
        r@ == version_value(),
{
    let a: [u8; 3] = [49, 46, 48];
    let r = bytes_of(a.as_slice());
    proof {
        assert(r@ =~= version_value());
    }
    r
}

/// The `WARC-Type` key bytes.
pub fn type_key_bytes() -> (r: Vec<u8>)
    ensures
        r@ == type_key(),
{
    let a: [u8; 9] = [87, 65, 82, 67, 45, 84, 121, 112, 101];
    let r = bytes_of(a.as_slice());
    proof {
        assert(r@ =~= type_key());
    }
    r
}

/// The `Content-Length` key bytes.
pub fn length_key_bytes() -> (r: Vec<u8>)
    ensures
        r@ == length_key(),
{
    let a: [u8; 14] = [67, 111, 110, 116, 101, 110, 116, 45, 76, 101, 110, 103, 116, 104];
    let r = bytes_of(a.as_slice());
    proof {
        assert(r@ =~= length_key());
    }
    r
}

/// The `WARC-Target-URI` key bytes.
pub fn uri_key_bytes() -> (r: Vec<u8>)
    ensures
        r@ == uri_key(),
{
    let a: [u8; 15] = [87, 65, 82, 67, 45, 84, 97, 114, 103, 101, 116, 45, 85, 82, 73];
    let r = bytes_of(a.as_slice());
    proof {
        assert(r@ =~= uri_key());
    }
    r
}

/// The `WARC-Date` key bytes.
pub fn date_key_bytes() -> (r: Vec<u8>)
    ensures
        r@ == date_key(),
{
    let a: [u8; 9] = [87, 65, 82, 67, 45, 68, 97, 116, 101];
    let r = bytes_of(a.as_slice());
    proof {
        assert(r@ =~= date_key());
    }
    r
}

/// The name bytes of a record kind, for runtime comparison.
pub fn kind_name_bytes(k: RecordKind) -> (r: Vec<u8>)
    ensures
        r@ == kind_name(k),
{
    let r = match k {
        RecordKind::WarcInfo => {
            let a: [u8; 8] = [119, 97, 114, 99, 105, 110, 102, 111];
            bytes_of(a.as_slice())
        },
        RecordKind::Response => {
            let a: [u8; 8] = [114, 101, 115, 112, 111, 110, 115, 101];
            bytes_of(a.as_slice())
        },
        RecordKind::Resource => {
            let a: [u8; 8] = [114, 101, 115, 111, 117, 114, 99, 101];
            bytes_of(a.as_slice())
        },
        RecordKind::Request => {
            let a: [u8; 7] = [114, 101, 113, 117, 101, 115, 116];
            bytes_of(a.as_slice())
        },
        RecordKind::Metadata => {
            let a: [u8; 8] = [109, 101, 116, 97, 100, 97, 116, 97];
            bytes_of(a.as_slice())
        },
        RecordKind::Revisit => {
            let a: [u8; 7] = [114, 101, 118, 105, 115, 105, 116];
            bytes_of(a.as_slice())
        },
        RecordKind::Conversion => {
            let a: [u8; 10] = [99, 111, 110, 118, 101, 114, 115, 105, 111, 110];
            bytes_of(a.as_slice())
        },
        RecordKind::Continuation => {
            let a: [u8; 12] = [99, 111, 110, 116, 105, 110, 117, 97, 116, 105, 111, 110];
            bytes_of(a.as_slice())
        },
    };
    proof {
        assert(r@ =~= kind_name(k));
    }
    r
}

/// The record kind a `WARC-Type` value names at runtime.
pub fn kind_from_name(n: &Vec<u8>) -> (r: Option<RecordKind>)
    ensures
        r == kind_of_name(n@),
{
    let kinds: [RecordKind; 8] = [
        RecordKind::Conversion,
        RecordKind::WarcInfo,
        RecordKind::Continuation,
        RecordKind::Revisit,
        RecordKind::Metadata,
        RecordKind::Request,
        RecordKind::Resource,
        RecordKind::Response,
    ];
    let mut i: usize = 0;
    while i < 8
        invariant
            i <= 8,
            kinds@ =~= seq![
                RecordKind::Conversion,
                RecordKind::WarcInfo,
                RecordKind::Continuation,
                RecordKind::Revisit,
                RecordKind::Metadata,
                RecordKind::Request,
                RecordKind::Resource,
                RecordKind::Response,
            ],
            forall|j: int| 0 <= j < i ==> n@ != kind_name(kinds@[j]),
        decreases 8 - i,
    {
        let k = kinds[i];
        let name = kind_name_bytes(k);
        if bytes_eq(n.as_slice(), name.as_slice()) {
            return Some(k);
        }
        i = i + 1;
    }
    None
}

// --- the line model ---
/// Index of the line-feed byte ending the line that starts at `pos`;
/// `s.len()` for a final line without one.
pub open spec fn line_end(s: Seq<u8>, pos: int) -> int {
    find_from(s, pos, 10)
}

/// Position of the byte run following the line that starts at `pos`.
pub open spec fn after_line(s: Seq<u8>, pos: int) -> int {
    if line_end(s, pos) < s.len() {
        line_end(s, pos) + 1
    } else {
        s.len() as int
    }
}

/// A line with one trailing carriage return removed, as Rust's line
/// reading yields it.
pub open spec fn strip_cr(l: Seq<u8>) -> Seq<u8> {
    if l.len() > 0 && l[l.len() - 1] == 13 {
        l.drop_last()
    } else {
        l
    }
}

/// The text of the line that starts at `pos`: the bytes up to the next
/// line feed, with one trailing carriage return removed.
pub open spec fn line_at(s: Seq<u8>, pos: int) -> Seq<u8> {
    strip_cr(s.subrange(pos, line_end(s, pos)))
}

pub proof fn lemma_after_line(s: Seq<u8>, pos: int)
    requires
        0 <= pos <= s.len(),
    ensures
        pos <= after_line(s, pos) <= s.len(),
        pos < s.len() ==> pos < after_line(s, pos),
{
    lemma_find_from(s, pos, 10);
}

/// The text of the line that starts at `pos`, and the position after it.
pub fn read_line(buf: &Vec<u8>, pos: usize) -> (r: (Vec<u8>, usize))
    requires
        pos <= buf@.len(),
    ensures
        r.0@ == line_at(buf@, pos as int),
        r.1 == after_line(buf@, pos as int),
        pos <= r.1 <= buf@.len(),
        pos < buf@.len() ==> pos < r.1,
{
    proof {
        lemma_after_line(buf@, pos as int);
    }
    let le = find_byte(buf, pos, 10);
    let np = if le < buf.len() {
        le + 1
    } else {
        buf.len()
    };
    let mut line = copy_range(buf, pos, le);
    if line.len() > 0 && line[line.len() - 1] == 13 {
        line.pop();
        proof {
            assert(line@ =~= line_at(buf@, pos as int));
        }
    }
    (line, np)
}

// --- the header-block model ---
/// The mapping that a header entry list denotes: keys unique, later
/// entries winning over earlier ones with the same key.
pub open spec fn as_map(entries: Seq<(Vec<u8>, Vec<u8>)>) -> Map<Seq<u8>, Seq<u8>>
    decreases entries.len(),
{
    if entries.len() == 0 {
        Map::empty()
    } else {
        as_map(entries.drop_last()).insert(entries.last().0@, entries.last().1@)
    }
}

pub proof fn lemma_as_map_push(e: Seq<(Vec<u8>, Vec<u8>)>, p: (Vec<u8>, Vec<u8>))
    ensures
        as_map(e.push(p)) == as_map(e).insert(p.0@, p.1@),
{
    assert(e.push(p).drop_last() =~= e);
    assert(e.push(p).last() == p);
}

pub proof fn lemma_as_map_nonempty(e: Seq<(Vec<u8>, Vec<u8>)>)
    requires
        e.len() > 0,
    ensures
        as_map(e).contains_key(e.last().0@),
        as_map(e) != Map::<Seq<u8>, Seq<u8>>::empty(),
{
    assert(!Map::<Seq<u8>, Seq<u8>>::empty().contains_key(e.last().0@));
}

/// Entries at or after `i` whose key differs from `key` do not affect
/// that key's binding.
pub proof fn lemma_as_map_prefix(e: Seq<(Vec<u8>, Vec<u8>)>, i: int, key: Seq<u8>)
    requires
        0 <= i <= e.len(),
        forall|j: int| i <= j < e.len() ==> #[trigger] e[j].0@ != key,
    ensures
        as_map(e).contains_key(key) == as_map(e.subrange(0, i)).contains_key(key),
        as_map(e).contains_key(key) ==> as_map(e)[key] == as_map(e.subrange(0, i))[key],
    decreases e.len() - i,
{
    if i < e.len() {
        let d = e.drop_last();
        assert(e[e.len() - 1].0@ != key);
        lemma_as_map_prefix(d, i, key);
        assert(d.subrange(0, i) =~= e.subrange(0, i));
    } else {
        assert(e.subrange(0, e.len() as int) =~= e);
    }
}

/// An entry that no later entry's key repeats supplies its key's binding.
pub proof fn lemma_as_map_found(e: Seq<(Vec<u8>, Vec<u8>)>, i: int)
    requires
        0 <= i < e.len(),
        forall|j: int| i < j < e.len() ==> #[trigger] e[j].0@ != e[i].0@,
    ensures
        as_map(e).contains_key(e[i].0@),
        as_map(e)[e[i].0@] == e[i].1@,
{
    lemma_as_map_prefix(e, i + 1, e[i].0@);
    assert(e.subrange(0, i + 1).drop_last() =~= e.subrange(0, i));
    assert(e.subrange(0, i + 1).last() == e[i]);
}

/// The value bound to `key` in the mapping the entry list denotes.
pub fn header_get<'a>(hs: &'a Vec<(Vec<u8>, Vec<u8>)>, key: &Vec<u8>) -> (r: Option<&'a Vec<u8>>)
    ensures
        match r {
            Some(v) => as_map(hs@).contains_key(key@) && v@ == as_map(hs@)[key@],
            None => !as_map(hs@).contains_key(key@),
        },
{
    let mut i: usize = hs.len();
    while i > 0
        invariant
            i <= hs@.len(),
            forall|j: int| i <= j < hs@.len() ==> #[trigger] hs@[j].0@ != key@,
        decreases i,
    {
        i = i - 1;
        let pair = &hs[i];
        if bytes_eq(pair.0.as_slice(), key.as_slice()) {
            proof {
                lemma_as_map_found(hs@, i as int);
            }
            return Some(&pair.1);
        }
    }
    proof {
        lemma_as_map_prefix(hs@, 0, key@);
        assert(hs@.subrange(0, 0) =~= Seq::<(Vec<u8>, Vec<u8>)>::empty());
    }
    None
}

/// Outcome of scanning one header block.
pub enum HeaderScan {
    /// The input ran out before the block was complete: end of stream.
    Exhausted,
    /// A line that is neither `key: value`, the version marker, nor blank;
    /// or a blank line before any header was stored.
    Malformed,
    /// A blank line closed the block: its mapping, and the position after
    /// the blank line.
    Complete { map: Map<Seq<u8>, Seq<u8>>, next: int },
}

/// Whether the line holds a colon, making it a `key: value` line.
pub open spec fn has_colon(l: Seq<u8>) -> bool {
    find_from(l, 0, 58) < l.len()
}

/// The key of a `key: value` line: the trimmed bytes before the first colon.
pub open spec fn kv_key(l: Seq<u8>) -> Seq<u8> {
    trim_ws(l.subrange(0, find_from(l, 0, 58)))
}

/// The value of a `key: value` line: the trimmed bytes after the first colon.
pub open spec fn kv_value(l: Seq<u8>) -> Seq<u8> {
    trim_ws(l.subrange(find_from(l, 0, 58) + 1, l.len() as int))
}

/// Scan header lines from `pos`, accumulating the mapping `m`, until a
/// blank line closes the block, a line fails to parse, or input runs out.
pub open spec fn scan_headers(s: Seq<u8>, pos: int, m: Map<Seq<u8>, Seq<u8>>) -> HeaderScan
    decreases s.len() - pos
        when 0 <= pos <= s.len()
        via scan_headers_dec
{
    if pos >= s.len() {
        HeaderScan::Exhausted
    } else {
        let l = line_at(s, pos);
        let np = after_line(s, pos);
        if has_colon(l) {
            scan_headers(s, np, m.insert(kv_key(l), kv_value(l)))
        } else if trim_ws(l) == version_marker() {
            scan_headers(s, np, m.insert(version_key(), version_value()))
        } else if trim_ws(l).len() == 0 {
            if m == Map::<Seq<u8>, Seq<u8>>::empty() {
                HeaderScan::Malformed
            } else {
                HeaderScan::Complete { map: m, next: np }
            }
        } else {
            HeaderScan::Malformed
        }
    }
}

#[via_fn]
proof fn scan_headers_dec(s: Seq<u8>, pos: int, m: Map<Seq<u8>, Seq<u8>>) {
    lemma_after_line(s, pos);
}

/// A complete header scan ends after its starting position and within the
/// input.
pub proof fn lemma_scan_headers_bounds(s: Seq<u8>, pos: int, m: Map<Seq<u8>, Seq<u8>>)
    requires
        0 <= pos <= s.len(),
    ensures
        scan_headers(s, pos, m) matches HeaderScan::Complete { next, .. } ==> pos < next <= s.len(),
    decreases s.len() - pos,
{
    if pos < s.len() {
        lemma_after_line(s, pos);
        let l = line_at(s, pos);
        let np = after_line(s, pos);
        if has_colon(l) {
            lemma_scan_headers_bounds(s, np, m.insert(kv_key(l), kv_value(l)));
        } else if trim_ws(l) == version_marker() {
            lemma_scan_headers_bounds(s, np, m.insert(version_key(), version_value()));
        }
    }
}

// --- one whole record ---
/// The mathematical shape of one framed record: its version marker value,
/// kind, exact-length payload, and header mapping.
pub struct RecordModel {
    pub version: Seq<u8>,
    pub kind: RecordKind,
    pub payload: Seq<u8>,
    pub headers: Map<Seq<u8>, Seq<u8>>,
}

/// Outcome of framing one record from a position in the stream.
pub enum SpecFrame {
    /// End of stream: no record, no error.
    End,
    /// Framing failed with the given error.
    Abort { err: IngestError },
    /// One record, and the position after its separator.
    Record { rec: RecordModel, next: int },
}

/// Resolve a completed header mapping against the rest of the stream:
/// require the version marker, a known `WARC-Type` and a numeric
/// `Content-Length`, then take exactly that many payload bytes and skip the
/// two separator lines.
pub open spec fn resolve_record(s: Seq<u8>, m: Map<Seq<u8>, Seq<u8>>, pos: int) -> SpecFrame {
    if !m.contains_key(version_key()) {
        SpecFrame::Abort { err: IngestError::MissingRequiredHeader }
    } else if !m.contains_key(type_key()) {
        SpecFrame::Abort { err: IngestError::MissingRequiredHeader }
    } else if kind_of_name(m[type_key()]) is None {
        SpecFrame::Abort { err: IngestError::UnknownRecordKind }
    } else if !m.contains_key(length_key()) {
        SpecFrame::Abort { err: IngestError::MissingRequiredHeader }
    } else if !is_dec_digits(m[length_key()]) {
        SpecFrame::Abort { err: IngestError::MissingRequiredHeader }
    } else if s.len() - pos < dec_value(m[length_key()]) {
        SpecFrame::Abort { err: IngestError::TruncatedPayload }
    } else {
        SpecFrame::Record {
            rec: RecordModel {
                version: m[version_key()],
                kind: kind_of_name(m[type_key()])->Some_0,
                payload: s.subrange(pos, pos + dec_value(m[length_key()])),
                headers: m,
            },
            next: after_line(s, after_line(s, pos + dec_value(m[length_key()]))),
        }
    }
}

/// Frame one record from `pos`: scan the header block, then resolve it.
pub open spec fn spec_read_record(s: Seq<u8>, pos: int) -> SpecFrame {
    match scan_headers(s, pos, Map::empty()) {
        HeaderScan::Exhausted => SpecFrame::End,
        HeaderScan::Malformed => SpecFrame::Abort { err: IngestError::MalformedHeaderLine },
        HeaderScan::Complete { map, next } => resolve_record(s, map, next),
    }
}

/// One discrete record recovered from the container stream: its version
/// marker value, kind, exact-length payload, and header entries.
#[derive(Debug)]
pub struct RawRecord {
    pub version: Vec<u8>,
    pub kind: RecordKind,
    pub payload: Vec<u8>,
    pub headers: Vec<(Vec<u8>, Vec<u8>)>,
}

impl View for RawRecord {
    type V = RecordModel;

    open spec fn view(&self) -> RecordModel {
        RecordModel {
            version: self.version@,
            kind: self.kind,
            payload: self.payload@,
            headers: as_map(self.headers@),
        }
    }
}

/// Frame one record from `buf` starting at `pos`.
///
/// Returns the record and the position after its separator; `Ok(None)` at
/// end of stream; or the error that `spec_read_record` assigns to this
/// position. On `Ok(None)` and on errors the returned position is the end
/// of the buffer.
pub fn read_record(buf: &Vec<u8>, pos: usize) -> (r: (Result<Option<RawRecord>, IngestError>, usize))
    requires
        pos <= buf@.len(),
    ensures
        match spec_read_record(buf@, pos as int) {
            SpecFrame::End => r.0 == Ok::<Option<RawRecord>, IngestError>(None) && r.1 == buf@.len(),
            SpecFrame::Abort { err } => r.0 == Err::<Option<RawRecord>, IngestError>(err) && r.1 == buf@.len(),
            SpecFrame::Record { rec, next } => r.0 matches Ok(rro) && rro matches Some(rr) && rr@ == rec
                && r.1 == next && pos < next && next <= buf@.len(),
        },
{
    let mut hs: Vec<(Vec<u8>, Vec<u8>)> = Vec::new();
    let mut p: usize = pos;
    proof {
        assert(as_map(hs@) =~= Map::<Seq<u8>, Seq<u8>>::empty());
    }
    loop
        invariant
            pos <= p <= buf@.len(),
            scan_headers(buf@, pos as int, Map::empty()) == scan_headers(buf@, p as int, as_map(hs@)),
        decreases buf@.len() - p,
    {
        if p >= buf.len() {
            return (Ok(None), buf.len());
        }
        let ghost m = as_map(hs@);
        let (line, np) = read_line(buf, p);
        proof {
            assert(line@ == line_at(buf@, p as int));
        }
        let ci = find_byte(&line, 0, 58);
        if ci < line.len() {
            let kraw = copy_range(&line, 0, ci);
            let key = trim_bytes(&kraw);
            let vraw = copy_range(&line, ci + 1, line.len());
            let val = trim_bytes(&vraw);
            let ghost ksp = key@;
            let ghost vsp = val@;
            let ghost oldhs = hs@;
            hs.push((key, val));
            proof {
                assert(hs@.last().0@ == ksp && hs@.last().1@ == vsp);
                lemma_as_map_push(oldhs, hs@.last());
                assert(ksp == kv_key(line_at(buf@, p as int)));
                assert(vsp == kv_value(line_at(buf@, p as int)));
                assert(scan_headers(buf@, p as int, m) == scan_headers(buf@, np as int, as_map(hs@)));
            }
            p = np;
        } else {
            let t = trim_bytes(&line);
            let marker = version_marker_bytes();
            if bytes_eq(t.as_slice(), marker.as_slice()) {
                let ghost oldhs = hs@;
                hs.push((version_key_bytes(), version_value_bytes()));
                proof {
                    lemma_as_map_push(oldhs, hs@.last());
                    assert(!has_colon(line_at(buf@, p as int)));
                    assert(scan_headers(buf@, p as int, m) == scan_headers(buf@, np as int, as_map(hs@)));
                }
                p = np;
            } else if t.len() == 0 {
                proof {
                    assert(!has_colon(line_at(buf@, p as int)));
                }
                if hs.len() == 0 {
                    proof {
                        assert(as_map(hs@) =~= Map::<Seq<u8>, Seq<u8>>::empty());
                    }
                    return (Err(IngestError::MalformedHeaderLine), buf.len());
                }
                proof {
                    lemma_as_map_nonempty(hs@);
                    assert(scan_headers(buf@, pos as int, Map::empty()) == HeaderScan::Complete {
                        map: m,
                        next: np as int,
                    });
                }
                return resolve_framed(buf, hs, np, Ghost(pos as int));
            } else {
                proof {
                    assert(!has_colon(line_at(buf@, p as int)));
                }
                return (Err(IngestError::MalformedHeaderLine), buf.len());
            }
        }
    }
}

/// Resolve a completed header block at payload position `np`, as
/// `resolve_record` describes.
fn resolve_framed(buf: &Vec<u8>, hs: Vec<(Vec<u8>, Vec<u8>)>, np: usize, Ghost(pos): Ghost<int>) -> (r: (
    Result<Option<RawRecord>, IngestError>,
    usize,
))
    requires
        0 <= pos < np <= buf@.len(),
        hs@.len() > 0,
    ensures
        match resolve_record(buf@, as_map(hs@), np as int) {
            SpecFrame::End => false,
            SpecFrame::Abort { err } => r.0 == Err::<Option<RawRecord>, IngestError>(err) && r.1 == buf@.len(),
            SpecFrame::Record { rec, next } => r.0 matches Ok(rro) && rro matches Some(rr) && rr@ == rec
                && r.1 == next && pos < next && next <= buf@.len(),
        },
{
    let ghost m = as_map(hs@);
    let vk = version_key_bytes();
    let version = match header_get(&hs, &vk) {
        Some(v) => bytes_of(v.as_slice()),
        None => {
            return (Err(IngestError::MissingRequiredHeader), buf.len());
        },
    };
    let tk = type_key_bytes();
    let kind = match header_get(&hs, &tk) {
        Some(tval) => match kind_from_name(tval) {
            Some(k) => k,
            None => {
                return (Err(IngestError::UnknownRecordKind), buf.len());
            },
        },
        None => {
            return (Err(IngestError::MissingRequiredHeader), buf.len());
        },
    };
    let lk = length_key_bytes();
    let cl = match header_get(&hs, &lk) {
        Some(lval) => match crate::scan::parse_dec(lval) {
            crate::scan::DecParse::Value(n) => n,
            crate::scan::DecParse::NotDigits => {
                return (Err(IngestError::MissingRequiredHeader), buf.len());
            },
            crate::scan::DecParse::Overflow => {
                return (Err(IngestError::TruncatedPayload), buf.len());
            },
        },
        None => {
            return (Err(IngestError::MissingRequiredHeader), buf.len());
        },
    };
    if buf.len() - np < cl {
        return (Err(IngestError::TruncatedPayload), buf.len());
    }
    let payload = copy_range(buf, np, np + cl);
    proof {
        lemma_after_line(buf@, np + cl);
        lemma_after_line(buf@, after_line(buf@, np + cl));
    }
    let p1 = read_line(buf, np + cl).1;
    let p2 = read_line(buf, p1).1;
    (Ok(Some(RawRecord { version, kind, payload, headers: hs })), p2)
}

} // verus!
