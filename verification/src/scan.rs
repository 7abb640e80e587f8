//! Byte-level scanning primitives shared by the record framer: finding a
//! byte, trimming surrounding whitespace, comparing byte runs, and reading a
//! decimal number.

use vstd::prelude::*;

verus! {

/// Whitespace bytes trimmed from the ends of a header line.
pub open spec fn is_ws(b: u8) -> bool {
    b == 9 || b == 10 || b == 11 || b == 12 || b == 13 || b == 32
}

/// Index of the first occurrence of `b` in `s` at or after `pos`;
/// `s.len()` when there is none.
pub open spec fn find_from(s: Seq<u8>, pos: int, b: u8) -> int
    decreases s.len() - pos when 0 <= pos <= s.len()
{
    if pos >= s.len() {
        s.len() as int
    } else if s[pos] == b {
        pos
    } else {
        find_from(s, pos + 1, b)
    }
}

pub proof fn lemma_find_from(s: Seq<u8>, pos: int, b: u8)
    requires
        0 <= pos <= s.len(),
    ensures
        pos <= find_from(s, pos, b) <= s.len(),
        forall|i: int| pos <= i < find_from(s, pos, b) ==> s[i] != b,
        find_from(s, pos, b) < s.len() ==> s[find_from(s, pos, b)] == b,
    decreases s.len() - pos,
{
    if pos < s.len() && s[pos] != b {
        lemma_find_from(s, pos + 1, b);
    }
}

/// Index of the first non-whitespace byte in `s` at or after `pos`;
/// `s.len()` when the rest is all whitespace.
pub open spec fn ws_prefix_end(s: Seq<u8>, pos: int) -> int
    decreases s.len() - pos when 0 <= pos <= s.len()
{
    if pos >= s.len() {
        s.len() as int
    } else if !is_ws(s[pos]) {
        pos
    } else {
        ws_prefix_end(s, pos + 1)
    }
}

pub proof fn lemma_ws_prefix_end(s: Seq<u8>, pos: int)
    requires
        0 <= pos <= s.len(),
    ensures
        pos <= ws_prefix_end(s, pos) <= s.len(),
        forall|i: int| pos <= i < ws_prefix_end(s, pos) ==> is_ws(s[i]),
        ws_prefix_end(s, pos) < s.len() ==> !is_ws(s[ws_prefix_end(s, pos)]),
    decreases s.len() - pos,
{
    if pos < s.len() && is_ws(s[pos]) {
        lemma_ws_prefix_end(s, pos + 1);
    }
}

/// One past the last non-whitespace byte of `s` strictly before `pos`;
/// `0` when all of `s` before `pos` is whitespace.
pub open spec fn ws_suffix_start(s: Seq<u8>, pos: int) -> int
    decreases pos when 0 <= pos <= s.len()
{
    if pos <= 0 {
        0
    } else if !is_ws(s[pos - 1]) {
        pos
    } else {
        ws_suffix_start(s, pos - 1)
    }
}

pub proof fn lemma_ws_suffix_start(s: Seq<u8>, pos: int)
    requires
        0 <= pos <= s.len(),
    ensures
        0 <= ws_suffix_start(s, pos) <= pos,
        forall|i: int| ws_suffix_start(s, pos) <= i < pos ==> is_ws(s[i]),
        ws_suffix_start(s, pos) > 0 ==> !is_ws(s[ws_suffix_start(s, pos) - 1]),
    decreases pos,
{
    if pos > 0 && is_ws(s[pos - 1]) {
        lemma_ws_suffix_start(s, pos - 1);
    }
}

/// `s` with surrounding whitespace removed, as Rust's trim does for
/// whitespace-only and ASCII-whitespace text.
pub open spec fn trim_ws(s: Seq<u8>) -> Seq<u8> {
    if ws_prefix_end(s, 0) == s.len() {
        Seq::empty()
    } else {
        s.subrange(ws_prefix_end(s, 0), ws_suffix_start(s, s.len() as int))
    }
}

/// A byte run that trimming leaves unchanged: empty, or bounded by
/// non-whitespace bytes.
pub open spec fn trim_stable(s: Seq<u8>) -> bool {
    s.len() == 0 || (!is_ws(s[0]) && !is_ws(s[s.len() - 1]))
}

pub proof fn lemma_trim_stable(s: Seq<u8>)
    requires
        trim_stable(s),
    ensures
        trim_ws(s) == s,
{
    if s.len() == 0 {
        assert(trim_ws(s) =~= s);
    } else {
        assert(ws_prefix_end(s, 0) == 0);
        assert(ws_suffix_start(s, s.len() as int) == s.len());
        assert(trim_ws(s) =~= s);
    }
}

/// Decimal value of a digit run (most significant digit first).
pub open spec fn dec_value(s: Seq<u8>) -> int
    decreases s.len(),
{
    if s.len() == 0 {
        0
    } else {
        dec_value(s.drop_last()) * 10 + (s.last() - 48)
    }
}

/// A non-empty run of ASCII decimal digits.
pub open spec fn is_dec_digits(s: Seq<u8>) -> bool {
    s.len() > 0 && forall|i: int| 0 <= i < s.len() ==> 48 <= #[trigger] s[i] <= 57
}

/// True exactly when the two byte runs are equal.
pub fn bytes_eq(a: &[u8], b: &[u8]) -> (r: bool)
    ensures
        r <==> a@ == b@,
{
    if a.len() != b.len() {
        return false;
    }
    let mut i: usize = 0;
    while i < a.len()
        invariant
            i <= a@.len(),
            a@.len() == b@.len(),
            forall|j: int| 0 <= j < i ==> a@[j] == b@[j],
        decreases a@.len() - i,
    {
        if a[i] != b[i] {
            return false;
        }
        i = i + 1;
    }
    proof {
        assert(a@ =~= b@);
    }
    true
}

/// First position of `b` in `v` at or after `from`; `v.len()` when absent.
pub fn find_byte(v: &Vec<u8>, from: usize, b: u8) -> (r: usize)
    requires
        from <= v@.len(),
    ensures
        r == find_from(v@, from as int, b),
        from <= r <= v@.len(),
{
    proof {
        lemma_find_from(v@, from as int, b);
    }
    let mut i: usize = from;
    while i < v.len()
        invariant
            from <= i <= v@.len(),
            find_from(v@, from as int, b) == find_from(v@, i as int, b),
        decreases v@.len() - i,
    {
        if v[i] == b {
            return i;
        }
        i = i + 1;
    }
    i
}

/// Copy of `v[from..to]`.
pub fn copy_range(v: &Vec<u8>, from: usize, to: usize) -> (r: Vec<u8>)
    requires
        from <= to <= v@.len(),
    ensures
        r@ == v@.subrange(from as int, to as int),
{
    let mut r: Vec<u8> = Vec::new();
    let mut i: usize = from;
    while i < to
        invariant
            from <= i <= to <= v@.len(),
            r@ == v@.subrange(from as int, i as int),
        decreases to - i,
    {
        let x = v[i];
        r.push(x);
        proof {
            assert(r@ =~= v@.subrange(from as int, i + 1));
        }
        i = i + 1;
    }
    r
}

/// `v` with surrounding whitespace removed.
pub fn trim_bytes(v: &Vec<u8>) -> (r: Vec<u8>)
    ensures
        r@ == trim_ws(v@),
{
    proof {
        lemma_ws_prefix_end(v@, 0);
        lemma_ws_suffix_start(v@, v@.len() as int);
    }
    let mut st: usize = 0;
    while st < v.len() && is_ws_byte(v[st])
        invariant
            st <= v@.len(),
            ws_prefix_end(v@, 0) == ws_prefix_end(v@, st as int),
        decreases v@.len() - st,
    {
        st = st + 1;
    }
    if st == v.len() {
        let r: Vec<u8> = Vec::new();
        proof {
            assert(r@ =~= trim_ws(v@));
        }
        return r;
    }
    let mut en: usize = v.len();
    while en > 0 && is_ws_byte(v[en - 1])
        invariant
            0 <= en <= v@.len(),
            ws_suffix_start(v@, v@.len() as int) == ws_suffix_start(v@, en as int),
        decreases en,
    {
        en = en - 1;
    }
    proof {
        assert(en > st) by {
            lemma_ws_suffix_start(v@, en as int);
        }
    }
    copy_range(v, st, en)
}

/// Whether `b` counts as trimmable whitespace.
pub fn is_ws_byte(b: u8) -> (r: bool)
    ensures
        r == is_ws(b),
{
    b == 9 || b == 10 || b == 11 || b == 12 || b == 13 || b == 32
}

/// With `s` all digits, longer digit runs never decrease the value, and
/// every digit run's value is non-negative.
pub proof fn lemma_dec_value_bounds(s: Seq<u8>)
    requires
        forall|i: int| 0 <= i < s.len() ==> 48 <= #[trigger] s[i] <= 57,
    ensures
        dec_value(s) >= 0,
        s.len() > 0 ==> dec_value(s) >= dec_value(s.drop_last()),
    decreases s.len(),
{
    if s.len() > 0 {
        lemma_dec_value_bounds(s.drop_last());
    }
}

/// How a byte run reads as a decimal number.
pub enum DecParse {
    /// A non-empty all-digit run whose value fits a machine word.
    Value(usize),
    /// Empty, or holding a non-digit byte.
    NotDigits,
    /// A non-empty all-digit run whose value exceeds a machine word.
    Overflow,
}

/// Parse a non-empty all-digit run as a machine word.
pub fn parse_dec(v: &Vec<u8>) -> (r: DecParse)
    ensures
        match r {
            DecParse::Value(n) => is_dec_digits(v@) && n == dec_value(v@),
            DecParse::NotDigits => !is_dec_digits(v@),
            DecParse::Overflow => is_dec_digits(v@) && dec_value(v@) > usize::MAX,
        },
{
    if v.len() == 0 {
        return DecParse::NotDigits;
    }
    let mut acc: usize = 0;
    let mut i: usize = 0;
    while i < v.len()
        invariant
            i <= v@.len(),
            acc == dec_value(v@.subrange(0, i as int)),
            forall|j: int| 0 <= j < i ==> 48 <= #[trigger] v@[j] <= 57,
        decreases v@.len() - i,
    {
        let d = v[i];
        if d < 48 || d > 57 {
            return DecParse::NotDigits;
        }
        let digit = (d - 48) as usize;
        if acc > (usize::MAX - digit) / 10 {
            return if all_digits_from(v, i + 1) {
                proof {
                    lemma_dec_overflow(v@, i as int, acc as int, digit as int);
                }
                DecParse::Overflow
            } else {
                DecParse::NotDigits
            };
        }
        proof {
            assert(v@.subrange(0, i + 1).drop_last() =~= v@.subrange(0, i as int));
        }
        acc = acc * 10 + digit;
        i = i + 1;
    }
    proof {
        assert(v@.subrange(0, v@.len() as int) =~= v@);
    }
    DecParse::Value(acc)
}

/// Whether every byte of `v` at or after `from` is a decimal digit.
fn all_digits_from(v: &Vec<u8>, from: usize) -> (r: bool)
    requires
        from <= v@.len(),
    ensures
        r <==> forall|j: int| from <= j < v@.len() ==> 48 <= #[trigger] v@[j] <= 57,
{
    let mut i: usize = from;
    while i < v.len()
        invariant
            from <= i <= v@.len(),
            forall|j: int| from <= j < i ==> 48 <= #[trigger] v@[j] <= 57,
        decreases v@.len() - i,
    {
        let d = v[i];
        if d < 48 || d > 57 {
            return false;
        }
        i = i + 1;
    }
    true
}

/// When one more digit overflows the accumulator, the value of the whole
/// digit run cannot fit either.
proof fn lemma_dec_overflow(s: Seq<u8>, i: int, acc: int, digit: int)
    requires
        0 <= i < s.len(),
        forall|j: int| 0 <= j < i ==> 48 <= #[trigger] s[j] <= 57,
        48 <= s[i] <= 57,
        acc == dec_value(s.subrange(0, i)),
        digit == s[i] - 48,
        acc > (usize::MAX - digit) / 10,
    ensures
        !is_dec_digits(s) || dec_value(s) > usize::MAX,
{
    if is_dec_digits(s) {
        assert(s.subrange(0, i + 1).drop_last() =~= s.subrange(0, i));
        assert(dec_value(s.subrange(0, i + 1)) == acc * 10 + digit);
        assert(acc * 10 + digit > usize::MAX) by {
            assert(acc >= (usize::MAX - digit) / 10 + 1);
            assert(((usize::MAX - digit) / 10 + 1) * 10 + digit > usize::MAX) by (nonlinear_arith)
                requires
                    0 <= digit <= 9,
            ;
            assert(acc * 10 >= ((usize::MAX - digit) / 10 + 1) * 10) by (nonlinear_arith)
                requires
                    acc >= (usize::MAX - digit) / 10 + 1,
            ;
        }
        lemma_dec_prefix_monotone(s, i + 1);
    }
}

/// With `s` all digits, the value of a prefix never exceeds the value of
/// the whole run.
proof fn lemma_dec_prefix_monotone(s: Seq<u8>, i: int)
    requires
        0 <= i <= s.len(),
        forall|j: int| 0 <= j < s.len() ==> 48 <= #[trigger] s[j] <= 57,
    ensures
        dec_value(s) >= dec_value(s.subrange(0, i)),
    decreases s.len() - i,
{
    if i < s.len() {
        lemma_dec_prefix_monotone(s, i + 1);
        assert(s.subrange(0, i + 1).drop_last() =~= s.subrange(0, i));
        assert(forall|j: int| 0 <= j < s.subrange(0, i).len() ==> 48 <= #[trigger] s.subrange(0, i)[j] <= 57);
        lemma_dec_value_bounds(s.subrange(0, i));
        assert(dec_value(s.subrange(0, i + 1)) >= dec_value(s.subrange(0, i)) * 10);
    } else {
        assert(s.subrange(0, s.len() as int) =~= s);
    }
}

} // verus!
