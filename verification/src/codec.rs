//! The persisted index format: a self-describing structured text record
//! holding the source file path under a `file` key and the segments as an
//! array of `{hash, offset}` records. The decoder tolerates surrounding
//! whitespace and either field order inside each record; the encoder emits
//! one canonical form that the decoder reads back exactly.

use vstd::prelude::*;
use vstd::string::*;

use crate::index::{HashFile, TsSegment};

verus! {

/// How decoding fails: the text is not a record of this format.
#[derive(Clone, Copy, Debug, PartialEq, Eq, Structural)]
pub enum CodecError {
    Malformed,
}

/// The character for one decimal digit value.
pub open spec fn spec_digit_char(d: int) -> char {
    if d == 0 {
        '0'
    } else if d == 1 {
        '1'
    } else if d == 2 {
        '2'
    } else if d == 3 {
        '3'
    } else if d == 4 {
        '4'
    } else if d == 5 {
        '5'
    } else if d == 6 {
        '6'
    } else if d == 7 {
        '7'
    } else if d == 8 {
        '8'
    } else {
        '9'
    }
}

/// The decimal digits of `n`, most significant first, no sign and no
/// leading zero (a single `0` for zero).
pub open spec fn spec_dec_u64(n: u64) -> Seq<char>
    decreases n,
{
    if n < 10 {
        seq![spec_digit_char(n as int)]
    } else {
        spec_dec_u64((n as int / 10) as u64).push(spec_digit_char(n as int % 10))
    }
}

/// Whether `c` is a decimal digit.
pub open spec fn spec_is_digit(c: char) -> bool {
    48 <= c as u32 <= 57
}

/// The value of a digit character.
pub open spec fn spec_digit_val(c: char) -> int {
    c as u32 - 48
}

/// Whether `c` is insignificant whitespace between tokens.
pub open spec fn spec_is_ws(c: char) -> bool {
    c == ' ' || c == '\n' || c == '\t' || c == '\r'
}

/// The first position at or after `i` holding no whitespace.
pub open spec fn spec_skip_ws(s: Seq<char>, i: int) -> int
    decreases s.len() - i,
{
    if 0 <= i < s.len() && spec_is_ws(s[i]) {
        spec_skip_ws(s, i + 1)
    } else {
        i
    }
}

/// `Some(i + 1)` when character `c` stands at position `i`.
pub open spec fn spec_expect(s: Seq<char>, i: int, c: char) -> Option<int> {
    if 0 <= i < s.len() && s[i] == c {
        Some(i + 1)
    } else {
        None
    }
}

/// A decimal number read greedily from position `i`: at least one digit,
/// rejecting values past `u64::MAX`, ending before the first non-digit.
pub open spec fn spec_parse_u64_rec(s: Seq<char>, i: int, acc: u64) -> Option<(u64, int)>
    decreases s.len() - i,
{
    if 0 <= i < s.len() && spec_is_digit(s[i]) {
        let d = spec_digit_val(s[i]);
        if acc as int * 10 + d > u64::MAX as int {
            None
        } else {
            spec_parse_u64_rec(s, i + 1, (acc as int * 10 + d) as u64)
        }
    } else {
        Some((acc, i))
    }
}

/// A decimal number at position `i`.
pub open spec fn spec_parse_u64(s: Seq<char>, i: int) -> Option<(u64, int)> {
    if 0 <= i < s.len() && spec_is_digit(s[i]) {
        spec_parse_u64_rec(s, i, 0)
    } else {
        None
    }
}

/// The escaped form of one string character: quote and backslash take a
/// backslash in front, everything else stands as itself.
pub open spec fn spec_escape_char(c: char) -> Seq<char> {
    if c == '"' || c == '\\' {
        seq!['\\', c]
    } else {
        seq![c]
    }
}

/// The escaped form of a whole string value.
pub open spec fn spec_escape(s: Seq<char>) -> Seq<char>
    decreases s.len(),
{
    if s.len() == 0 {
        Seq::empty()
    } else {
        spec_escape_char(s[0]) + spec_escape(s.drop_first())
    }
}

/// A string body read from position `i` (after its opening quote) up to and
/// including its closing quote, undoing the two escapes.
pub open spec fn spec_parse_jstring(s: Seq<char>, i: int) -> Option<(Seq<char>, int)>
    decreases s.len() - i,
{
    if !(0 <= i < s.len()) {
        None
    } else if s[i] == '"' {
        Some((Seq::empty(), i + 1))
    } else if s[i] == '\\' {
        if i + 1 < s.len() && (s[i + 1] == '"' || s[i + 1] == '\\') {
            match spec_parse_jstring(s, i + 2) {
                None => None,
                Some((t, j)) => Some((seq![s[i + 1]] + t, j)),
            }
        } else {
            None
        }
    } else {
        match spec_parse_jstring(s, i + 1) {
            None => None,
            Some((t, j)) => Some((seq![s[i]] + t, j)),
        }
    }
}

/// The decimal digits of `n` are digits.
pub proof fn lemma_dec_digits(n: u64)
    ensures
        spec_dec_u64(n).len() >= 1,
        forall|j: int| 0 <= j < spec_dec_u64(n).len() ==> spec_is_digit(#[trigger] spec_dec_u64(n)[j]),
    decreases n,
{
    if n < 10 {
        assert(spec_is_digit(spec_dec_u64(n)[0]));
    } else {
        lemma_dec_digits((n as int / 10) as u64);
        let pre = spec_dec_u64((n as int / 10) as u64);
        let d = spec_digit_char(n as int % 10);
        assert(spec_dec_u64(n) == pre.push(d));
        assert(spec_is_digit(d));
        assert forall|j: int| 0 <= j < spec_dec_u64(n).len() implies spec_is_digit(
            #[trigger] spec_dec_u64(n)[j],
        ) by {
            if j < pre.len() {
                assert(spec_dec_u64(n)[j] == pre[j]);
            }
        }
    }
}

/// Ten to the `k`.
pub open spec fn spec_pow10(k: nat) -> int
    decreases k,
{
    if k == 0 {
        1
    } else {
        10 * spec_pow10((k - 1) as nat)
    }
}

/// Reading the digits of `n` folds them onto the accumulator: the scan
/// carries `a` across `dec(n)` into `a * 10^len + n`.
proof fn lemma_parse_rec_digits(s: Seq<char>, i: int, a: u64, n: u64)
    requires
        0 <= i,
        i + spec_dec_u64(n).len() <= s.len(),
        s.subrange(i, i + spec_dec_u64(n).len() as int) == spec_dec_u64(n),
        a as int * spec_pow10(spec_dec_u64(n).len() as nat) + n <= u64::MAX as int,
    ensures
        spec_parse_u64_rec(s, i, a) == spec_parse_u64_rec(
            s,
            i + spec_dec_u64(n).len() as int,
            (a as int * spec_pow10(spec_dec_u64(n).len() as nat) + n) as u64,
        ),
    decreases n,
{
    let dec = spec_dec_u64(n);
    let l = dec.len() as int;
    lemma_dec_digits(n);
    if n < 10 {
        assert(s[i] == dec[0]);
        assert(spec_is_digit(s[i]));
        assert(spec_digit_val(spec_digit_char(n as int)) == n as int);
        assert(spec_pow10(0) == 1);
        assert(spec_pow10(1) == 10);
        assert(a as int * 10 + n <= u64::MAX as int);
        assert(spec_parse_u64_rec(s, i, a) == spec_parse_u64_rec(s, i + 1, (a as int * 10
            + n) as u64));
    } else {
        let m = (n as int / 10) as u64;
        let pre = spec_dec_u64(m);
        let lp = pre.len() as int;
        let d = n as int % 10;
        assert(dec == pre.push(spec_digit_char(d)));
        assert(l == lp + 1);
        assert(s.subrange(i, i + lp) =~= pre) by {
            assert forall|j: int| 0 <= j < lp implies s.subrange(i, i + lp)[j] == pre[j] by {
                assert(s.subrange(i, i + l)[j] == pre.push(spec_digit_char(d))[j]);
            }
        }
        let p = spec_pow10(pre.len() as nat);
        lemma_pow10_pos(pre.len() as nat);
        assert(spec_pow10(dec.len() as nat) == 10 * p);
        assert(m as int * 10 + d == n) by (nonlinear_arith)
            requires
                m == n as int / 10,
                d == n as int % 10,
                n >= 10,
        ;
        assert(a as int * p + m <= u64::MAX as int) by (nonlinear_arith)
            requires
                a as int * (10 * p) + n <= u64::MAX as int,
                m as int * 10 + d == n,
                0 <= d < 10,
                p >= 1,
                a >= 0,
                m >= 0,
        ;
        lemma_parse_rec_digits(s, i, a, m);
        assert(a as int * p >= 0) by (nonlinear_arith)
            requires
                a >= 0,
                p >= 1,
        ;
        let a2 = (a as int * p + m) as u64;
        assert(a2 as int == a as int * p + m);
        assert(s[i + lp] == dec[lp]);
        assert(dec[lp] == spec_digit_char(d));
        assert(spec_is_digit(s[i + lp]));
        assert(spec_digit_val(spec_digit_char(d)) == d);
        assert(a2 as int * 10 + d == a as int * (10 * p) + n) by (nonlinear_arith)
            requires
                a2 == a as int * p + m,
                m as int * 10 + d == n,
        ;
        assert(spec_parse_u64_rec(s, i + lp, a2) == spec_parse_u64_rec(s, i + l, (a2 as int * 10
            + d) as u64));
    }
}

/// `spec_pow10` is at least one.
proof fn lemma_pow10_pos(k: nat)
    ensures
        spec_pow10(k) >= 1,
    decreases k,
{
    if k > 0 {
        lemma_pow10_pos((k - 1) as nat);
    }
}

/// Reading back the decimal digits of `n` yields `n` and stops right after
/// them, provided no digit follows.
pub proof fn lemma_parse_dec(s: Seq<char>, i: int, n: u64)
    requires
        0 <= i,
        i + spec_dec_u64(n).len() <= s.len(),
        s.subrange(i, i + spec_dec_u64(n).len() as int) == spec_dec_u64(n),
        i + spec_dec_u64(n).len() == s.len() || !spec_is_digit(
            s[i + spec_dec_u64(n).len() as int],
        ),
    ensures
        spec_parse_u64(s, i) == Some((n, i + spec_dec_u64(n).len() as int)),
{
    let dec = spec_dec_u64(n);
    let l = dec.len() as int;
    lemma_dec_digits(n);
    lemma_pow10_pos(dec.len() as nat);
    assert(s[i] == dec[0]);
    assert(spec_is_digit(s[i]));
    assert(0 * spec_pow10(dec.len() as nat) + n <= u64::MAX as int);
    lemma_parse_rec_digits(s, i, 0, n);
    assert(0 as int * spec_pow10(dec.len() as nat) + n == n as int) by (nonlinear_arith);
    assert(spec_parse_u64_rec(s, i + l, n) == Some((n, i + l)));
}

/// Reading back the escaped form of `f`, followed by a closing quote,
/// yields `f` and stops right after the quote.
pub proof fn lemma_parse_escaped(s: Seq<char>, i: int, f: Seq<char>)
    requires
        0 <= i,
        i + spec_escape(f).len() < s.len(),
        s.subrange(i, i + spec_escape(f).len() as int) == spec_escape(f),
        s[i + spec_escape(f).len() as int] == '"',
    ensures
        spec_parse_jstring(s, i) == Some((f, i + spec_escape(f).len() + 1)),
    decreases f.len(),
{
    let e = spec_escape(f);
    let l = e.len() as int;
    if f.len() == 0 {
        assert(l == 0);
        assert(s[i] == '"');
        assert(spec_parse_jstring(s, i) == Some((Seq::<char>::empty(), i + 1)));
        assert(f =~= Seq::<char>::empty());
    } else {
        let c = f[0];
        let rest = f.drop_first();
        let ec = spec_escape_char(c);
        let er = spec_escape(rest);
        assert(e == ec + er);
        let lc = ec.len() as int;
        assert(s.subrange(i + lc, i + l) =~= er) by {
            assert forall|j: int| 0 <= j < er.len() implies s.subrange(i + lc, i + l)[j]
                == er[j] by {
                assert(s.subrange(i, i + l)[lc + j] == (ec + er)[lc + j]);
            }
        }
        lemma_parse_escaped(s, i + lc, rest);
        assert(s.subrange(i, i + l)[0] == ec[0]);
        if c == '"' || c == '\\' {
            assert(ec == seq!['\\', c]);
            assert(s[i] == '\\');
            assert(s.subrange(i, i + l)[1] == ec[1]);
            assert(s[i + 1] == c);
            assert(spec_parse_jstring(s, i) == Some((seq![c] + rest, i + l + 1)));
            assert(seq![c] + rest =~= f);
        } else {
            assert(ec == seq![c]);
            assert(s[i] == c);
            assert(s[i] != '"' && s[i] != '\\');
            assert(spec_parse_jstring(s, i) == Some((seq![c] + rest, i + l + 1)));
            assert(seq![c] + rest =~= f);
        }
    }
}

/// The `hash` key of a segment record.
pub open spec fn spec_hash_key() -> Seq<char> {
    seq!['h', 'a', 's', 'h']
}

/// The `offset` key of a segment record.
pub open spec fn spec_offset_key() -> Seq<char> {
    seq!['o', 'f', 'f', 's', 'e', 't']
}

/// The `file` key of the outer record.
pub open spec fn spec_file_key() -> Seq<char> {
    seq!['f', 'i', 'l', 'e']
}

/// The `segments` key of the outer record.
pub open spec fn spec_segments_key() -> Seq<char> {
    seq!['s', 'e', 'g', 'm', 'e', 'n', 't', 's']
}

/// A quoted key followed by its colon, with whitespace allowed around it:
/// the returned position stands on the value.
pub open spec fn spec_parse_key(s: Seq<char>, i: int) -> Option<(Seq<char>, int)> {
    let i0 = spec_skip_ws(s, i);
    match spec_expect(s, i0, '"') {
        None => None,
        Some(i1) => match spec_parse_jstring(s, i1) {
            None => None,
            Some((k, i2)) => {
                let i3 = spec_skip_ws(s, i2);
                match spec_expect(s, i3, ':') {
                    None => None,
                    Some(i4) => Some((k, spec_skip_ws(s, i4))),
                }
            },
        },
    }
}

/// One `{hash, offset}` record, in either field order.
pub open spec fn spec_parse_segment(s: Seq<char>, i: int) -> Option<(TsSegment, int)> {
    let i0 = spec_skip_ws(s, i);
    match spec_expect(s, i0, '{') {
        None => None,
        Some(i1) => match spec_parse_key(s, i1) {
            None => None,
            Some((k1, i2)) => match spec_parse_u64(s, i2) {
                None => None,
                Some((v1, i3)) => {
                    let i4 = spec_skip_ws(s, i3);
                    match spec_expect(s, i4, ',') {
                        None => None,
                        Some(i5) => match spec_parse_key(s, i5) {
                            None => None,
                            Some((k2, i6)) => match spec_parse_u64(s, i6) {
                                None => None,
                                Some((v2, i7)) => {
                                    let i8 = spec_skip_ws(s, i7);
                                    match spec_expect(s, i8, '}') {
                                        None => None,
                                        Some(i9) => {
                                            if k1 == spec_hash_key() && k2 == spec_offset_key() {
                                                Some((TsSegment { hash: v1, offset: v2 }, i9))
                                            } else if k1 == spec_offset_key() && k2
                                                == spec_hash_key() {
                                                Some((TsSegment { hash: v2, offset: v1 }, i9))
                                            } else {
                                                None
                                            }
                                        },
                                    }
                                },
                            },
                        },
                    }
                },
            },
        },
    }
}

/// The records after the first inside the array: a comma and a record, over
/// and over, until the closing bracket.
pub open spec fn spec_parse_segments_rest(s: Seq<char>, i: int, acc: Seq<TsSegment>) -> Option<
    (Seq<TsSegment>, int),
>
    decreases vstd::math::max(s.len() - i, 0),
{
    let i0 = vstd::math::max(spec_skip_ws(s, i), i);
    if spec_expect(s, i0, ']') is Some {
        Some((acc, i0 + 1))
    } else {
        match spec_expect(s, i0, ',') {
            None => None,
            Some(i1) => match spec_parse_segment(s, i1) {
                None => None,
                Some((e, j)) => spec_parse_segments_rest(
                    s,
                    vstd::math::max(j, i0 + 2),
                    acc.push(e),
                ),
            },
        }
    }
}

/// The whole bracketed array of segment records.
pub open spec fn spec_parse_segments(s: Seq<char>, i: int) -> Option<(Seq<TsSegment>, int)> {
    let i0 = spec_skip_ws(s, i);
    match spec_expect(s, i0, '[') {
        None => None,
        Some(i1) => {
            let i2 = spec_skip_ws(s, i1);
            if i2 < s.len() && s[i2] == ']' {
                Some((Seq::empty(), i2 + 1))
            } else {
                match spec_parse_segment(s, i1) {
                    None => None,
                    Some((e, j)) => spec_parse_segments_rest(
                        s,
                        vstd::math::max(j, i1 + 1),
                        seq![e],
                    ),
                }
            }
        },
    }
}

/// The whole persisted record: one object holding `file` and `segments`, in
/// either order, with nothing but whitespace after it.
pub open spec fn spec_parse_index(s: Seq<char>) -> Option<(Seq<char>, Seq<TsSegment>)> {
    let i0 = spec_skip_ws(s, 0);
    match spec_expect(s, i0, '{') {
        None => None,
        Some(i1) => match spec_parse_key(s, i1) {
            None => None,
            Some((k1, i2)) => {
                if k1 == spec_file_key() {
                    match spec_expect(s, i2, '"') {
                        None => None,
                        Some(i3) => match spec_parse_jstring(s, i3) {
                            None => None,
                            Some((f, i4)) => {
                                let i5 = spec_skip_ws(s, i4);
                                match spec_expect(s, i5, ',') {
                                    None => None,
                                    Some(i6) => match spec_parse_key(s, i6) {
                                        None => None,
                                        Some((k2, i7)) => {
                                            if k2 == spec_segments_key() {
                                                spec_parse_index_tail(s, i7, f)
                                            } else {
                                                None
                                            }
                                        },
                                    },
                                }
                            },
                        },
                    }
                } else if k1 == spec_segments_key() {
                    match spec_parse_segments(s, i2) {
                        None => None,
                        Some((segs, i3)) => {
                            let i4 = spec_skip_ws(s, i3);
                            match spec_expect(s, i4, ',') {
                                None => None,
                                Some(i5) => match spec_parse_key(s, i5) {
                                    None => None,
                                    Some((k2, i6)) => {
                                        if k2 == spec_file_key() {
                                            match spec_expect(s, i6, '"') {
                                                None => None,
                                                Some(i7) => match spec_parse_jstring(s, i7) {
                                                    None => None,
                                                    Some((f, i8)) => spec_parse_index_close(
                                                        s,
                                                        i8,
                                                        f,
                                                        segs,
                                                    ),
                                                },
                                            }
                                        } else {
                                            None
                                        }
                                    },
                                },
                            }
                        },
                    }
                } else {
                    None
                }
            },
        },
    }
}

/// The `segments` value and the record's close, after a leading `file`
/// field.
pub open spec fn spec_parse_index_tail(s: Seq<char>, i: int, f: Seq<char>) -> Option<
    (Seq<char>, Seq<TsSegment>),
> {
    match spec_parse_segments(s, i) {
        None => None,
        Some((segs, j)) => spec_parse_index_close(s, j, f, segs),
    }
}

/// The closing brace and trailing whitespace of the outer record.
pub open spec fn spec_parse_index_close(
    s: Seq<char>,
    i: int,
    f: Seq<char>,
    segs: Seq<TsSegment>,
) -> Option<(Seq<char>, Seq<TsSegment>)> {
    let i0 = spec_skip_ws(s, i);
    match spec_expect(s, i0, '}') {
        None => None,
        Some(i1) => {
            if spec_skip_ws(s, i1) == s.len() {
                Some((f, segs))
            } else {
                None
            }
        },
    }
}

/// The canonical encoding of one segment record.
pub open spec fn spec_encode_segment(seg: TsSegment) -> Seq<char> {
    seq!['{', '"', 'h', 'a', 's', 'h', '"', ':'] + spec_dec_u64(seg.hash) + seq![
        ',',
        '"',
        'o',
        'f',
        'f',
        's',
        'e',
        't',
        '"',
        ':',
    ] + spec_dec_u64(seg.offset) + seq!['}']
}

/// The canonical encoding of every record after the first, each preceded by
/// a comma, closed by the bracket.
pub open spec fn spec_encode_rest(segs: Seq<TsSegment>) -> Seq<char>
    decreases segs.len(),
{
    if segs.len() == 0 {
        seq![']']
    } else {
        seq![','] + spec_encode_segment(segs[0]) + spec_encode_rest(segs.drop_first())
    }
}

/// The canonical encoding of the whole segment array.
pub open spec fn spec_encode_segments(segs: Seq<TsSegment>) -> Seq<char> {
    if segs.len() == 0 {
        seq!['[', ']']
    } else {
        seq!['['] + spec_encode_segment(segs[0]) + spec_encode_rest(segs.drop_first())
    }
}

/// The canonical encoding of the whole index record.
pub open spec fn spec_encode_index(file: Seq<char>, segs: Seq<TsSegment>) -> Seq<char> {
    seq!['{', '"', 'f', 'i', 'l', 'e', '"', ':', '"'] + spec_escape(file) + seq![
        '"',
        ',',
        '"',
        's',
        'e',
        'g',
        'm',
        'e',
        'n',
        't',
        's',
        '"',
        ':',
    ] + spec_encode_segments(segs) + seq!['}']
}

/// A subrange of an already-matched subrange, shifted to absolute
/// positions.
proof fn lemma_subrange_shift(s: Seq<char>, i: int, e: Seq<char>, a: int, b: int)
    requires
        0 <= i,
        i + e.len() <= s.len(),
        s.subrange(i, i + e.len() as int) == e,
        0 <= a <= b <= e.len(),
    ensures
        s.subrange(i + a, i + b) == e.subrange(a, b),
{
    assert(s.subrange(i + a, i + b) =~= e.subrange(a, b)) by {
        assert forall|j: int| 0 <= j < b - a implies s.subrange(i + a, i + b)[j] == e.subrange(
            a,
            b,
        )[j] by {
            assert(s.subrange(i, i + e.len() as int)[a + j] == e[a + j]);
        }
    }
}

/// One character of an already-matched subrange, at its absolute position.
proof fn lemma_char_at(s: Seq<char>, i: int, e: Seq<char>, a: int)
    requires
        0 <= i,
        i + e.len() <= s.len(),
        s.subrange(i, i + e.len() as int) == e,
        0 <= a < e.len(),
    ensures
        s[i + a] == e[a],
{
    assert(s.subrange(i, i + e.len() as int)[a] == e[a]);
}

/// A string without quotes and backslashes is its own escaped form.
proof fn lemma_escape_plain(f: Seq<char>)
    requires
        forall|j: int| 0 <= j < f.len() ==> f[j] != '"' && f[j] != '\\',
    ensures
        spec_escape(f) == f,
    decreases f.len(),
{
    if f.len() == 0 {
        assert(spec_escape(f) =~= f);
    } else {
        assert(forall|j: int|
            0 <= j < f.drop_first().len() ==> f.drop_first()[j] == #[trigger] f[j + 1]);
        lemma_escape_plain(f.drop_first());
        assert(spec_escape_char(f[0]) == seq![f[0]]);
        assert(spec_escape(f) =~= f);
    }
}

/// A digit never counts as whitespace.
proof fn lemma_digit_not_ws(c: char)
    requires
        spec_is_digit(c),
    ensures
        !spec_is_ws(c),
{
    assert(' ' as u32 == 32 && '\n' as u32 == 10 && '\t' as u32 == 9 && '\r' as u32 == 13);
}

/// Reading back a plain quoted key followed by its colon and a
/// non-whitespace value yields the key and stops on the value.
proof fn lemma_parse_key_at(s: Seq<char>, i: int, k: Seq<char>)
    requires
        0 <= i,
        i + k.len() + 3 <= s.len(),
        s.subrange(i, i + k.len() + 3) == seq!['"'] + k + seq!['"', ':'],
        forall|j: int| 0 <= j < k.len() ==> k[j] != '"' && k[j] != '\\',
        i + k.len() + 3 == s.len() || !spec_is_ws(s[i + k.len() + 3]),
    ensures
        spec_parse_key(s, i) == Some((k, i + k.len() + 3)),
{
    let pat = seq!['"'] + k + seq!['"', ':'];
    let l = k.len() as int;
    assert(pat.len() == l + 3);
    lemma_char_at(s, i, pat, 0);
    assert(s[i] == '"');
    assert(spec_skip_ws(s, i) == i);
    lemma_escape_plain(k);
    assert(s.subrange(i + 1, i + 1 + l) =~= k) by {
        assert forall|j: int| 0 <= j < l implies s.subrange(i + 1, i + 1 + l)[j] == k[j] by {
            assert(s.subrange(i, i + l + 3)[1 + j] == pat[1 + j]);
            assert(pat[1 + j] == k[j]);
        }
    }
    lemma_char_at(s, i, pat, l + 1);
    assert(s[i + 1 + l] == '"');
    lemma_parse_escaped(s, i + 1, k);
    assert(spec_parse_jstring(s, i + 1) == Some((k, i + l + 2)));
    lemma_char_at(s, i, pat, l + 2);
    assert(s[i + l + 2] == ':');
    assert(spec_skip_ws(s, i + l + 2) == i + l + 2);
    assert(spec_skip_ws(s, i + l + 3) == i + l + 3);
}

/// Reading back the canonical encoding of one segment yields that segment
/// and stops right after it.
proof fn lemma_parse_segment_at(s: Seq<char>, i: int, seg: TsSegment)
    requires
        0 <= i,
        i + spec_encode_segment(seg).len() <= s.len(),
        s.subrange(i, i + spec_encode_segment(seg).len() as int) == spec_encode_segment(seg),
    ensures
        spec_parse_segment(s, i) == Some((seg, i + spec_encode_segment(seg).len() as int)),
{
    let e = spec_encode_segment(seg);
    let dh = spec_dec_u64(seg.hash);
    let dofs = spec_dec_u64(seg.offset);
    let lh = dh.len() as int;
    let lo = dofs.len() as int;
    let el = e.len() as int;
    lemma_dec_digits(seg.hash);
    lemma_dec_digits(seg.offset);
    assert(el == 19 + lh + lo);
    lemma_char_at(s, i, e, 0);
    assert(s[i] == '{');
    assert(spec_skip_ws(s, i) == i);
    // the hash key
    lemma_subrange_shift(s, i, e, 1, 8);
    assert(e.subrange(1, 8) =~= seq!['"'] + spec_hash_key() + seq!['"', ':']) by {
        assert forall|j: int| 0 <= j < 7 implies e.subrange(1, 8)[j] == (seq!['"']
            + spec_hash_key() + seq!['"', ':'])[j] by {}
    }
    lemma_char_at(s, i, e, 8);
    assert(s[i + 8] == dh[0]);
    assert(spec_is_digit(dh[0]));
    lemma_digit_not_ws(dh[0]);
    lemma_parse_key_at(s, i + 1, spec_hash_key());
    // the hash digits
    lemma_subrange_shift(s, i, e, 8, 8 + lh);
    assert(e.subrange(8, 8 + lh) =~= dh) by {
        assert forall|j: int| 0 <= j < lh implies e.subrange(8, 8 + lh)[j] == dh[j] by {}
    }
    lemma_char_at(s, i, e, 8 + lh);
    assert(e[8 + lh] == ',');
    assert(!spec_is_digit(',')) by {
        assert(',' as u32 == 44);
    }
    lemma_parse_dec(s, i + 8, seg.hash);
    assert(spec_parse_u64(s, i + 8) == Some((seg.hash, i + 8 + lh)));
    // the comma between the fields
    assert(spec_skip_ws(s, i + 8 + lh) == i + 8 + lh);
    // the offset key
    lemma_subrange_shift(s, i, e, 9 + lh, 18 + lh);
    assert(e.subrange(9 + lh, 18 + lh) =~= seq!['"'] + spec_offset_key() + seq!['"', ':']) by {
        assert forall|j: int| 0 <= j < 9 implies e.subrange(9 + lh, 18 + lh)[j] == (seq!['"']
            + spec_offset_key() + seq!['"', ':'])[j] by {}
    }
    lemma_char_at(s, i, e, 18 + lh);
    assert(s[i + 18 + lh] == dofs[0]);
    assert(spec_is_digit(dofs[0]));
    lemma_digit_not_ws(dofs[0]);
    lemma_parse_key_at(s, i + 9 + lh, spec_offset_key());
    // the offset digits
    lemma_subrange_shift(s, i, e, 18 + lh, 18 + lh + lo);
    assert(e.subrange(18 + lh, 18 + lh + lo) =~= dofs) by {
        assert forall|j: int| 0 <= j < lo implies e.subrange(18 + lh, 18 + lh + lo)[j]
            == dofs[j] by {}
    }
    lemma_char_at(s, i, e, 18 + lh + lo);
    assert(e[18 + lh + lo] == '}');
    assert(!spec_is_digit('}')) by {
        assert('}' as u32 == 125);
    }
    lemma_parse_dec(s, i + 18 + lh, seg.offset);
    // the closing brace
    assert(spec_skip_ws(s, i + 18 + lh + lo) == i + 18 + lh + lo);
    assert(spec_parse_segment(s, i) == Some((TsSegment { hash: seg.hash, offset: seg.offset }, i
        + el)));
}

/// Reading back the encoded records after the first appends them to the
/// accumulator and stops right after the closing bracket.
proof fn lemma_parse_rest_at(s: Seq<char>, i: int, segs: Seq<TsSegment>, acc: Seq<TsSegment>)
    requires
        0 <= i,
        i + spec_encode_rest(segs).len() <= s.len(),
        s.subrange(i, i + spec_encode_rest(segs).len() as int) == spec_encode_rest(segs),
    ensures
        spec_parse_segments_rest(s, i, acc) == Some(
            (acc + segs, i + spec_encode_rest(segs).len() as int),
        ),
    decreases segs.len(),
{
    let e = spec_encode_rest(segs);
    let rl = e.len() as int;
    if segs.len() == 0 {
        lemma_char_at(s, i, e, 0);
        assert(s[i] == ']');
        assert(spec_skip_ws(s, i) == i);
        assert(vstd::math::max(spec_skip_ws(s, i), i) == i);
        assert(spec_parse_segments_rest(s, i, acc) == Some((acc, i + 1)));
        assert(acc + segs =~= acc);
    } else {
        let e0 = spec_encode_segment(segs[0]);
        let l0 = e0.len() as int;
        let er = spec_encode_rest(segs.drop_first());
        assert(e == seq![','] + e0 + er);
        lemma_dec_digits(segs[0].hash);
        lemma_dec_digits(segs[0].offset);
        assert(l0 >= 21);
        lemma_char_at(s, i, e, 0);
        assert(s[i] == ',');
        assert(spec_skip_ws(s, i) == i);
        assert(vstd::math::max(spec_skip_ws(s, i), i) == i);
        assert(spec_expect(s, i, ']') is None);
        assert(spec_expect(s, i, ',') == Some(i + 1));
        lemma_subrange_shift(s, i, e, 1, 1 + l0);
        assert(e.subrange(1, 1 + l0) =~= e0) by {
            assert forall|j: int| 0 <= j < l0 implies e.subrange(1, 1 + l0)[j] == e0[j] by {}
        }
        lemma_parse_segment_at(s, i + 1, segs[0]);
        let j = i + 1 + l0;
        assert(vstd::math::max(j, i + 2) == j);
        lemma_subrange_shift(s, i, e, 1 + l0, rl);
        assert(e.subrange(1 + l0, rl) =~= er) by {
            assert forall|t: int| 0 <= t < er.len() implies e.subrange(1 + l0, rl)[t] == er[t] by {}
        }
        lemma_parse_rest_at(s, j, segs.drop_first(), acc.push(segs[0]));
        assert(acc.push(segs[0]) + segs.drop_first() =~= acc + segs);
        assert(j + er.len() == i + rl);
    }
}

/// Reading back the whole encoded array yields the segments and stops right
/// after the closing bracket.
proof fn lemma_parse_segments_at(s: Seq<char>, i: int, segs: Seq<TsSegment>)
    requires
        0 <= i,
        i + spec_encode_segments(segs).len() <= s.len(),
        s.subrange(i, i + spec_encode_segments(segs).len() as int) == spec_encode_segments(segs),
    ensures
        spec_parse_segments(s, i) == Some((segs, i + spec_encode_segments(segs).len() as int)),
{
    let e = spec_encode_segments(segs);
    let sl = e.len() as int;
    lemma_char_at(s, i, e, 0);
    assert(s[i] == '[');
    assert(spec_skip_ws(s, i) == i);
    if segs.len() == 0 {
        lemma_char_at(s, i, e, 1);
        assert(s[i + 1] == ']');
        assert(spec_skip_ws(s, i + 1) == i + 1);
        assert(spec_parse_segments(s, i) == Some((Seq::<TsSegment>::empty(), i + 2)));
        assert(segs =~= Seq::<TsSegment>::empty());
    } else {
        let e0 = spec_encode_segment(segs[0]);
        let l0 = e0.len() as int;
        let er = spec_encode_rest(segs.drop_first());
        assert(e == seq!['['] + e0 + er);
        lemma_dec_digits(segs[0].hash);
        lemma_dec_digits(segs[0].offset);
        assert(l0 >= 21);
        lemma_char_at(s, i, e, 1);
        assert(s[i + 1] == e0[0]);
        assert(e0[0] == '{');
        assert(spec_skip_ws(s, i + 1) == i + 1);
        lemma_subrange_shift(s, i, e, 1, 1 + l0);
        assert(e.subrange(1, 1 + l0) =~= e0) by {
            assert forall|j: int| 0 <= j < l0 implies e.subrange(1, 1 + l0)[j] == e0[j] by {}
        }
        lemma_parse_segment_at(s, i + 1, segs[0]);
        let j = i + 1 + l0;
        assert(vstd::math::max(j, i + 2) == j);
        lemma_subrange_shift(s, i, e, 1 + l0, sl);
        assert(e.subrange(1 + l0, sl) =~= er) by {
            assert forall|t: int| 0 <= t < er.len() implies e.subrange(1 + l0, sl)[t] == er[t] by {}
        }
        lemma_parse_rest_at(s, j, segs.drop_first(), seq![segs[0]]);
        assert(seq![segs[0]] + segs.drop_first() =~= segs);
        assert(j + er.len() == i + sl);
    }
}

/// The front of the canonical encoding: the brace, the `file` key, and the
/// escaped file value.
proof fn lemma_rt_head(file: Seq<char>, segs: Seq<TsSegment>)
    ensures
        ({
            let s = spec_encode_index(file, segs);
            let lf = spec_escape(file).len() as int;
            &&& s.len() == 23 + lf + spec_encode_segments(segs).len()
            &&& spec_skip_ws(s, 0) == 0
            &&& spec_expect(s, 0, '{') == Some(1int)
            &&& spec_parse_key(s, 1) == Some((spec_file_key(), 8int))
            &&& spec_expect(s, 8, '"') == Some(9int)
            &&& spec_parse_jstring(s, 9) == Some((file, 10 + lf))
        }),
{
    let s = spec_encode_index(file, segs);
    let ef = spec_escape(file);
    let lf = ef.len() as int;
    assert(s.subrange(0, s.len() as int) =~= s);
    lemma_char_at(s, 0, s, 0);
    assert(s[0] == '{');
    assert(spec_skip_ws(s, 0) == 0);
    lemma_subrange_shift(s, 0, s, 1, 8);
    assert(s.subrange(1, 8) =~= seq!['"'] + spec_file_key() + seq!['"', ':']) by {
        assert forall|j: int| 0 <= j < 7 implies s.subrange(0, s.len() as int)[1 + j] == (seq!['"']
            + spec_file_key() + seq!['"', ':'])[j] by {}
    }
    lemma_char_at(s, 0, s, 8);
    assert(s[8] == '"');
    lemma_parse_key_at(s, 1, spec_file_key());
    assert(s.subrange(9, 9 + lf) =~= ef) by {
        assert forall|j: int| 0 <= j < lf implies s.subrange(9, 9 + lf)[j] == ef[j] by {
            assert(s.subrange(0, s.len() as int)[9 + j] == s[9 + j]);
        }
    }
    lemma_char_at(s, 0, s, 9 + lf);
    assert(s[9 + lf] == '"');
    lemma_parse_escaped(s, 9, file);
}

/// The middle of the canonical encoding: the separator, the `segments` key,
/// and the segment array.
#[verifier::rlimit(100)]
#[verifier::spinoff_prover]
proof fn lemma_rt_mid(file: Seq<char>, segs: Seq<TsSegment>)
    ensures
        ({
            let s = spec_encode_index(file, segs);
            let lf = spec_escape(file).len() as int;
            let ls = spec_encode_segments(segs).len() as int;
            &&& spec_skip_ws(s, 10 + lf) == 10 + lf
            &&& spec_expect(s, 10 + lf, ',') == Some(11 + lf)
            &&& spec_parse_key(s, 11 + lf) == Some((spec_segments_key(), 22 + lf))
            &&& spec_parse_segments(s, 22 + lf) == Some((segs, 22 + lf + ls))
        }),
{
    let s = spec_encode_index(file, segs);
    let ef = spec_escape(file);
    let lf = ef.len() as int;
    let es = spec_encode_segments(segs);
    let ls = es.len() as int;
    assert(s.subrange(0, s.len() as int) =~= s);
    lemma_char_at(s, 0, s, 10 + lf);
    assert(s[10 + lf] == ',');
    assert(spec_skip_ws(s, 10 + lf) == 10 + lf);
    lemma_subrange_shift(s, 0, s, 11 + lf, 22 + lf);
    assert(s.subrange(11 + lf, 22 + lf) =~= seq!['"'] + spec_segments_key() + seq!['"', ':']) by {
        assert forall|j: int| 0 <= j < 11 implies s.subrange(11 + lf, 22 + lf)[j] == (seq!['"']
            + spec_segments_key() + seq!['"', ':'])[j] by {
            assert(s.subrange(0, s.len() as int)[11 + lf + j] == s[11 + lf + j]);
        }
    }
    lemma_char_at(s, 0, s, 22 + lf);
    assert(s[22 + lf] == es[0]);
    assert(es[0] == '[');
    lemma_parse_key_at(s, 11 + lf, spec_segments_key());
    assert(s.subrange(22 + lf, 22 + lf + ls) =~= es) by {
        assert forall|j: int| 0 <= j < ls implies s.subrange(22 + lf, 22 + lf + ls)[j]
            == es[j] by {
            assert(s.subrange(0, s.len() as int)[22 + lf + j] == s[22 + lf + j]);
        }
    }
    lemma_parse_segments_at(s, 22 + lf, segs);
}

/// The close of the canonical encoding: the final brace ends the text.
proof fn lemma_rt_close(file: Seq<char>, segs: Seq<TsSegment>)
    ensures
        ({
            let s = spec_encode_index(file, segs);
            let lf = spec_escape(file).len() as int;
            let ls = spec_encode_segments(segs).len() as int;
            &&& spec_skip_ws(s, 22 + lf + ls) == 22 + lf + ls
            &&& spec_expect(s, 22 + lf + ls, '}') == Some(s.len() as int)
            &&& spec_skip_ws(s, s.len() as int) == s.len()
        }),
{
    let s = spec_encode_index(file, segs);
    let lf = spec_escape(file).len() as int;
    let ls = spec_encode_segments(segs).len() as int;
    assert(s.subrange(0, s.len() as int) =~= s);
    lemma_char_at(s, 0, s, 22 + lf + ls);
    assert(s[22 + lf + ls] == '}');
    assert(spec_skip_ws(s, 22 + lf + ls) == 22 + lf + ls);
    assert(spec_skip_ws(s, s.len() as int) == s.len());
}

/// Law: decoding an encoded index reproduces it — the same file identity and
/// the same `(hash, offset)` sequence, for every index value.
pub proof fn lemma_codec_round_trip(file: Seq<char>, segs: Seq<TsSegment>)
    ensures
        spec_parse_index(spec_encode_index(file, segs)) == Some((file, segs)),
{
    let s = spec_encode_index(file, segs);
    let lf = spec_escape(file).len() as int;
    let ls = spec_encode_segments(segs).len() as int;
    lemma_rt_head(file, segs);
    lemma_rt_mid(file, segs);
    lemma_rt_close(file, segs);
    assert(spec_file_key() != spec_segments_key());
    assert(spec_parse_index_close(s, 22 + lf + ls, file, segs) == Some((file, segs)));
    assert(spec_parse_index_tail(s, 22 + lf, file) == Some((file, segs)));
}


/// Skips insignificant whitespace.
fn skip_ws_at(s: &str, pos: usize, n: usize) -> (r: usize)
    requires
        n == s@.len(),
        pos <= n,
    ensures
        r == spec_skip_ws(s@, pos as int),
        pos <= r <= n,
{
    let mut i: usize = pos;
    loop
        invariant
            pos <= i <= n,
            n == s@.len(),
            spec_skip_ws(s@, pos as int) == spec_skip_ws(s@, i as int),
        decreases n - i,
    {
        if i >= n {
            return i;
        }
        let c = s.get_char(i);
        if c == ' ' || c == '\n' || c == '\t' || c == '\r' {
            i = i + 1;
        } else {
            return i;
        }
    }
}

/// Consumes one expected character.
fn expect_at(s: &str, pos: usize, n: usize, c: char) -> (r: Option<usize>)
    requires
        n == s@.len(),
        pos <= n,
    ensures
        match r {
            Some(j) => spec_expect(s@, pos as int, c) == Some(j as int) && j == pos + 1 && j <= n,
            None => spec_expect(s@, pos as int, c) is None,
        },
{
    if pos < n && s.get_char(pos) == c {
        Some(pos + 1)
    } else {
        None
    }
}

/// Reads a decimal number.
fn parse_u64_at(s: &str, pos: usize, n: usize) -> (r: Option<(u64, usize)>)
    requires
        n == s@.len(),
        pos <= n,
    ensures
        match r {
            Some((v, j)) => spec_parse_u64(s@, pos as int) == Some((v, j as int)) && pos < j <= n,
            None => spec_parse_u64(s@, pos as int) is None,
        },
{
    if pos >= n {
        return None;
    }
    let c0 = s.get_char(pos) as u32;
    if !(48 <= c0 && c0 <= 57) {
        return None;
    }
    let mut acc: u64 = 0;
    let mut i: usize = pos;
    loop
        invariant
            pos <= i <= n,
            n == s@.len(),
            spec_is_digit(s@[pos as int]),
            pos < n,
            spec_parse_u64_rec(s@, pos as int, 0) == spec_parse_u64_rec(s@, i as int, acc),
        decreases n - i,
    {
        if i >= n {
            assert(i > pos);
            return Some((acc, i));
        }
        let c = s.get_char(i) as u32;
        if 48 <= c && c <= 57 {
            let d: u64 = (c - 48) as u64;
            if acc > (u64::MAX - d) / 10 {
                assert(acc as int * 10 + d > u64::MAX as int) by (nonlinear_arith)
                    requires
                        acc as int > (u64::MAX as int - d) / 10,
                        0 <= d <= 9,
                ;
                return None;
            }
            assert(acc as int * 10 + d <= u64::MAX as int) by (nonlinear_arith)
                requires
                    acc as int <= (u64::MAX as int - d) / 10,
                    0 <= d <= 9,
            ;
            acc = acc * 10 + d;
            i = i + 1;
        } else {
            assert(i > pos);
            return Some((acc, i));
        }
    }
}

/// Reads a quoted string body after its opening quote.
fn parse_jstring_at(s: &str, pos: usize, n: usize) -> (r: Option<(String, usize)>)
    requires
        n == s@.len(),
        pos <= n,
    ensures
        match r {
            Some((t, j)) => spec_parse_jstring(s@, pos as int) == Some((t@, j as int)) && pos < j
                <= n,
            None => spec_parse_jstring(s@, pos as int) is None,
        },
{
    let mut out = String::new();
    let mut i: usize = pos;
    loop
        invariant
            pos <= i <= n,
            n == s@.len(),
            (match spec_parse_jstring(s@, i as int) {
                Some((t, j)) => spec_parse_jstring(s@, pos as int) == Some((out@ + t, j)),
                None => spec_parse_jstring(s@, pos as int) is None,
            }),
        decreases n - i,
    {
        if i >= n {
            return None;
        }
        let c = s.get_char(i);
        if c == '"' {
            proof {
                assert(out@ + Seq::<char>::empty() =~= out@);
            }
            return Some((out, i + 1));
        } else if c == '\\' {
            if i + 1 < n {
                let e = s.get_char(i + 1);
                if e == '"' || e == '\\' {
                    let ghost old_out = out@;
                    let piece = s.substring_char(i + 1, i + 2);
                    out.append(piece);
                    proof {
                        assert(piece@ =~= seq![s@[i + 1]]);
                        assert(out@ == old_out + seq![s@[i + 1]]);
                        if spec_parse_jstring(s@, i + 2 as int) is Some {
                            let (t, j) = spec_parse_jstring(s@, i + 2 as int)->Some_0;
                            assert(old_out + (seq![s@[i + 1]] + t) =~= out@ + t);
                        }
                    }
                    i = i + 2;
                } else {
                    return None;
                }
            } else {
                return None;
            }
        } else {
            let ghost old_out = out@;
            let piece = s.substring_char(i, i + 1);
            out.append(piece);
            proof {
                assert(piece@ =~= seq![s@[i as int]]);
                assert(out@ == old_out + seq![s@[i as int]]);
                if spec_parse_jstring(s@, i + 1 as int) is Some {
                    let (t, j) = spec_parse_jstring(s@, i + 1 as int)->Some_0;
                    assert(old_out + (seq![s@[i as int]] + t) =~= out@ + t);
                }
            }
            i = i + 1;
        }
    }
}

/// Reads a quoted key and its colon, landing on the value.
fn parse_key_at(s: &str, pos: usize, n: usize) -> (r: Option<(String, usize)>)
    requires
        n == s@.len(),
        pos <= n,
    ensures
        match r {
            Some((k, j)) => spec_parse_key(s@, pos as int) == Some((k@, j as int)) && pos < j <= n,
            None => spec_parse_key(s@, pos as int) is None,
        },
{
    let i0 = skip_ws_at(s, pos, n);
    let i1 = match expect_at(s, i0, n, '"') {
        Some(j) => j,
        None => {
            return None;
        },
    };
    let (k, i2) = match parse_jstring_at(s, i1, n) {
        Some(v) => v,
        None => {
            return None;
        },
    };
    let i3 = skip_ws_at(s, i2, n);
    let i4 = match expect_at(s, i3, n, ':') {
        Some(j) => j,
        None => {
            return None;
        },
    };
    let i5 = skip_ws_at(s, i4, n);
    Some((k, i5))
}

/// Whether two string slices hold the same characters.
fn str_eq(a: &str, b: &str) -> (r: bool)
    ensures
        r == (a@ == b@),
{
    let na = a.unicode_len();
    let nb = b.unicode_len();
    if na != nb {
        return false;
    }
    let mut i: usize = 0;
    while i < na
        invariant
            i <= na,
            na == a@.len(),
            na == b@.len(),
            forall|t: int| 0 <= t < i ==> a@[t] == b@[t],
        decreases na - i,
    {
        let ca = a.get_char(i);
        let cb = b.get_char(i);
        if ca != cb {
            return false;
        }
        i = i + 1;
    }
    assert(a@ =~= b@);
    true
}

/// Reads one segment record, in either field order.
fn parse_segment_at(s: &str, pos: usize, n: usize) -> (r: Option<(TsSegment, usize)>)
    requires
        n == s@.len(),
        pos <= n,
    ensures
        match r {
            Some((seg, j)) => spec_parse_segment(s@, pos as int) == Some((seg, j as int)) && pos
                < j <= n,
            None => spec_parse_segment(s@, pos as int) is None,
        },
{
    let i0 = skip_ws_at(s, pos, n);
    let i1 = match expect_at(s, i0, n, '{') {
        Some(j) => j,
        None => {
            return None;
        },
    };
    let (k1, i2) = match parse_key_at(s, i1, n) {
        Some(v) => v,
        None => {
            return None;
        },
    };
    let (v1, i3) = match parse_u64_at(s, i2, n) {
        Some(v) => v,
        None => {
            return None;
        },
    };
    let i4 = skip_ws_at(s, i3, n);
    let i5 = match expect_at(s, i4, n, ',') {
        Some(j) => j,
        None => {
            return None;
        },
    };
    let (k2, i6) = match parse_key_at(s, i5, n) {
        Some(v) => v,
        None => {
            return None;
        },
    };
    let (v2, i7) = match parse_u64_at(s, i6, n) {
        Some(v) => v,
        None => {
            return None;
        },
    };
    let i8 = skip_ws_at(s, i7, n);
    let i9 = match expect_at(s, i8, n, '}') {
        Some(j) => j,
        None => {
            return None;
        },
    };
    proof {
        reveal_strlit("hash");
        reveal_strlit("offset");
        assert("hash"@ =~= spec_hash_key());
        assert("offset"@ =~= spec_offset_key());
    }
    let k1_hash = str_eq(k1.as_str(), "hash");
    let k1_offset = str_eq(k1.as_str(), "offset");
    let k2_hash = str_eq(k2.as_str(), "hash");
    let k2_offset = str_eq(k2.as_str(), "offset");
    if k1_hash && k2_offset {
        Some((TsSegment { hash: v1, offset: v2 }, i9))
    } else if k1_offset && k2_hash {
        Some((TsSegment { hash: v2, offset: v1 }, i9))
    } else {
        None
    }
}

/// Reads the whole bracketed segment array.
fn parse_segments_at(s: &str, pos: usize, n: usize) -> (r: Option<(Vec<TsSegment>, usize)>)
    requires
        n == s@.len(),
        pos <= n,
    ensures
        match r {
            Some((segs, j)) => spec_parse_segments(s@, pos as int) == Some((segs@, j as int))
                && pos < j <= n,
            None => spec_parse_segments(s@, pos as int) is None,
        },
{
    let i0 = skip_ws_at(s, pos, n);
    let i1 = match expect_at(s, i0, n, '[') {
        Some(j) => j,
        None => {
            return None;
        },
    };
    let i2 = skip_ws_at(s, i1, n);
    if i2 < n && s.get_char(i2) == ']' {
        let out: Vec<TsSegment> = Vec::new();
        assert(out@ =~= Seq::<TsSegment>::empty());
        return Some((out, i2 + 1));
    }
    let (e0, j0) = match parse_segment_at(s, i1, n) {
        Some(v) => v,
        None => {
            return None;
        },
    };
    let mut out: Vec<TsSegment> = Vec::new();
    out.push(e0);
    proof {
        assert(out@ =~= seq![e0]);
        assert(vstd::math::max(j0 as int, i1 + 1) == j0 as int);
    }
    let mut cur: usize = j0;
    loop
        invariant
            pos <= cur <= n,
            n == s@.len(),
            spec_parse_segments(s@, pos as int) == spec_parse_segments_rest(
                s@,
                cur as int,
                out@,
            ),
        decreases n - cur,
    {
        let c0 = skip_ws_at(s, cur, n);
        proof {
            assert(vstd::math::max(spec_skip_ws(s@, cur as int), cur as int) == c0 as int);
        }
        if c0 < n && s.get_char(c0) == ']' {
            return Some((out, c0 + 1));
        }
        let c1 = match expect_at(s, c0, n, ',') {
            Some(j) => j,
            None => {
                return None;
            },
        };
        let (e, j) = match parse_segment_at(s, c1, n) {
            Some(v) => v,
            None => {
                return None;
            },
        };
        out.push(e);
        proof {
            assert(vstd::math::max(j as int, c0 + 2) == j as int);
        }
        cur = j;
    }
}

/// Reads back a whole persisted index record.
pub fn decode_index(s: &str) -> (r: Result<HashFile, CodecError>)
    ensures
        match r {
            Ok(hf) => spec_parse_index(s@) == Some((hf.file@, hf.segments@)),
            Err(e) => spec_parse_index(s@) is None && e == CodecError::Malformed,
        },
{
    let n = s.unicode_len();
    let i0 = skip_ws_at(s, 0, n);
    let i1 = match expect_at(s, i0, n, '{') {
        Some(j) => j,
        None => {
            return Err(CodecError::Malformed);
        },
    };
    let (k1, i2) = match parse_key_at(s, i1, n) {
        Some(v) => v,
        None => {
            return Err(CodecError::Malformed);
        },
    };
    proof {
        reveal_strlit("file");
        reveal_strlit("segments");
        assert("file"@ =~= spec_file_key());
        assert("segments"@ =~= spec_segments_key());
    }
    if str_eq(k1.as_str(), "file") {
        let i3 = match expect_at(s, i2, n, '"') {
            Some(j) => j,
            None => {
                return Err(CodecError::Malformed);
            },
        };
        let (f, i4) = match parse_jstring_at(s, i3, n) {
            Some(v) => v,
            None => {
                return Err(CodecError::Malformed);
            },
        };
        let i5 = skip_ws_at(s, i4, n);
        let i6 = match expect_at(s, i5, n, ',') {
            Some(j) => j,
            None => {
                return Err(CodecError::Malformed);
            },
        };
        let (k2, i7) = match parse_key_at(s, i6, n) {
            Some(v) => v,
            None => {
                return Err(CodecError::Malformed);
            },
        };
        if !str_eq(k2.as_str(), "segments") {
            return Err(CodecError::Malformed);
        }
        let (segs, i8) = match parse_segments_at(s, i7, n) {
            Some(v) => v,
            None => {
                return Err(CodecError::Malformed);
            },
        };
        let i9 = skip_ws_at(s, i8, n);
        let i10 = match expect_at(s, i9, n, '}') {
            Some(j) => j,
            None => {
                return Err(CodecError::Malformed);
            },
        };
        if skip_ws_at(s, i10, n) != n {
            return Err(CodecError::Malformed);
        }
        Ok(HashFile { file: f, segments: segs })
    } else if str_eq(k1.as_str(), "segments") {
        let (segs, i3) = match parse_segments_at(s, i2, n) {
            Some(v) => v,
            None => {
                return Err(CodecError::Malformed);
            },
        };
        let i4 = skip_ws_at(s, i3, n);
        let i5 = match expect_at(s, i4, n, ',') {
            Some(j) => j,
            None => {
                return Err(CodecError::Malformed);
            },
        };
        let (k2, i6) = match parse_key_at(s, i5, n) {
            Some(v) => v,
            None => {
                return Err(CodecError::Malformed);
            },
        };
        if !str_eq(k2.as_str(), "file") {
            return Err(CodecError::Malformed);
        }
        let i7 = match expect_at(s, i6, n, '"') {
            Some(j) => j,
            None => {
                return Err(CodecError::Malformed);
            },
        };
        let (f, i8) = match parse_jstring_at(s, i7, n) {
            Some(v) => v,
            None => {
                return Err(CodecError::Malformed);
            },
        };
        let i9 = skip_ws_at(s, i8, n);
        let i10 = match expect_at(s, i9, n, '}') {
            Some(j) => j,
            None => {
                return Err(CodecError::Malformed);
            },
        };
        if skip_ws_at(s, i10, n) != n {
            return Err(CodecError::Malformed);
        }
        Ok(HashFile { file: f, segments: segs })
    } else {
        Err(CodecError::Malformed)
    }
}


/// One digit as text.
fn digit_str(d: u64) -> (r: &'static str)
    requires
        d < 10,
    ensures
        r@ == seq![spec_digit_char(d as int)],
{
    proof {
        reveal_strlit("0");
        reveal_strlit("1");
        reveal_strlit("2");
        reveal_strlit("3");
        reveal_strlit("4");
        reveal_strlit("5");
        reveal_strlit("6");
        reveal_strlit("7");
        reveal_strlit("8");
        reveal_strlit("9");
    }
    if d == 0 {
        let r = "0";
        assert(r@ =~= seq![spec_digit_char(d as int)]);
        r
    } else if d == 1 {
        let r = "1";
        assert(r@ =~= seq![spec_digit_char(d as int)]);
        r
    } else if d == 2 {
        let r = "2";
        assert(r@ =~= seq![spec_digit_char(d as int)]);
        r
    } else if d == 3 {
        let r = "3";
        assert(r@ =~= seq![spec_digit_char(d as int)]);
        r
    } else if d == 4 {
        let r = "4";
        assert(r@ =~= seq![spec_digit_char(d as int)]);
        r
    } else if d == 5 {
        let r = "5";
        assert(r@ =~= seq![spec_digit_char(d as int)]);
        r
    } else if d == 6 {
        let r = "6";
        assert(r@ =~= seq![spec_digit_char(d as int)]);
        r
    } else if d == 7 {
        let r = "7";
        assert(r@ =~= seq![spec_digit_char(d as int)]);
        r
    } else if d == 8 {
        let r = "8";
        assert(r@ =~= seq![spec_digit_char(d as int)]);
        r
    } else {
        let r = "9";
        assert(r@ =~= seq![spec_digit_char(d as int)]);
        r
    }
}

/// A number as its decimal digits.
pub fn u64_to_string(n: u64) -> (r: String)
    ensures
        r@ == spec_dec_u64(n),
    decreases n,
{
    if n < 10 {
        let r = String::from_str(digit_str(n));
        assert(r@ =~= spec_dec_u64(n));
        r
    } else {
        let mut r = u64_to_string(n / 10);
        let ghost pre = r@;
        r.append(digit_str(n % 10));
        proof {
            assert((n / 10) as int == n as int / 10);
            assert((n % 10) as int == n as int % 10);
            assert(r@ =~= spec_dec_u64((n as int / 10) as u64).push(
                spec_digit_char(n as int % 10),
            ));
        }
        r
    }
}

/// Escaping distributes over appending one character.
proof fn lemma_escape_push(s: Seq<char>, c: char)
    ensures
        spec_escape(s.push(c)) == spec_escape(s) + spec_escape_char(c),
    decreases s.len(),
{
    if s.len() == 0 {
        assert(s.push(c)[0] == c);
        assert(s.push(c).drop_first() =~= Seq::<char>::empty());
        assert(spec_escape(s.push(c)) == spec_escape_char(c) + spec_escape(
            Seq::<char>::empty(),
        ));
        assert(spec_escape_char(c) + Seq::<char>::empty() =~= spec_escape_char(c));
        assert(spec_escape(s) =~= Seq::<char>::empty());
        assert(Seq::<char>::empty() + spec_escape_char(c) =~= spec_escape_char(c));
    } else {
        lemma_escape_push(s.drop_first(), c);
        assert(s.push(c).drop_first() =~= s.drop_first().push(c));
        assert(s.push(c)[0] == s[0]);
        assert(spec_escape(s.push(c)) == spec_escape_char(s[0]) + spec_escape(
            s.drop_first().push(c),
        ));
        assert(spec_escape_char(s[0]) + (spec_escape(s.drop_first()) + spec_escape_char(c))
            =~= (spec_escape_char(s[0]) + spec_escape(s.drop_first())) + spec_escape_char(c));
    }
}

/// A string value in its escaped form.
fn escape_str(s: &str) -> (r: String)
    ensures
        r@ == spec_escape(s@),
{
    let n = s.unicode_len();
    let mut out = String::new();
    let mut i: usize = 0;
    proof {
        assert(s@.subrange(0, 0) =~= Seq::<char>::empty());
        assert(out@ =~= spec_escape(s@.subrange(0, 0)));
    }
    while i < n
        invariant
            i <= n,
            n == s@.len(),
            out@ == spec_escape(s@.subrange(0, i as int)),
        decreases n - i,
    {
        let c = s.get_char(i);
        let ghost old_out = out@;
        if c == '"' {
            out.append("\\\"");
            proof {
                reveal_strlit("\\\"");
                assert("\\\""@ =~= spec_escape_char(c));
            }
        } else if c == '\\' {
            out.append("\\\\");
            proof {
                reveal_strlit("\\\\");
                assert("\\\\"@ =~= spec_escape_char(c));
            }
        } else {
            let piece = s.substring_char(i, i + 1);
            out.append(piece);
            proof {
                assert(piece@ =~= spec_escape_char(c));
            }
        }
        proof {
            lemma_escape_push(s@.subrange(0, i as int), c);
            assert(s@.subrange(0, i + 1) =~= s@.subrange(0, i as int).push(c));
            assert(out@ == old_out + spec_escape_char(c));
        }
        i = i + 1;
    }
    proof {
        assert(s@.subrange(0, n as int) =~= s@);
    }
    out
}

/// One segment record in its canonical encoding.
fn encode_segment(seg: &TsSegment) -> (r: String)
    ensures
        r@ == spec_encode_segment(*seg),
{
    let mut out = String::from_str("{\"hash\":");
    proof {
        reveal_strlit("{\"hash\":");
        assert("{\"hash\":"@ =~= seq!['{', '"', 'h', 'a', 's', 'h', '"', ':']);
    }
    let hs = u64_to_string(seg.hash);
    out.append(hs.as_str());
    out.append(",\"offset\":");
    proof {
        reveal_strlit(",\"offset\":");
        assert(",\"offset\":"@ =~= seq![',', '"', 'o', 'f', 'f', 's', 'e', 't', '"', ':']);
    }
    let os = u64_to_string(seg.offset);
    out.append(os.as_str());
    out.append("}");
    proof {
        reveal_strlit("}");
        assert("}"@ =~= seq!['}']);
        assert(out@ =~= spec_encode_segment(*seg));
    }
    out
}

/// A whole index in its canonical encoding.
pub fn encode_index(hf: &HashFile) -> (r: String)
    ensures
        r@ == spec_encode_index(hf.file@, hf.segments@),
{
    let mut out = String::from_str("{\"file\":\"");
    proof {
        reveal_strlit("{\"file\":\"");
        assert("{\"file\":\""@ =~= seq!['{', '"', 'f', 'i', 'l', 'e', '"', ':', '"']);
    }
    let ef = escape_str(hf.file.as_str());
    out.append(ef.as_str());
    out.append("\",\"segments\":");
    proof {
        reveal_strlit("\",\"segments\":");
        assert("\",\"segments\":"@ =~= seq![
            '"',
            ',',
            '"',
            's',
            'e',
            'g',
            'm',
            'e',
            'n',
            't',
            's',
            '"',
            ':',
        ]);
    }
    let n = hf.segments.len();
    if n == 0 {
        out.append("[]");
        proof {
            reveal_strlit("[]");
            assert("[]"@ =~= seq!['[', ']']);
            assert(out@ + seq!['}'] =~= spec_encode_index(hf.file@, hf.segments@));
        }
    } else {
        out.append("[");
        proof {
            reveal_strlit("[");
            assert("["@ =~= seq!['[']);
        }
        let e0 = encode_segment(&hf.segments[0]);
        out.append(e0.as_str());
        let mut i: usize = 1;
        while i < n
            invariant
                1 <= i <= n,
                n == hf.segments@.len(),
                out@ + spec_encode_rest(hf.segments@.skip(i as int)) + seq!['}']
                    =~= spec_encode_index(hf.file@, hf.segments@),
            decreases n - i,
        {
            let ghost old_out = out@;
            out.append(",");
            proof {
                reveal_strlit(",");
                assert(","@ =~= seq![',']);
            }
            let ei = encode_segment(&hf.segments[i]);
            out.append(ei.as_str());
            proof {
                let segs = hf.segments@;
                assert(segs.skip(i as int)[0] == segs[i as int]);
                assert(segs.skip(i as int).drop_first() =~= segs.skip(i + 1));
                assert(spec_encode_rest(segs.skip(i as int)) == seq![','] + spec_encode_segment(
                    segs[i as int],
                ) + spec_encode_rest(segs.skip(i + 1)));
                assert(out@ =~= old_out + seq![','] + spec_encode_segment(segs[i as int]));
                assert(out@ + spec_encode_rest(segs.skip(i + 1)) + seq!['}'] =~= old_out
                    + spec_encode_rest(segs.skip(i as int)) + seq!['}']);
            }
            i = i + 1;
        }
        out.append("]");
        proof {
            reveal_strlit("]");
            assert("]"@ =~= seq![']']);
            let segs = hf.segments@;
            assert(segs.skip(n as int) =~= Seq::<TsSegment>::empty());
            assert(spec_encode_rest(segs.skip(n as int)) == seq![']']);
        }
    }
    out.append("}");
    proof {
        reveal_strlit("}");
        assert("}"@ =~= seq!['}']);
        assert(out@ =~= spec_encode_index(hf.file@, hf.segments@));
    }
    out
}

} // verus!
