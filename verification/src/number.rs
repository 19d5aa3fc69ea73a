//! Numbers, held as the decimal numeral that stands for them.
//!
//! A numeral is an optional sign, digits with at most one point among them,
//! and an optional exponent. The notation admits a numeral only if its value
//! lies within the range of an IEEE-754 double; the conversion to and from a
//! double itself is left to the caller.

use crate::lexis::{digit, is_digit, latin, LOWER_E, MINUS, PLUS, POINT, UPPER_E, ZERO};
use vstd::slice::slice_to_vec;
use vstd::string::StringSliceAdditionalSpecFns;
use vstd::prelude::*;

verus! {

/// `+` or `-`.
pub open spec fn sign(ch: u8) -> bool {
    ch == PLUS || ch == MINUS
}

/// `e` or `E`.
pub open spec fn exponent_mark(ch: u8) -> bool {
    ch == LOWER_E || ch == UPPER_E
}

/// The position at which the run of digits that starts at `from` ends.
pub open spec fn digits_end(s: Seq<u8>, from: int) -> int
    decreases s.len() - from,
{
    if 0 <= from < s.len() && digit(s[from]) {
        digits_end(s, from + 1)
    } else {
        from
    }
}

/// Where the parts of a numeral lie in its text. The whole part and the
/// fraction are runs of digits, either of which may be empty; the exponent's
/// digits start at `exponent_start` and run to the end.
pub struct Parts {
    pub whole_start: int,
    pub whole_end: int,
    pub fraction_start: int,
    pub fraction_end: int,
    pub exponent_start: int,
}

pub open spec fn parts(s: Seq<u8>) -> Parts {
    let whole_start: int = if s.len() > 0 && sign(s[0]) {
        1
    } else {
        0
    };
    let whole_end = digits_end(s, whole_start);
    let fraction_start = if whole_end < s.len() && s[whole_end] == POINT {
        whole_end + 1
    } else {
        whole_end
    };
    let fraction_end = digits_end(s, fraction_start);
    let exponent_start = if fraction_end + 1 < s.len() && sign(s[fraction_end + 1]) {
        fraction_end + 2
    } else {
        fraction_end + 1
    };
    Parts { whole_start, whole_end, fraction_start, fraction_end, exponent_start }
}

/// Whether `s` is a numeral: `sign? (D+ | D+ . D* | D* . D+) ([eE] sign? D+)?`.
pub open spec fn numeral(s: Seq<u8>) -> bool {
    let p = parts(s);
    &&& (p.whole_end - p.whole_start) + (p.fraction_end - p.fraction_start) >= 1
    &&& p.fraction_end == s.len() || {
        &&& exponent_mark(s[p.fraction_end])
        &&& p.exponent_start < s.len()
        &&& digits_end(s, p.exponent_start) == s.len()
    }
}

/// The number that the digits `s` write, most significant first.
pub open spec fn digits_value(s: Seq<u8>) -> nat
    decreases s.len(),
{
    if s.len() == 0 {
        0
    } else {
        digits_value(s.drop_last()) * 10 + (s.last() - ZERO) as nat
    }
}

/// Ten to the power `n`.
pub open spec fn pow10(n: nat) -> nat
    decreases n,
{
    if n == 0 {
        1
    } else {
        10 * pow10((n - 1) as nat)
    }
}

/// The digits of the whole part followed by those of the fraction.
pub open spec fn mantissa(s: Seq<u8>) -> Seq<u8> {
    let p = parts(s);
    s.subrange(p.whole_start, p.whole_end) + s.subrange(p.fraction_start, p.fraction_end)
}

/// The exponent that the numeral gives, zero where it gives none.
pub open spec fn exponent(s: Seq<u8>) -> int {
    let p = parts(s);
    if p.fraction_end >= s.len() {
        0
    } else if s[p.fraction_end + 1] == MINUS {
        -(digits_value(s.subrange(p.exponent_start, s.len() as int)) as int)
    } else {
        digits_value(s.subrange(p.exponent_start, s.len() as int)) as int
    }
}

/// The power of ten by which the mantissa, read as an integer, is scaled.
pub open spec fn scale(s: Seq<u8>) -> int {
    exponent(s) - (parts(s).fraction_end - parts(s).fraction_start)
}

/// The factor that brings out one digit of an eighteen-digit word: ten to
/// the power `17 - place`.
pub open spec fn place_value(place: int) -> int {
    if place == 0 {
        100000000000000000
    } else if place == 1 {
        10000000000000000
    } else if place == 2 {
        1000000000000000
    } else if place == 3 {
        100000000000000
    } else if place == 4 {
        10000000000000
    } else if place == 5 {
        1000000000000
    } else if place == 6 {
        100000000000
    } else if place == 7 {
        10000000000
    } else if place == 8 {
        1000000000
    } else if place == 9 {
        100000000
    } else if place == 10 {
        10000000
    } else if place == 11 {
        1000000
    } else if place == 12 {
        100000
    } else if place == 13 {
        10000
    } else if place == 14 {
        1000
    } else if place == 15 {
        100
    } else if place == 16 {
        10
    } else {
        1
    }
}

/// The digits of 2^1024 - 2^970, eighteen to a word and filled up with
/// zeros at the end. This is the least magnitude that rounds to an infinite
/// double: the midpoint between the greatest finite double and 2^1024.
pub open spec fn limit_word(index: int) -> int {
    if index == 0 {
        179769313486231580
    } else if index == 1 {
        793728971405303415
    } else if index == 2 {
        79934132710037826
    } else if index == 3 {
        936173778980444968
    } else if index == 4 {
        292764750946649017
    } else if index == 5 {
        977587207096330286
    } else if index == 6 {
        416692887910946555
    } else if index == 7 {
        547851940402630657
    } else if index == 8 {
        488671505820681908
    } else if index == 9 {
        902000708383676273
    } else if index == 10 {
        854845817711531764
    } else if index == 11 {
        475730270069855571
    } else if index == 12 {
        366959622842914819
    } else if index == 13 {
        860834936475292719
    } else if index == 14 {
        74168444365510704
    } else if index == 15 {
        342711559699508093
    } else if index == 16 {
        42880177904174497
    } else {
        792000000000000000
    }
}

/// The number of digits of the limit.
pub const LIMIT_DIGITS: usize = 309;

/// The digit of the limit at `index`, counted from its most significant
/// digit; a zero beyond its last digit.
pub open spec fn limit_digit(index: int) -> u8 {
    if 0 <= index < 324 {
        (ZERO + (limit_word(index / 18) / place_value(index % 18)) % 10) as u8
    } else {
        ZERO
    }
}

/// The first `width` digits of the limit, continued by zeros.
pub open spec fn limit_digits(width: nat) -> Seq<u8> {
    Seq::new(width, |i: int| limit_digit(i))
}

/// The magnitude from which on a numeral no longer stands for a finite
/// double, 2^1024 - 2^970.
pub open spec fn double_limit() -> nat {
    digits_value(limit_digits(LIMIT_DIGITS as nat))
}

/// Whether the magnitude of the numeral `s` is below the limit, so that the
/// nearest double is finite.
pub open spec fn within_double(s: Seq<u8>) -> bool {
    let m = digits_value(mantissa(s));
    let k = scale(s);
    if k >= 0 {
        m * pow10(k as nat) < double_limit()
    } else {
        m < double_limit() * pow10((-k) as nat)
    }
}

/// Whether `s` is a number of the notation: a numeral that starts with a
/// digit or a minus sign, within the range of a double.
pub open spec fn number_text(s: Seq<u8>) -> bool {
    &&& s.len() > 0
    &&& digit(s[0]) || s[0] == MINUS
    &&& numeral(s)
    &&& within_double(s)
}

/// All of `s` are digits.
pub open spec fn all_digits(s: Seq<u8>) -> bool {
    forall|i: int| 0 <= i < s.len() ==> digit(#[trigger] s[i])
}

/// `s`, cut or continued by zeros to `width` digits.
pub open spec fn padded(s: Seq<u8>, width: nat) -> Seq<u8> {
    Seq::new(
        width,
        |i: int|
            if i < s.len() {
                s[i]
            } else {
                ZERO
            },
    )
}

pub proof fn lemma_digits_end(s: Seq<u8>, from: int)
    requires
        0 <= from <= s.len(),
    ensures
        from <= digits_end(s, from) <= s.len(),
        forall|i: int| from <= i < digits_end(s, from) ==> digit(#[trigger] s[i]),
        digits_end(s, from) < s.len() ==> !digit(s[digits_end(s, from)]),
    decreases s.len() - from,
{
    if from < s.len() && digit(s[from]) {
        lemma_digits_end(s, from + 1);
    }
}

pub proof fn lemma_parts(s: Seq<u8>)
    ensures
        0 <= parts(s).whole_start <= parts(s).whole_end <= parts(s).fraction_start <= parts(
            s,
        ).fraction_end <= s.len(),
        parts(s).fraction_start <= parts(s).whole_end + 1,
        parts(s).fraction_end < parts(s).exponent_start <= parts(s).fraction_end + 2,
        all_digits(mantissa(s)),
        mantissa(s).len() == (parts(s).whole_end - parts(s).whole_start) + (parts(s).fraction_end
            - parts(s).fraction_start),
{
    let p = parts(s);
    lemma_digits_end(s, p.whole_start);
    lemma_digits_end(s, p.fraction_start);
}

pub proof fn lemma_pow10_positive(n: nat)
    ensures
        pow10(n) > 0,
    decreases n,
{
    if n > 0 {
        lemma_pow10_positive((n - 1) as nat);
    }
}

pub proof fn lemma_pow10_sum(a: nat, b: nat)
    ensures
        pow10(a + b) == pow10(a) * pow10(b),
    decreases a,
{
    if a == 0 {
        assert(pow10(0) == 1);
        assert(1 * pow10(b) == pow10(b));
    } else {
        lemma_pow10_sum((a - 1) as nat, b);
        assert(pow10(a + b) == 10 * pow10((a - 1 + b) as nat));
        assert(10 * (pow10((a - 1) as nat) * pow10(b)) == (10 * pow10((a - 1) as nat)) * pow10(b))
            by (nonlinear_arith);
    }
}

pub proof fn lemma_pow10_grows(a: nat, b: nat)
    requires
        a <= b,
    ensures
        pow10(a) <= pow10(b),
    decreases b,
{
    if a < b {
        lemma_pow10_grows(a, (b - 1) as nat);
    }
}

/// A digit string without a leading zero lies between the powers of ten of
/// its length.
proof fn lemma_value_bounds(s: Seq<u8>)
    requires
        all_digits(s),
    ensures
        digits_value(s) < pow10(s.len()),
        s.len() > 0 && s[0] != ZERO ==> pow10((s.len() - 1) as nat) <= digits_value(s),
    decreases s.len(),
{
    if s.len() > 0 {
        let head = s.drop_last();
        assert(all_digits(head)) by {
            assert forall|i: int| 0 <= i < head.len() implies digit(#[trigger] head[i]) by {
                assert(head[i] == s[i]);
            }
        }
        lemma_value_bounds(head);
        assert(digit(s.last()));
        if s.len() > 1 {
            assert(head[0] == s[0]);
        }
    }
}

/// Zeros in front do not change the value.
proof fn lemma_leading_zeros(s: Seq<u8>, zeros: int)
    requires
        0 <= zeros <= s.len(),
        forall|i: int| 0 <= i < zeros ==> s[i] == ZERO,
    ensures
        digits_value(s) == digits_value(s.subrange(zeros, s.len() as int)),
    decreases s.len(),
{
    let tail = s.subrange(zeros, s.len() as int);
    if zeros == s.len() {
        if s.len() > 0 {
            lemma_leading_zeros(s.drop_last(), zeros - 1);
            assert(s.drop_last().subrange(zeros - 1, s.len() - 1).len() == 0);
        }
    } else {
        lemma_leading_zeros(s.drop_last(), zeros);
        assert(s.drop_last().subrange(zeros, s.len() - 1) =~= tail.drop_last());
        assert(tail.last() == s.last());
    }
}

/// Zeros behind multiply the value by a power of ten.
proof fn lemma_padded_value(s: Seq<u8>, width: nat)
    requires
        s.len() <= width,
    ensures
        digits_value(padded(s, width)) == digits_value(s) * pow10((width - s.len()) as nat),
    decreases width,
{
    if width == s.len() {
        assert(padded(s, width) =~= s);
        assert(digits_value(s) * 1 == digits_value(s));
    } else {
        lemma_padded_value(s, (width - 1) as nat);
        assert(padded(s, width).drop_last() =~= padded(s, (width - 1) as nat));
        assert(padded(s, width).last() == ZERO);
        let v = digits_value(s);
        let p = pow10((width - 1 - s.len()) as nat);
        assert((v * p) * 10 == v * (10 * p)) by (nonlinear_arith);
    }
}

/// Of two digit strings of one length, the one with the smaller digit at the
/// first place where they differ is the smaller number.
proof fn lemma_first_difference(a: Seq<u8>, b: Seq<u8>, at: int)
    requires
        a.len() == b.len(),
        all_digits(a),
        all_digits(b),
        0 <= at < a.len(),
        forall|i: int| 0 <= i < at ==> a[i] == b[i],
        a[at] < b[at],
    ensures
        digits_value(a) < digits_value(b),
    decreases a.len(),
{
    let a0 = a.drop_last();
    let b0 = b.drop_last();
    assert(digit(a.last()) && digit(b.last()));
    if at == a.len() - 1 {
        assert(a0 =~= b0);
    } else {
        assert(all_digits(a0)) by {
            assert forall|i: int| 0 <= i < a0.len() implies digit(#[trigger] a0[i]) by {
                assert(a0[i] == a[i]);
            }
        }
        assert(all_digits(b0)) by {
            assert forall|i: int| 0 <= i < b0.len() implies digit(#[trigger] b0[i]) by {
                assert(b0[i] == b[i]);
            }
        }
        assert forall|i: int| 0 <= i < at implies a0[i] == b0[i] by {
            assert(a0[i] == a[i] && b0[i] == b[i]);
        }
        assert(a0[at] == a[at] && b0[at] == b[at]);
        lemma_first_difference(a0, b0, at);
    }
}

proof fn lemma_last_word(place: int)
    requires
        3 <= place <= 17,
    ensures
        (limit_word(17) / place_value(place)) % 10 == 0,
{
    if place == 3 {
        assert(792000000000000000int / 100000000000000 % 10 == 0);
    } else if place == 4 {
        assert(792000000000000000int / 10000000000000 % 10 == 0);
    } else if place == 5 {
        assert(792000000000000000int / 1000000000000 % 10 == 0);
    } else if place == 6 {
        assert(792000000000000000int / 100000000000 % 10 == 0);
    } else if place == 7 {
        assert(792000000000000000int / 10000000000 % 10 == 0);
    } else if place == 8 {
        assert(792000000000000000int / 1000000000 % 10 == 0);
    } else if place == 9 {
        assert(792000000000000000int / 100000000 % 10 == 0);
    } else if place == 10 {
        assert(792000000000000000int / 10000000 % 10 == 0);
    } else if place == 11 {
        assert(792000000000000000int / 1000000 % 10 == 0);
    } else if place == 12 {
        assert(792000000000000000int / 100000 % 10 == 0);
    } else if place == 13 {
        assert(792000000000000000int / 10000 % 10 == 0);
    } else if place == 14 {
        assert(792000000000000000int / 1000 % 10 == 0);
    } else if place == 15 {
        assert(792000000000000000int / 100 % 10 == 0);
    } else if place == 16 {
        assert(792000000000000000int / 10 % 10 == 0);
    } else if place == 17 {
        assert(792000000000000000int / 1 % 10 == 0);
    }
}

proof fn lemma_limit_digit(index: int)
    ensures
        digit(limit_digit(index)),
        index >= LIMIT_DIGITS ==> limit_digit(index) == ZERO,
        limit_digit(0) != ZERO,
{
    if 0 <= index < 324 {
        let d = (limit_word(index / 18) / place_value(index % 18)) % 10;
        assert(0 <= d < 10);
        if index >= 309 {
            assert(index / 18 == 17);
            assert(3 <= index % 18 <= 17);
            lemma_last_word(index % 18);
        }
    }
    assert(limit_word(0) / place_value(0) == 1) by {
        assert(179769313486231580int / 100000000000000000 == 1);
    }
}

proof fn lemma_limit_digits(width: nat)
    ensures
        all_digits(limit_digits(width)),
        width >= LIMIT_DIGITS ==> limit_digits(width) == padded(
            limit_digits(LIMIT_DIGITS as nat),
            width,
        ),
{
    assert forall|i: int| 0 <= i < width implies digit(#[trigger] limit_digits(width)[i]) by {
        lemma_limit_digit(i);
    }
    if width >= LIMIT_DIGITS {
        assert forall|i: int| 0 <= i < width implies limit_digits(width)[i] == padded(
            limit_digits(LIMIT_DIGITS as nat),
            width,
        )[i] by {
            lemma_limit_digit(i);
        }
        assert(limit_digits(width) =~= padded(limit_digits(LIMIT_DIGITS as nat), width));
    }
}

/// The limit has 309 digits.
proof fn lemma_limit_bounds()
    ensures
        pow10(308) <= double_limit() < pow10(309),
{
    lemma_limit_digits(LIMIT_DIGITS as nat);
    lemma_limit_digit(0);
    lemma_value_bounds(limit_digits(LIMIT_DIGITS as nat));
}

/// A numeral whose mantissa is zero is within the range.
proof fn lemma_zero_within(s: Seq<u8>)
    requires
        digits_value(mantissa(s)) == 0,
    ensures
        within_double(s),
{
    lemma_limit_bounds();
    lemma_pow10_positive(308);
    let k = scale(s);
    if k >= 0 {
        assert(0 * pow10(k as nat) == 0);
    } else {
        lemma_pow10_positive((-k) as nat);
        assert(double_limit() * pow10((-k) as nat) > 0) by (nonlinear_arith)
            requires
                double_limit() > 0,
                pow10((-k) as nat) > 0,
        ;
    }
}

/// A mantissa of `n` significant digits, scaled so that it has at most 308
/// digits before the point, is within the range.
proof fn lemma_short_within(m: nat, n: nat, k: int)
    requires
        m < pow10(n),
        n + k <= 308,
    ensures
        if k >= 0 {
            m * pow10(k as nat) < double_limit()
        } else {
            m < double_limit() * pow10((-k) as nat)
        },
{
    lemma_limit_bounds();
    if k >= 0 {
        lemma_pow10_sum(n, k as nat);
        lemma_pow10_grows((n + k) as nat, 308);
        lemma_pow10_positive(k as nat);
        assert(m * pow10(k as nat) < pow10(n) * pow10(k as nat)) by (nonlinear_arith)
            requires
                m < pow10(n),
                pow10(k as nat) > 0,
        ;
    } else {
        let j = (-k) as nat;
        lemma_pow10_grows(n, 308 + j);
        lemma_pow10_sum(308, j);
        lemma_pow10_positive(j);
        assert(pow10(308) * pow10(j) <= double_limit() * pow10(j)) by (nonlinear_arith)
            requires
                pow10(308) <= double_limit(),
                pow10(j) > 0,
        ;
    }
}

/// A mantissa of `n` significant digits, scaled so that it has at least 310
/// digits before the point, is beyond the range.
proof fn lemma_long_beyond(m: nat, n: nat, k: int)
    requires
        n >= 1,
        pow10((n - 1) as nat) <= m,
        n + k >= 310,
    ensures
        if k >= 0 {
            m * pow10(k as nat) >= double_limit()
        } else {
            m >= double_limit() * pow10((-k) as nat)
        },
{
    lemma_limit_bounds();
    if k >= 0 {
        lemma_pow10_sum((n - 1) as nat, k as nat);
        lemma_pow10_grows(309, (n - 1 + k) as nat);
        lemma_pow10_positive(k as nat);
        assert(m * pow10(k as nat) >= pow10((n - 1) as nat) * pow10(k as nat)) by (nonlinear_arith)
            requires
                m >= pow10((n - 1) as nat),
                pow10(k as nat) > 0,
        ;
    } else {
        let j = (-k) as nat;
        lemma_pow10_grows(309 + j, (n - 1) as nat);
        lemma_pow10_sum(309, j);
        lemma_pow10_positive(j);
        assert(pow10(309) * pow10(j) >= double_limit() * pow10(j)) by (nonlinear_arith)
            requires
                pow10(309) >= double_limit(),
                pow10(j) > 0,
        ;
    }
}

/// With 309 digits before the point, the numeral is within the range exactly
/// when its digits, continued by zeros, are below those of the limit.
proof fn lemma_level(t: Seq<u8>, k: int, width: nat)
    requires
        all_digits(t),
        t.len() + k == 309,
        width >= t.len(),
        width >= 309,
        width == t.len() || width == 309,
    ensures
        (if k >= 0 {
            digits_value(t) * pow10(k as nat) < double_limit()
        } else {
            digits_value(t) < double_limit() * pow10((-k) as nat)
        }) <==> digits_value(padded(t, width)) < digits_value(limit_digits(width)),
{
    lemma_padded_value(t, width);
    lemma_limit_digits(width);
    lemma_padded_value(limit_digits(LIMIT_DIGITS as nat), width);
    if k >= 0 {
        assert(width == 309);
        assert(pow10(0) == 1);
        assert(double_limit() * 1 == double_limit());
    } else {
        assert(width == t.len());
        assert(pow10(0) == 1);
        assert(digits_value(t) * 1 == digits_value(t));
    }
}

/// The digit at `index` of the limit, a zero beyond its last digit.
pub fn limit_digit_at(index: usize) -> (r: u8)
    ensures
        r == limit_digit(index as int),
{
    if index >= 324 {
        return ZERO;
    }
    let word_index = index / 18;
    let word: u64 = if word_index == 0 {
        179769313486231580
    } else if word_index == 1 {
        793728971405303415
    } else if word_index == 2 {
        79934132710037826
    } else if word_index == 3 {
        936173778980444968
    } else if word_index == 4 {
        292764750946649017
    } else if word_index == 5 {
        977587207096330286
    } else if word_index == 6 {
        416692887910946555
    } else if word_index == 7 {
        547851940402630657
    } else if word_index == 8 {
        488671505820681908
    } else if word_index == 9 {
        902000708383676273
    } else if word_index == 10 {
        854845817711531764
    } else if word_index == 11 {
        475730270069855571
    } else if word_index == 12 {
        366959622842914819
    } else if word_index == 13 {
        860834936475292719
    } else if word_index == 14 {
        74168444365510704
    } else if word_index == 15 {
        342711559699508093
    } else if word_index == 16 {
        42880177904174497
    } else {
        792000000000000000
    };
    let place = index % 18;
    let factor: u64 = if place == 0 {
        100000000000000000
    } else if place == 1 {
        10000000000000000
    } else if place == 2 {
        1000000000000000
    } else if place == 3 {
        100000000000000
    } else if place == 4 {
        10000000000000
    } else if place == 5 {
        1000000000000
    } else if place == 6 {
        100000000000
    } else if place == 7 {
        10000000000
    } else if place == 8 {
        1000000000
    } else if place == 9 {
        100000000
    } else if place == 10 {
        10000000
    } else if place == 11 {
        1000000
    } else if place == 12 {
        100000
    } else if place == 13 {
        10000
    } else if place == 14 {
        1000
    } else if place == 15 {
        100
    } else if place == 16 {
        10
    } else {
        1
    };
    ZERO + ((word / factor) % 10) as u8
}

/// The end of the run of digits of `bytes` that starts at `from`.
pub fn scan_digits(bytes: &[u8], from: usize) -> (end: usize)
    requires
        from <= bytes@.len(),
    ensures
        end == digits_end(bytes@, from as int),
        from <= end <= bytes@.len(),
{
    let mut i = from;
    while i < bytes.len() && is_digit(bytes[i])
        invariant
            from <= i <= bytes@.len(),
            digits_end(bytes@, from as int) == digits_end(bytes@, i as int),
        decreases bytes@.len() - i,
    {
        i += 1;
    }
    i
}

/// Where the parts of a numeral lie, as offsets into its bytes.
pub struct Layout {
    pub whole_start: usize,
    pub whole_end: usize,
    pub fraction_start: usize,
    pub fraction_end: usize,
    pub exponent_start: usize,
}

impl Layout {
    /// Whether these are the offsets `p` into a text of `len` bytes. Where
    /// the text ends with the fraction, there is no exponent to point at.
    pub open spec fn matches(&self, p: Parts, len: nat) -> bool {
        &&& self.whole_start == p.whole_start
        &&& self.whole_end == p.whole_end
        &&& self.fraction_start == p.fraction_start
        &&& self.fraction_end == p.fraction_end
        &&& self.fraction_end < len ==> self.exponent_start == p.exponent_start
    }
}

/// Finds the parts of `bytes`, read as a numeral.
pub fn layout(bytes: &[u8]) -> (r: Layout)
    ensures
        r.matches(parts(bytes@), bytes@.len()),
{
    proof {
        lemma_parts(bytes@);
    }
    let len = bytes.len();
    let whole_start: usize = if len > 0 && (bytes[0] == PLUS || bytes[0] == MINUS) {
        1
    } else {
        0
    };
    let whole_end = scan_digits(bytes, whole_start);
    let fraction_start = if whole_end < len && bytes[whole_end] == POINT {
        whole_end + 1
    } else {
        whole_end
    };
    let fraction_end = scan_digits(bytes, fraction_start);
    let exponent_start = if fraction_end >= len {
        len
    } else if len - fraction_end > 1 && (bytes[fraction_end + 1] == PLUS || bytes[fraction_end + 1]
        == MINUS) {
        fraction_end + 2
    } else {
        fraction_end + 1
    };
    Layout { whole_start, whole_end, fraction_start, fraction_end, exponent_start }
}

/// Whether `bytes` are a numeral.
pub fn is_numeral(bytes: &[u8]) -> (r: bool)
    ensures
        r == numeral(bytes@),
{
    proof {
        lemma_parts(bytes@);
    }
    let at = layout(bytes);
    let len = bytes.len();
    if (at.whole_end - at.whole_start) + (at.fraction_end - at.fraction_start) < 1 {
        return false;
    }
    if at.fraction_end == len {
        return true;
    }
    if !(bytes[at.fraction_end] == LOWER_E || bytes[at.fraction_end] == UPPER_E) {
        return false;
    }
    if at.exponent_start >= len {
        return false;
    }
    scan_digits(bytes, at.exponent_start) == len
}

/// The greatest exponent that is still read exactly; beyond it only the
/// sign of the exponent matters.
pub const EXPONENT_CAP: u128 = 1000000000000000000000000000000;

/// Reads the digits of `bytes` from `from` on as a number, exactly where it
/// is below the cap.
fn exponent_magnitude(bytes: &[u8], from: usize) -> (r: u128)
    requires
        from <= bytes@.len(),
        all_digits(bytes@.subrange(from as int, bytes@.len() as int)),
    ensures
        r < EXPONENT_CAP ==> r == digits_value(bytes@.subrange(from as int, bytes@.len() as int)),
        r >= EXPONENT_CAP ==> digits_value(bytes@.subrange(from as int, bytes@.len() as int))
            >= EXPONENT_CAP,
        r < 10 * EXPONENT_CAP + 10,
{
    let mut value: u128 = 0;
    let mut i = from;
    while i < bytes.len()
        invariant
            from <= i <= bytes@.len(),
            all_digits(bytes@.subrange(from as int, bytes@.len() as int)),
            value < EXPONENT_CAP ==> value == digits_value(bytes@.subrange(from as int, i as int)),
            value >= EXPONENT_CAP ==> digits_value(bytes@.subrange(from as int, i as int))
                >= EXPONENT_CAP,
            value < 10 * EXPONENT_CAP + 10,
        decreases bytes@.len() - i,
    {
        let ghost before = bytes@.subrange(from as int, i as int);
        let ghost after = bytes@.subrange(from as int, i + 1);
        proof {
            assert(after.drop_last() =~= before);
            assert(after.last() == bytes@[i as int]);
            assert(bytes@.subrange(from as int, bytes@.len() as int)[i - from] == bytes@[i as int]);
            assert(digit(bytes@[i as int]));
        }
        if value < EXPONENT_CAP {
            value = value * 10 + (bytes[i] - ZERO) as u128;
        }
        i += 1;
    }
    proof {
        assert(bytes@.subrange(from as int, i as int) =~= bytes@.subrange(
            from as int,
            bytes@.len() as int,
        ));
    }
    value
}

/// The byte of `bytes` that holds the digit at `index` of the mantissa.
fn mantissa_digit(bytes: &[u8], at: &Layout, index: usize) -> (r: u8)
    requires
        at.matches(parts(bytes@), bytes@.len()),
        index < mantissa(bytes@).len(),
    ensures
        r == mantissa(bytes@)[index as int],
{
    proof {
        lemma_parts(bytes@);
    }
    if index < at.whole_end - at.whole_start {
        bytes[at.whole_start + index]
    } else {
        bytes[at.fraction_start + (index - (at.whole_end - at.whole_start))]
    }
}

/// Whether the numeral `bytes` is within the range of a double.
pub fn fits_double(bytes: &[u8]) -> (r: bool)
    requires
        numeral(bytes@),
    ensures
        r == within_double(bytes@),
{
    let at = layout(bytes);
    let ghost digits = mantissa(bytes@);
    proof {
        lemma_parts(bytes@);
    }
    let fraction = at.fraction_end - at.fraction_start;
    let total = (at.whole_end - at.whole_start) + fraction;
    let mut zeros: usize = 0;
    while zeros < total && mantissa_digit(bytes, &at, zeros) == ZERO
        invariant
            at.matches(parts(bytes@), bytes@.len()),
            total == mantissa(bytes@).len(),
            zeros <= total,
            forall|i: int| 0 <= i < zeros ==> mantissa(bytes@)[i] == ZERO,
        decreases total - zeros,
    {
        zeros += 1;
    }
    let ghost rest = digits.subrange(zeros as int, total as int);
    proof {
        lemma_leading_zeros(digits, zeros as int);
        assert(all_digits(rest)) by {
            assert forall|i: int| 0 <= i < rest.len() implies digit(#[trigger] rest[i]) by {
                assert(rest[i] == digits[zeros + i]);
            }
        }
        lemma_value_bounds(rest);
    }
    if zeros == total {
        proof {
            lemma_zero_within(bytes@);
        }
        return true;
    }
    let count = total - zeros;
    let len = bytes.len();
    let magnitude: u128 = if at.fraction_end == len {
        0
    } else {
        proof {
            lemma_digits_end(bytes@, at.exponent_start as int);
            let tail = bytes@.subrange(at.exponent_start as int, len as int);
            assert(all_digits(tail)) by {
                assert forall|i: int| 0 <= i < tail.len() implies digit(#[trigger] tail[i]) by {
                    assert(tail[i] == bytes@[at.exponent_start + i]);
                }
            }
        }
        exponent_magnitude(bytes, at.exponent_start)
    };
    let negative = at.fraction_end < len && bytes[at.fraction_end + 1] == MINUS;
    let level: i128 = if negative {
        count as i128 - fraction as i128 - magnitude as i128
    } else {
        count as i128 - fraction as i128 + magnitude as i128
    };
    let ghost k = scale(bytes@);
    let ghost m = digits_value(digits);
    proof {
        assert(rest[0] == digits[zeros as int]);
        assert(m == digits_value(rest));
        assert(magnitude < EXPONENT_CAP ==> level == count + k);
        assert(magnitude >= EXPONENT_CAP && negative ==> level < 308 && count + k < 308);
        assert(magnitude >= EXPONENT_CAP && !negative ==> level > 310 && count + k > 310);
    }
    if level <= 308 {
        proof {
            lemma_short_within(m, count as nat, k);
        }
        return true;
    }
    if level >= 310 {
        proof {
            lemma_long_beyond(m, count as nat, k);
        }
        return false;
    }
    let width: usize = if count > LIMIT_DIGITS {
        count
    } else {
        LIMIT_DIGITS
    };
    let ghost ours = padded(rest, width as nat);
    let ghost theirs = limit_digits(width as nat);
    proof {
        lemma_level(rest, k, width as nat);
        lemma_limit_digits(width as nat);
        lemma_limit_digits(LIMIT_DIGITS as nat);
        assert(all_digits(ours)) by {
            assert forall|i: int| 0 <= i < ours.len() implies digit(#[trigger] ours[i]) by {
                if i < rest.len() {
                    assert(ours[i] == rest[i]);
                }
            }
        }
        assert(within_double(bytes@) <==> digits_value(ours) < digits_value(theirs));
    }
    let mut i: usize = 0;
    while i < width
        invariant
            within_double(bytes@) <==> digits_value(ours) < digits_value(theirs),
            at.matches(parts(bytes@), bytes@.len()),
            total == mantissa(bytes@).len(),
            digits == mantissa(bytes@),
            count == total - zeros,
            rest == digits.subrange(zeros as int, total as int),
            ours == padded(rest, width as nat),
            theirs == limit_digits(width as nat),
            all_digits(ours),
            all_digits(theirs),
            width >= count,
            i <= width,
            forall|j: int| 0 <= j < i ==> ours[j] == theirs[j],
        decreases width - i,
    {
        let mine = if i < count {
            mantissa_digit(bytes, &at, zeros + i)
        } else {
            ZERO
        };
        let limit = limit_digit_at(i);
        proof {
            if i < count {
                assert(rest[i as int] == digits[zeros + i]);
            }
            assert(mine == ours[i as int]);
            assert(limit == theirs[i as int]);
        }
        if mine < limit {
            proof {
                lemma_first_difference(ours, theirs, i as int);
            }
            return true;
        }
        if mine > limit {
            proof {
                lemma_first_difference(theirs, ours, i as int);
            }
            return false;
        }
        i += 1;
    }
    proof {
        assert(ours =~= theirs);
    }
    false
}

/// A number of the notation, held as its numeral: the text of a finite
/// decimal number that starts with a digit or a minus sign.
#[derive(Debug, PartialEq, Eq)]
pub struct Number {
    text: Vec<u8>,
}

impl View for Number {
    type V = Seq<u8>;

    /// The bytes of the numeral.
    closed spec fn view(&self) -> Seq<u8> {
        self.text@
    }
}

impl Clone for Number {
    fn clone(&self) -> (r: Self)
        ensures
            r@ == self@,
    {
        proof {
            use_type_invariant(self);
        }
        let text = slice_to_vec(self.text.as_slice());
        Number { text }
    }
}

impl Number {
    /// Every number holds a numeral that the notation admits.
    #[verifier::type_invariant]
    pub closed spec fn admitted(&self) -> bool {
        number_text(self.text@)
    }

    /// The number that `text` writes, if it writes one.
    pub fn from_text(text: &str) -> (r: Option<Number>)
        ensures
            match r {
                Some(n) => number_text(text.spec_bytes()) && n@ == text.spec_bytes(),
                None => !number_text(text.spec_bytes()),
            },
    {
        Number::from_bytes(text.as_bytes())
    }

    /// The number that `bytes` write, if they write one.
    pub fn from_bytes(bytes: &[u8]) -> (r: Option<Number>)
        ensures
            match r {
                Some(n) => number_text(bytes@) && n@ == bytes@,
                None => !number_text(bytes@),
            },
    {
        if bytes.len() == 0 || !(is_digit(bytes[0]) || bytes[0] == MINUS) {
            return None;
        }
        if !is_numeral(bytes) {
            return None;
        }
        if !fits_double(bytes) {
            return None;
        }
        Some(Number { text: slice_to_vec(bytes) })
    }

    /// The number that `bytes` are known to write.
    pub fn from_numeral(bytes: &[u8]) -> (r: Number)
        requires
            number_text(bytes@),
        ensures
            r@ == bytes@,
    {
        Number { text: slice_to_vec(bytes) }
    }

    /// The bytes of the numeral.
    pub fn as_bytes(&self) -> (r: &[u8])
        ensures
            r@ == self@,
            number_text(r@),
    {
        proof {
            use_type_invariant(self);
        }
        self.text.as_slice()
    }

    /// The numeral as text.
    pub fn text(&self) -> (r: String)
        ensures
            r@ == latin(self@),
            number_text(self@),
    {
        proof {
            use_type_invariant(self);
        }
        let mut out = String::new();
        let mut i: usize = 0;
        while i < self.text.len()
            invariant
                i <= self.text@.len(),
                out@ == latin(self.text@.subrange(0, i as int)),
            decreases self.text@.len() - i,
        {
            out.push(self.text[i] as char);
            assert(out@ =~= latin(self.text@.subrange(0, i + 1)));
            i += 1;
        }
        assert(self.text@.subrange(0, i as int) =~= self.text@);
        out
    }
}

} // verus!
