//! Times as text.

use vstd::prelude::*;
use vstd::string::*;
use vstd::arithmetic::power2::*;
use vstd::arithmetic::div_mod::*;
use crate::arith::{number, from_whole, abs, is_pattern, lemma_sum, lemma_ratio_pattern, lemma_pattern_exact, lemma_pattern_exists, lemma_infinity};
use crate::rounding::{nearest, lemma_ratio_between, lemma_nearest_monotone, lemma_nearest_scaled, lemma_nearest_bounds, lemma_bit_len_unique};
use crate::scalar::{negated, lemma_negated, lemma_shrinks, fsub, fmul, fdiv, fmax, truncated, parts, subtract, multiply, divide_by, larger, truncate, nearest_parts};
use crate::single::THOUSAND;
use crate::single::{Bits, ONE, INFINITY, less, less_than, unsigned, negative, magnitude, value, significand, last_digit, lemma_magnitude_order};
use crate::text::{decimal, digit, padded, zeros, decimal_text, padded_text};

verus! {

pub const SIXTY: Bits = 0x4270_0000;

/// A number of milliseconds as minutes, seconds and thousandths.
pub open spec fn clock(ms: nat) -> Seq<char> {
    decimal(ms / 60_000) + seq![':'] + padded((ms % 60_000) / 1000, 2) + seq!['.'] + padded(ms % 1000, 3)
}

/// The whole thousandths of a time in seconds.
pub open spec fn thousandths(s: Bits) -> nat {
    truncated(fmax(fmul(s, THOUSAND), 0))
}

/// A time in seconds as minutes, seconds and thousandths.
pub fn fmt_time(s: Bits) -> (r: String)
    ensures
        r@ == clock(thousandths(s)),
{
    let ms: u64 = truncate(larger(multiply(s, THOUSAND), 0));
    let mut r: String = decimal_text((ms / 60_000) as u128);
    r.push(':');
    r.append(padded_text((ms % 60_000) / 1000, false).as_str());
    r.push('.');
    r.append(padded_text(ms % 1000, true).as_str());
    assert(r@ =~= clock(ms as nat));
    r
}

/// A frequency in hertz; whole thousands from one thousand on.
pub open spec fn hertz(hz: u32) -> Seq<char> {
    if hz >= 1000 {
        decimal(hz as nat / 1000).push('k')
    } else {
        decimal(hz as nat)
    }
}

/// The name of a frequency on the grid.
pub fn frequency_name(hz: u32) -> (r: String)
    ensures
        r@ == hertz(hz),
{
    if hz >= 1000 {
        let mut r: String = decimal_text((hz / 1000) as u128);
        r.push('k');
        r
    } else {
        decimal_text(hz as u128)
    }
}

/// A number of hundredths with two digits behind the point.
pub open spec fn with_hundredths(n: nat) -> Seq<char> {
    decimal(n / 100) + seq!['.'] + padded(n % 100, 2)
}

/// The same with zeros in front, five characters wide with the sign.
pub open spec fn wide_hundredths(minus: bool, n: nat) -> Seq<char> {
    if minus {
        seq!['-'] + with_hundredths(n)
    } else {
        padded(n / 100, 2) + seq!['.'] + padded(n % 100, 2)
    }
}

/// The whole minutes of a time, and the seconds over them.
pub open spec fn minutes_of(t: Bits) -> nat {
    truncated(fdiv(t, SIXTY))
}

pub open spec fn seconds_over(t: Bits) -> Bits {
    fsub(t, number(minutes_of(t) * 60))
}

/// A time on the ruler: milliseconds below a second, seconds below a minute,
/// else minutes and seconds.
pub open spec fn ruler_text(t: Bits) -> Seq<char> {
    if less(t, ONE) {
        decimal(parts(fmul(t, THOUSAND), 1)) + seq!['m', 's']
    } else if less(t, SIXTY) {
        with_hundredths(parts(t, 100)) + seq!['s']
    } else {
        decimal(minutes_of(t)) + seq![':'] + wide_hundredths(
            negative(seconds_over(t)),
            parts(seconds_over(t), 100),
        )
    }
}

fn hundredths_text(n: u128) -> (r: String)
    ensures
        r@ == with_hundredths(n as nat),
{
    let mut r: String = decimal_text(n / 100);
    r.push('.');
    r.append(padded_text((n % 100) as u64, false).as_str());
    assert(r@ =~= with_hundredths(n as nat));
    r
}

fn wide_text(minus: bool, n: u128) -> (r: String)
    ensures
        r@ == wide_hundredths(minus, n as nat),
{
    if minus {
        let mut r: String = String::new();
        r.push('-');
        r.append(hundredths_text(n).as_str());
        assert(r@ =~= wide_hundredths(minus, n as nat));
        return r;
    }
    let mut r: String = if n / 100 < 100 {
        padded_text((n / 100) as u64, false)
    } else {
        proof {
            reveal_with_fuel(decimal, 3);
        }
        decimal_text(n / 100)
    };
    r.push('.');
    r.append(padded_text((n % 100) as u64, false).as_str());
    assert(r@ =~= wide_hundredths(minus, n as nat));
    r
}

/// A time on the ruler, from zero up to what the seconds of its whole minutes, 32
/// bits wide, reach.
pub fn format_time(t: Bits) -> (r: String)
    requires
        t < 0x4f80_0000,
    ensures
        r@ == ruler_text(t),
{
    if less_than(t, ONE) {
        proof {
            lemma_below_one(t);
        }
        let mut r: String = decimal_text(nearest_parts(multiply(t, THOUSAND), 1));
        r.push('m');
        r.push('s');
        assert(r@ =~= ruler_text(t));
        return r;
    }
    if less_than(t, SIXTY) {
        let mut r: String = hundredths_text(nearest_parts(t, 100));
        r.push('s');
        assert(r@ =~= ruler_text(t));
        return r;
    }
    proof {
        lemma_minutes(t);
    }
    let m: u64 = truncate(divide_by(t, SIXTY));
    let s: Bits = subtract(t, from_whole(m * 60));
    let n: u128 = nearest_parts(s, 100);
    let mut r: String = decimal_text(m as u128);
    r.push(':');
    r.append(wide_text(s >= 0x8000_0000, n).as_str());
    assert(r@ =~= ruler_text(t));
    r
}

/// Less than a second is less than a thousand milliseconds.
proof fn lemma_below_one(t: Bits)
    requires
        t < 0x4f80_0000,
        less(t, ONE),
    ensures
        unsigned(fmul(t, THOUSAND)) < 0x4f80_0000,
{
    lemma2_to64();
    lemma_pow2_pos(149);
    assert(unsigned(t) == t && unsigned(THOUSAND) == THOUSAND && unsigned(ONE) == ONE);
    lemma_pow2_adds(23, 126);
    assert(last_digit(ONE) == 126 && significand(ONE) == 0x80_0000);
    let num = magnitude(t) * magnitude(THOUSAND);
    lemma_ratio_pattern(num, pow2(149), false);
    assert(num <= magnitude(THOUSAND) * pow2(149)) by (nonlinear_arith)
        requires
            num == magnitude(t) * magnitude(THOUSAND),
            magnitude(t) <= pow2(149),
    ;
    lemma_ratio_between(num, pow2(149), magnitude(THOUSAND), 24);
    lemma_pattern_exact(THOUSAND);
    let r = fmul(t, THOUSAND);
    lemma_magnitude_order(THOUSAND, INFINITY);
    lemma_infinity();
    lemma_magnitude_order(THOUSAND, r);
}

/// Minutes and the seconds over them stay small.
proof fn lemma_minutes(t: Bits)
    requires
        t < 0x4f80_0000,
    ensures
        minutes_of(t) < 0x1_0000_0000,
        unsigned(seconds_over(t)) <= 0x5280_0000,
{
    lemma2_to64();
    lemma_pow2_pos(149);
    assert(unsigned(t) == t && unsigned(SIXTY) == SIXTY);
    // sixty is at least one
    lemma_pow2_adds(23, 131);
    lemma_pow2_strictly_increases(149, 154);
    assert(last_digit(SIXTY) == 131 && significand(SIXTY) >= 0x80_0000) by {
        assert(unsigned(SIXTY) / 0x80_0000 == 132);
    }
    assert(magnitude(SIXTY) >= 0x80_0000 * pow2(131)) by (nonlinear_arith)
        requires
            magnitude(SIXTY) == significand(SIXTY) * pow2(131),
            significand(SIXTY) >= 0x80_0000,
    ;
    lemma_shrinks(t, SIXTY);
    // the time is below 2^32
    let top: Bits = 0x4f80_0000;
    assert(unsigned(top) == top);
    assert(last_digit(top) == 158 && significand(top) == 0x80_0000) by {
        assert(unsigned(top) / 0x80_0000 == 159);
    }
    lemma_pow2_adds(23, 158);
    lemma_pow2_adds(32, 149);
    lemma_magnitude_order(t, top);
    let m = minutes_of(t);
    assert(m < 0x1_0000_0000) by {
        let x = magnitude(fdiv(t, SIXTY));
        assert(x < 0x1_0000_0000 * pow2(149));
        if x / pow2(149) >= 0x1_0000_0000 {
            lemma_fundamental_div_mod(x as int, pow2(149) as int);
            lemma_mod_bound(x as int, pow2(149) as int);
            assert(pow2(149) * (x / pow2(149)) >= pow2(149) * 0x1_0000_0000) by (nonlinear_arith)
                requires
                    x / pow2(149) >= 0x1_0000_0000,
                    pow2(149) > 0,
            ;
        }
    }
    // so its whole minutes are at most 2^38 seconds
    let whole = number(m * 60);
    let high: Bits = 0x5280_0000;
    lemma_number_below(m * 60);
    lemma_difference(t, whole, high);
}

/// Whole numbers below 2^38 have small patterns.
proof fn lemma_number_below(n: nat)
    requires
        n < 0x40_0000_0000,
    ensures
        number(n) <= 0x5280_0000,
{
    lemma2_to64();
    lemma2_to64_rest();
    let high: Bits = 0x5280_0000;
    assert(unsigned(high) == high);
    assert(last_digit(high) == 164 && significand(high) == 0x80_0000) by {
        assert(unsigned(high) / 0x80_0000 == 165);
    }
    lemma_pow2_adds(23, 164);
    lemma_pow2_adds(38, 149);
    lemma_pow2_pos(149);
    lemma_nearest_monotone(n, 0x40_0000_0000, 24);
    assert(nearest(0x40_0000_0000, 24) == 0x40_0000_0000) by {
        lemma_bit_len_unique(1, 1);
        lemma_nearest_bounds(1, 24);
        lemma_nearest_scaled(1, 38, 24);
        assert(1 * pow2(38) == 0x40_0000_0000);
    }
    let w = nearest(n, 24);
    let mag = w * pow2(149);
    assert(mag <= 0x40_0000_0000 * pow2(149)) by (nonlinear_arith)
        requires
            mag == w * pow2(149),
            w <= 0x40_0000_0000,
    ;
    lemma_nearest_scaled(n, 149, 24);
    lemma_pattern_exists(n * pow2(149), false);
    let r = number(n);
    lemma_magnitude_order(high, INFINITY);
    lemma_infinity();
    assert(unsigned(INFINITY) == INFINITY);
    assert(is_pattern(r, false, mag));
    lemma_magnitude_order(high, r);
}

/// The difference of two numbers that are not negative is no larger than both.
proof fn lemma_difference(a: Bits, b: Bits, high: Bits)
    requires
        a <= high,
        b <= high,
        high < INFINITY,
    ensures
        unsigned(fsub(a, b)) <= high,
{
    lemma_negated(b);
    let x = value(a) + value(negated(b));
    lemma_sum(a, negated(b));
    lemma_magnitude_order(a, high);
    lemma_magnitude_order(b, high);
    assert(unsigned(high) == high && unsigned(a) == a && unsigned(b) == b);
    lemma_nearest_monotone(abs(x), magnitude(high), 24);
    lemma_pattern_exact(high);
    lemma_magnitude_order(high, INFINITY);
    lemma_infinity();
    assert(unsigned(INFINITY) == INFINITY);
    lemma_magnitude_order(high, fsub(a, b));
}

// ---- Laws -------------------------------------------------------------------

/// Are these all digits?
pub open spec fn are_digits(s: Seq<char>) -> bool {
    forall|i: int| 0 <= i < s.len() ==> '0' <= #[trigger] s[i] <= '9'
}

/// The number that a row of digits stands for.
pub open spec fn reading(s: Seq<char>) -> int
    decreases s.len(),
{
    if s.len() == 0 {
        0
    } else {
        10 * reading(s.drop_last()) + (s.last() as int - '0' as int)
    }
}

proof fn lemma_decimal_reads(n: nat)
    ensures
        are_digits(decimal(n)),
        reading(decimal(n)) == n,
        decimal(n).len() >= 1,
        n < 10 ==> decimal(n).len() == 1,
        n < 100 ==> decimal(n).len() <= 2,
        n < 1000 ==> decimal(n).len() <= 3,
    decreases n,
{
    reveal_with_fuel(reading, 2);
    let d = decimal(n);
    if n < 10 {
        assert(d.drop_last() =~= Seq::<char>::empty());
        assert(d.last() == digit(n));
    } else {
        lemma_decimal_reads(n / 10);
        assert(d.drop_last() =~= decimal(n / 10));
        assert(d.last() == digit(n % 10));
        assert forall|i: int| 0 <= i < d.len() implies '0' <= #[trigger] d[i] <= '9' by {
            if i < d.len() - 1 {
                assert(d[i] == decimal(n / 10)[i]);
            }
        }
    }
}

proof fn lemma_zeros_read(k: nat, s: Seq<char>)
    requires
        are_digits(s),
    ensures
        are_digits(zeros(k) + s),
        reading(zeros(k) + s) == reading(s),
    decreases k + s.len(),
{
    let t = zeros(k) + s;
    if s.len() > 0 {
        assert(t.drop_last() =~= zeros(k) + s.drop_last());
        assert(t.last() == s.last());
        assert(are_digits(s.drop_last())) by {
            assert forall|i: int| 0 <= i < s.drop_last().len() implies '0' <= #[trigger] s.drop_last()[i] <= '9' by {
                assert(s[i] == s.drop_last()[i]);
            }
        }
        lemma_zeros_read(k, s.drop_last());
    } else if k > 0 {
        assert(t.drop_last() =~= zeros((k - 1) as nat) + s);
        assert(t.last() == '0');
        lemma_zeros_read((k - 1) as nat, s);
    } else {
        assert(t =~= s);
    }
    assert(are_digits(t)) by {
        assert forall|i: int| 0 <= i < t.len() implies '0' <= #[trigger] t[i] <= '9' by {
            if i >= k {
                assert(t[i] == s[i - k]);
            }
        }
    }
}

proof fn lemma_padded_reads(n: nat, width: nat)
    requires
        decimal(n).len() <= width,
    ensures
        are_digits(padded(n, width)),
        reading(padded(n, width)) == n,
        padded(n, width).len() == width,
{
    lemma_decimal_reads(n);
    if decimal(n).len() < width {
        lemma_zeros_read((width - decimal(n).len()) as nat, decimal(n));
    }
}

/// The parts of a time: minutes, two digits of seconds and three of thousandths.
pub open spec fn is_clock(text: Seq<char>, a: Seq<char>, b: Seq<char>, c: Seq<char>) -> bool {
    &&& text == a + seq![':'] + b + seq!['.'] + c
    &&& a.len() >= 1 && are_digits(a)
    &&& b.len() == 2 && are_digits(b)
    &&& c.len() == 3 && are_digits(c)
}

/// A time that is written out reads back as what it was: the minutes, the seconds below
/// sixty and the thousandths add up to it.
pub proof fn law_clock_reads_back(ms: nat)
    ensures
        exists|a: Seq<char>, b: Seq<char>, c: Seq<char>| #[trigger]
            is_clock(clock(ms), a, b, c) && reading(b) < 60 && reading(a) * 60_000 + reading(b) * 1000 + reading(c) == ms,
{
    let a = decimal(ms / 60_000);
    let b = padded((ms % 60_000) / 1000, 2);
    let c = padded(ms % 1000, 3);
    lemma_decimal_reads(ms / 60_000);
    lemma_decimal_reads((ms % 60_000) / 1000);
    lemma_decimal_reads(ms % 1000);
    lemma_padded_reads((ms % 60_000) / 1000, 2);
    lemma_padded_reads(ms % 1000, 3);
    assert(is_clock(clock(ms), a, b, c));
}

/// A number of hundredths reads back as the whole and two digits behind the point.
pub proof fn law_hundredths_read_back(n: nat)
    ensures
        exists|a: Seq<char>, b: Seq<char>|
            with_hundredths(n) == #[trigger] (a + seq!['.'] + b) && b.len() == 2 && are_digits(a) && are_digits(b) && reading(a)
                * 100 + reading(b) == n,
{
    let a = decimal(n / 100);
    let b = padded(n % 100, 2);
    lemma_decimal_reads(n / 100);
    lemma_decimal_reads(n % 100);
    lemma_padded_reads(n % 100, 2);
    assert(with_hundredths(n) == a + seq!['.'] + b);
}

/// The name of a frequency reads back as its hertz, or from a thousand on as its whole
/// thousands in front of a `k`.
pub proof fn law_frequency_reads_back(hz: u32)
    ensures
        hz < 1000 ==> are_digits(hertz(hz)) && reading(hertz(hz)) == hz,
        hz >= 1000 ==> hertz(hz).last() == 'k' && are_digits(hertz(hz).drop_last()) && reading(hertz(hz).drop_last()) == hz
            / 1000,
{
    lemma_decimal_reads(hz as nat);
    lemma_decimal_reads(hz as nat / 1000);
    if hz >= 1000 {
        assert(hertz(hz).drop_last() =~= decimal(hz as nat / 1000));
    }
}

} // verus!
