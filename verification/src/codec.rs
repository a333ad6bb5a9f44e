//! The fixed-point decimal grammar for values, and its inverse.
//!
//! A value text is an optional `-`, then 1 to 3 integer digits, a literal
//! `.`, and exactly one fractional digit. Decoding yields the value as an
//! integer count of tenths (`22.4` decodes to 224), so accumulation is exact.

use vstd::prelude::*;
use vstd::arithmetic::div_mod::{lemma_div_multiples_vanish_fancy, lemma_fundamental_div_mod};

verus! {

/// The record terminator byte (newline).
pub const TERM: u8 = 10;

/// The key/value field separator byte.
pub const SEP: u8 = 59;

/// The decimal point byte.
pub const DOT: u8 = 46;

/// The leading sign byte.
pub const MINUS: u8 = 45;

/// The byte for the digit zero.
pub const ZERO: u8 = 48;

/// The colon byte, part of the report's `key: ` prefix.
pub const COLON: u8 = 58;

/// The space byte, part of the report's `key: ` prefix.
pub const SPACE: u8 = 32;

/// The slash byte between the report's three figures.
pub const SLASH: u8 = 47;

pub open spec fn is_digit(b: u8) -> bool {
    ZERO <= b && b <= ZERO + 9
}

pub open spec fn digit_val(b: u8) -> int {
    b - ZERO
}

/// The unsigned part of the grammar: `D.D`, `DD.D` or `DDD.D`.
pub open spec fn valid_magnitude(s: Seq<u8>) -> bool {
    ||| (s.len() == 3 && is_digit(s[0]) && s[1] == DOT && is_digit(s[2]))
    ||| (s.len() == 4 && is_digit(s[0]) && is_digit(s[1]) && s[2] == DOT && is_digit(s[3]))
    ||| (s.len() == 5 && is_digit(s[0]) && is_digit(s[1]) && is_digit(s[2]) && s[3] == DOT
        && is_digit(s[4]))
}

/// Tenths encoded by a valid magnitude text.
pub open spec fn magnitude_value(s: Seq<u8>) -> int {
    if s.len() == 3 {
        10 * digit_val(s[0]) + digit_val(s[2])
    } else if s.len() == 4 {
        100 * digit_val(s[0]) + 10 * digit_val(s[1]) + digit_val(s[3])
    } else {
        1000 * digit_val(s[0]) + 100 * digit_val(s[1]) + 10 * digit_val(s[2]) + digit_val(s[4])
    }
}

/// The full grammar: an optional leading sign before a magnitude.
pub open spec fn valid_value(s: Seq<u8>) -> bool {
    if s.len() > 0 && s[0] == MINUS {
        valid_magnitude(s.skip(1))
    } else {
        valid_magnitude(s)
    }
}

/// Tenths encoded by a valid value text.
pub open spec fn decode_value(s: Seq<u8>) -> int {
    if s.len() > 0 && s[0] == MINUS {
        -magnitude_value(s.skip(1))
    } else {
        magnitude_value(s)
    }
}

/// Every valid value text decodes into `-999.9 ..= 999.9`, in tenths.
pub proof fn lemma_decode_range(s: Seq<u8>)
    requires
        valid_value(s),
    ensures
        -9999 <= decode_value(s) <= 9999,
{
}

pub open spec fn digit_byte(d: int) -> u8 {
    (ZERO + d) as u8
}

/// Renders `0 <= m <= 9999` tenths as digits: the integer part without
/// leading zeros, the point, then the single fractional digit.
pub open spec fn encode_magnitude(m: int) -> Seq<u8> {
    let ip = m / 10;
    let f = m % 10;
    if ip < 10 {
        seq![digit_byte(ip), DOT, digit_byte(f)]
    } else if ip < 100 {
        seq![digit_byte(ip / 10), digit_byte(ip % 10), DOT, digit_byte(f)]
    } else {
        seq![digit_byte(ip / 100), digit_byte((ip / 10) % 10), digit_byte(ip % 10), DOT, digit_byte(f)]
    }
}

/// Renders tenths as text: a sign for negative values, then the magnitude.
pub open spec fn encode_tenths(v: int) -> Seq<u8> {
    if v < 0 {
        seq![MINUS] + encode_magnitude(-v)
    } else {
        encode_magnitude(v)
    }
}

/// Renders a tenths value with exactly one fractional digit, as the report
/// prints it.
pub fn render_tenths(v: i64) -> (out: Vec<u8>)
    requires
        -9999 <= v <= 9999,
    ensures
        out@ == encode_tenths(v as int),
{
    let mut out: Vec<u8> = Vec::new();
    let mag: u64 = if v < 0 {
        out.push(MINUS);
        (-v) as u64
    } else {
        v as u64
    };
    let ip: u64 = mag / 10;
    let f: u8 = (mag % 10) as u8;
    if ip >= 100 {
        out.push((ip / 100) as u8 + ZERO);
        out.push(((ip / 10) % 10) as u8 + ZERO);
        out.push((ip % 10) as u8 + ZERO);
    } else if ip >= 10 {
        out.push((ip / 10) as u8 + ZERO);
        out.push((ip % 10) as u8 + ZERO);
    } else {
        out.push(ip as u8 + ZERO);
    }
    out.push(DOT);
    out.push(f + ZERO);
    proof {
        assert(out@ =~= encode_tenths(v as int));
    }
    out
}

/// A magnitude text in the shape the encoder produces: no leading zero
/// unless the integer part is the single digit `0`.
pub open spec fn canonical_magnitude(m: Seq<u8>) -> bool {
    valid_magnitude(m) && (m.len() >= 4 ==> m[0] != ZERO)
}

/// A value text in the shape the encoder produces: a canonical magnitude,
/// and a sign only on a nonzero value.
pub open spec fn canonical_value(s: Seq<u8>) -> bool {
    if s.len() > 0 && s[0] == MINUS {
        canonical_magnitude(s.skip(1)) && magnitude_value(s.skip(1)) != 0
    } else {
        canonical_magnitude(s)
    }
}

proof fn lemma_magnitude_round_trip(m: Seq<u8>)
    requires
        canonical_magnitude(m),
    ensures
        encode_magnitude(magnitude_value(m)) == m,
        magnitude_value(m) >= 0,
{
    if m.len() == 3 {
        let a = digit_val(m[0]);
        let c = digit_val(m[2]);
        let v = magnitude_value(m);
        lemma_div_multiples_vanish_fancy(a, c, 10);
        assert(10 * a + c == v);
        assert(v / 10 == a);
        lemma_fundamental_div_mod(v, 10);
        assert(v % 10 == c);
        assert(encode_magnitude(v) =~= m);
    } else if m.len() == 4 {
        let a = digit_val(m[0]);
        let b = digit_val(m[1]);
        let c = digit_val(m[3]);
        let v = magnitude_value(m);
        let ip = 10 * a + b;
        lemma_div_multiples_vanish_fancy(ip, c, 10);
        assert(10 * ip + c == v);
        assert(v / 10 == ip);
        lemma_fundamental_div_mod(v, 10);
        assert(v % 10 == c);
        assert(a >= 1);
        lemma_div_multiples_vanish_fancy(a, b, 10);
        assert(10 * a + b == ip);
        assert(ip / 10 == a);
        lemma_fundamental_div_mod(ip, 10);
        assert(ip % 10 == b);
        assert(encode_magnitude(v) =~= m);
    } else {
        let a = digit_val(m[0]);
        let b = digit_val(m[1]);
        let c = digit_val(m[2]);
        let f = digit_val(m[4]);
        let v = magnitude_value(m);
        let ip = 100 * a + 10 * b + c;
        lemma_div_multiples_vanish_fancy(ip, f, 10);
        assert(10 * ip + f == v);
        assert(v / 10 == ip);
        lemma_fundamental_div_mod(v, 10);
        assert(v % 10 == f);
        assert(a >= 1);
        lemma_div_multiples_vanish_fancy(a, 10 * b + c, 100);
        assert(100 * a + (10 * b + c) == ip);
        assert(ip / 100 == a);
        let iph = 10 * a + b;
        lemma_div_multiples_vanish_fancy(iph, c, 10);
        assert(10 * iph + c == ip);
        assert(ip / 10 == iph);
        lemma_fundamental_div_mod(ip, 10);
        assert(ip % 10 == c);
        lemma_div_multiples_vanish_fancy(a, b, 10);
        assert(iph / 10 == a);
        lemma_fundamental_div_mod(iph, 10);
        assert(iph % 10 == b);
        assert(encode_magnitude(v) =~= m);
    }
}

/// Decimal round-trip: decoding a value text in the encoder's own shape and
/// re-encoding it reproduces the text byte for byte.
pub proof fn lemma_round_trip(s: Seq<u8>)
    requires
        canonical_value(s),
        -999 <= decode_value(s) <= 9999,
    ensures
        encode_tenths(decode_value(s)) == s,
{
    if s.len() > 0 && s[0] == MINUS {
        let m = s.skip(1);
        lemma_magnitude_round_trip(m);
        assert(decode_value(s) == -magnitude_value(m));
        assert(encode_tenths(decode_value(s)) == seq![MINUS] + encode_magnitude(
            magnitude_value(m),
        ));
        assert(seq![MINUS] + m =~= s);
    } else {
        lemma_magnitude_round_trip(s);
    }
}

} // verus!
