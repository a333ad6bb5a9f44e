//! Per-key running statistics: minimum, maximum, sum and count, all kept as
//! exact integers (tenths for the first three).

use vstd::prelude::*;
use vstd::arithmetic::div_mod::{lemma_fundamental_div_mod, lemma_mod_division_less_than_divisor};
use vstd::slice::slice_to_vec;
use crate::codec::{
    decode_value, is_digit, magnitude_value, valid_magnitude, valid_value, DOT, MINUS, ZERO,
};
use crate::error::Error;

verus! {

/// Spec-level image of a statistics record: `(min, max, sum, count)`, the
/// first three in tenths.
pub type Stats = (int, int, int, int);

/// The record before any update: extremes at the type bounds, sum and count
/// at zero.
pub open spec fn stats_default() -> Stats {
    (i64::MAX as int, i64::MIN as int, 0, 0)
}

/// One update folded into a record, exactly as the table applies it.
pub open spec fn stats_add(d: Stats, v: int) -> Stats {
    (
        if v < d.0 { v } else { d.0 },
        if v > d.1 { v } else { d.1 },
        d.2 + v,
        d.3 + 1,
    )
}

/// Well-formedness: before the first update the fields sit at their neutral
/// values; afterwards the extremes bound every added value, and with them the
/// sum. Only values inside the decimal grammar's range are ever added.
pub open spec fn stats_wf(d: Stats) -> bool {
    &&& 0 <= d.3 <= usize::MAX
    &&& (d.3 == 0 ==> d == stats_default())
    &&& (d.3 >= 1 ==> -9999 <= d.0 <= d.1 <= 9999 && d.3 * d.0 <= d.2 <= d.3 * d.1)
}

/// Integer division truncating toward zero, as the report's average uses it.
pub open spec fn trunc_div(a: int, b: int) -> int {
    if a >= 0 {
        a / b
    } else {
        -((-a) / b)
    }
}

/// The truncated quotient of a sum bracketed by `c * lo` and `c * hi` stays
/// inside `[lo, hi]`.
pub proof fn lemma_trunc_div_bounds(s: int, c: int, lo: int, hi: int)
    requires
        c >= 1,
        c * lo <= s <= c * hi,
    ensures
        lo <= trunc_div(s, c) <= hi,
{
    if s >= 0 {
        let q = s / c;
        let r = s % c;
        lemma_fundamental_div_mod(s, c);
        lemma_mod_division_less_than_divisor(s, c);
        assert(lo <= q && q <= hi) by (nonlinear_arith)
            requires
                c >= 1,
                c * lo <= s <= c * hi,
                s == c * q + r,
                0 <= r < c,
        {}
    } else {
        let q = (-s) / c;
        let r = (-s) % c;
        lemma_fundamental_div_mod(-s, c);
        lemma_mod_division_less_than_divisor(-s, c);
        assert(lo <= -q && -q <= hi) by (nonlinear_arith)
            requires
                c >= 1,
                c * lo <= s <= c * hi,
                -s == c * q + r,
                0 <= r < c,
        {}
    }
}

/// Folding a value inside the grammar's range into a well-formed record
/// keeps it well-formed.
pub proof fn lemma_stats_add_wf(d: Stats, v: int)
    requires
        stats_wf(d),
        -9999 <= v <= 9999,
        d.3 < usize::MAX,
    ensures
        stats_wf(stats_add(d, v)),
{
    let d2 = stats_add(d, v);
    if d.3 >= 1 {
        assert(d2.3 * d2.0 <= d2.2 && d2.2 <= d2.3 * d2.1) by (nonlinear_arith)
            requires
                d.3 >= 1,
                d.3 * d.0 <= d.2 <= d.3 * d.1,
                -9999 <= d.0 <= d.1 <= 9999,
                -9999 <= v <= 9999,
                d2.0 == (if v < d.0 { v } else { d.0 }),
                d2.1 == (if v > d.1 { v } else { d.1 }),
                d2.2 == d.2 + v,
                d2.3 == d.3 + 1,
        {}
    }
}

/// A per-key running statistics record. `min`, `max` and `sum` are in
/// tenths; `count` is the number of updates folded in.
#[derive(Debug, Clone, Copy)]
pub struct Record {
    pub min: i64,
    pub max: i64,
    pub sum: i128,
    pub count: usize,
}

impl Record {
    /// Spec-level image of this record.
    pub open spec fn model(self) -> Stats {
        (self.min as int, self.max as int, self.sum as int, self.count as int)
    }

    pub open spec fn wf(self) -> bool {
        stats_wf(self.model())
    }

    /// Folds one observed value into the record, keeping the extremes, the
    /// exact sum, and the update count.
    pub fn add(&mut self, temperature: i64)
        requires
            old(self).wf(),
            -9999 <= temperature <= 9999,
            old(self).count < usize::MAX,
        ensures
            final(self).model() == stats_add(old(self).model(), temperature as int),
            final(self).wf(),
    {
        proof {
            let d = self.model();
            if d.3 >= 1 {
                assert(-9999 * d.3 <= d.3 * d.0 && d.3 * d.1 <= 9999 * d.3) by (nonlinear_arith)
                    requires
                        d.3 >= 1,
                        -9999 <= d.0 <= d.1 <= 9999,
                {}
                assert(-9999 * d.3 >= -9999 * (usize::MAX as int)) by (nonlinear_arith)
                    requires
                        d.3 <= usize::MAX as int,
                {}
                assert(9999 * d.3 <= 9999 * (usize::MAX as int)) by (nonlinear_arith)
                    requires
                        d.3 <= usize::MAX as int,
                {}
            }
        }
        if temperature < self.min {
            self.min = temperature;
        }
        if temperature > self.max {
            self.max = temperature;
        }
        self.sum = self.sum + temperature as i128;
        self.count = self.count + 1;
        proof {
            lemma_stats_add_wf(old(self).model(), temperature as int);
        }
    }

    /// The truncated average of the values folded in so far, in tenths.
    /// For every key, the average lies between the key's extremes.
    pub fn average(&self) -> (r: i64)
        requires
            self.wf(),
            self.count >= 1,
        ensures
            r as int == trunc_div(self.model().2, self.model().3),
            self.min <= r <= self.max,
    {
        proof {
            let d = self.model();
            lemma_trunc_div_bounds(d.2, d.3, d.0, d.1);
            assert(d.2 >= -9999 * (usize::MAX as int)) by (nonlinear_arith)
                requires
                    1 <= d.3 <= usize::MAX as int,
                    d.3 * d.0 <= d.2,
                    -9999 <= d.0,
            {}
        }
        if self.sum >= 0 {
            let q: u128 = (self.sum as u128) / (self.count as u128);
            q as i64
        } else {
            let q: u128 = ((-self.sum) as u128) / (self.count as u128);
            -(q as i64)
        }
    }

    /// Decodes a value text into tenths: an optional sign, then 1 to 3
    /// integer digits, a point, and exactly one fractional digit. Any other
    /// shape is a fatal format error naming the offending text.
    pub fn manual_parse(temp: &[u8]) -> (r: Result<i64, Error>)
        ensures
            valid_value(temp@) ==> (r matches Ok(v) && v as int == decode_value(temp@)
                && -9999 <= v <= 9999),
            !valid_value(temp@) ==> (r matches Err(e) && e matches Error::InvalidValue(t)
                && t@ == temp@),
    {
        let n = temp.len();
        let neg = n > 0 && temp[0] == MINUS;
        let s: usize = if neg { 1 } else { 0 };
        let ghost m = if neg { temp@.skip(1) } else { temp@ };
        let mut ok = false;
        let mut mag: i64 = 0;
        if n - s == 3 {
            if digit(temp[s]) && temp[s + 1] == DOT && digit(temp[s + 2]) {
                ok = true;
                mag = (temp[s] - ZERO) as i64 * 10 + (temp[s + 2] - ZERO) as i64;
                assert(mag == magnitude_value(m));
            }
        } else if n - s == 4 {
            if digit(temp[s]) && digit(temp[s + 1]) && temp[s + 2] == DOT && digit(temp[s + 3]) {
                ok = true;
                mag = (temp[s] - ZERO) as i64 * 100 + (temp[s + 1] - ZERO) as i64 * 10
                    + (temp[s + 3] - ZERO) as i64;
                assert(mag == magnitude_value(m));
            }
        } else if n - s == 5 {
            if digit(temp[s]) && digit(temp[s + 1]) && digit(temp[s + 2]) && temp[s + 3] == DOT
                && digit(temp[s + 4]) {
                ok = true;
                mag = (temp[s] - ZERO) as i64 * 1000 + (temp[s + 1] - ZERO) as i64 * 100
                    + (temp[s + 2] - ZERO) as i64 * 10 + (temp[s + 4] - ZERO) as i64;
                assert(mag == magnitude_value(m));
            }
        }
        assert(ok == valid_magnitude(m));
        assert(valid_value(temp@) == valid_magnitude(m));
        if !ok {
            return Err(Error::InvalidValue(slice_to_vec(temp)));
        }
        if neg {
            Ok(-mag)
        } else {
            Ok(mag)
        }
    }
}

impl Default for Record {
    /// The neutral record that the table starts a fresh key from.
    fn default() -> (r: Self)
        ensures
            r.model() == stats_default(),
            r.wf(),
    {
        Record { min: i64::MAX, max: i64::MIN, sum: 0, count: 0 }
    }
}

/// True exactly when `b` is a decimal digit byte.
fn digit(b: u8) -> (r: bool)
    ensures
        r == is_digit(b),
{
    ZERO <= b && b <= ZERO + 9
}

} // verus!
