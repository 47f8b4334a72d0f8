use vstd::prelude::*;

use crate::num::{push_dec_digits, spec_dec_digits};
use crate::text::push_char;

verus! {

/// A proleptic Gregorian calendar date, held as plain numbers.
#[derive(Clone, Copy, PartialEq, Eq, Structural, Debug)]
pub struct Date {
    pub year: i32,
    pub month: u32,
    pub day: u32,
}

pub open spec fn is_leap_year(y: int) -> bool {
    y % 4 == 0 && (y % 100 != 0 || y % 400 == 0)
}

/// The number of days of month `m` (1 to 12) in year `y`.
pub open spec fn days_in_month(y: int, m: int) -> int {
    if m == 2 {
        if is_leap_year(y) {
            29
        } else {
            28
        }
    } else if m == 4 || m == 6 || m == 9 || m == 11 {
        30
    } else {
        31
    }
}

/// Raw feed values clamp to a minimum of 1: zero stands for an unknown
/// month or day and defaults to the first.
pub open spec fn clamp_min_1(n: u32) -> u32 {
    if n < 1 {
        1
    } else {
        n
    }
}

fn leap_year(y: i32) -> (r: bool)
    ensures
        r == is_leap_year(y as int),
{
    let m: u32 = if y < 0 {
        ((-(y as i64)) as u64 % 400) as u32
    } else {
        (y as u32) % 400
    };
    proof {
        lemma_mod_of_magnitude(y as int, 4);
        lemma_mod_of_magnitude(y as int, 100);
        lemma_mod_of_magnitude(y as int, 400);
        vstd::arithmetic::div_mod::lemma_small_mod(m as nat, 400);
    }
    m % 4 == 0 && (m % 100 != 0 || m == 0)
}

/// A number is divisible by `d` exactly when its magnitude's remainder
/// by 400 is, for the divisors of 400 that the leap-year rule uses.
proof fn lemma_mod_of_magnitude(y: int, d: int)
    requires
        d == 4 || d == 100 || d == 400,
    ensures
        (y % d == 0) <==> ((if y < 0 {
            -y
        } else {
            y
        }) % 400) % d == 0,
{
    let m = if y < 0 {
        -y
    } else {
        y
    };
    vstd::arithmetic::div_mod::lemma_mod_mod(m, d, 400int / d);
    assert(d * (400int / d) == 400);
    assert(m % 400 % d == m % d);
    if y < 0 {
        lemma_mod_zero_neg(y, d);
    }
}

/// Divisibility is not affected by sign.
proof fn lemma_mod_zero_neg(y: int, d: int)
    requires
        0 < d,
    ensures
        (y % d == 0) <==> ((-y) % d == 0),
{
    vstd::arithmetic::div_mod::lemma_fundamental_div_mod(y, d);
    vstd::arithmetic::div_mod::lemma_fundamental_div_mod(-y, d);
    vstd::arithmetic::div_mod::lemma_small_mod(0, d as nat);
    if y % d == 0 {
        vstd::arithmetic::mul::lemma_mul_unary_negation(d, y / d);
        assert(-y == d * (-(y / d)));
        vstd::arithmetic::div_mod::lemma_mod_multiples_vanish(-(y / d), 0, d);
    }
    if (-y) % d == 0 {
        vstd::arithmetic::mul::lemma_mul_unary_negation(d, (-y) / d);
        assert(y == d * (-((-y) / d)));
        vstd::arithmetic::div_mod::lemma_mod_multiples_vanish(-((-y) / d), 0, d);
    }
}

impl Date {
    /// The numbers denote a real calendar day.
    pub open spec fn wf(self) -> bool {
        1 <= self.month <= 12 && 1 <= self.day <= days_in_month(
            self.year as int,
            self.month as int,
        )
    }

    /// Builds a date from raw feed numbers. Month and day clamp to a
    /// minimum of 1; a date that is no real calendar day is rejected.
    pub fn from_raw_clamped(year: i32, month: u32, day: u32) -> (r: Option<Date>)
        ensures
            ({
                let d = Date { year, month: clamp_min_1(month), day: clamp_min_1(day) };
                r == if d.wf() {
                    Some(d)
                } else {
                    None::<Date>
                }
            }),
    {
        let m = if month < 1 {
            1
        } else {
            month
        };
        let d = if day < 1 {
            1
        } else {
            day
        };
        let date = Date { year, month: m, day: d };
        if m > 12 {
            return None;
        }
        let max_day: u32 = if m == 2 {
            if leap_year(year) {
                29
            } else {
                28
            }
        } else if m == 4 || m == 6 || m == 9 || m == 11 {
            30
        } else {
            31
        };
        if d > max_day {
            None
        } else {
            Some(date)
        }
    }

    /// The date in ISO-8601 "YYYY-MM-DD" form: the year zero-padded to
    /// four digits, with a leading '-' when negative; month and day
    /// zero-padded to two digits.
    pub open spec fn spec_iso(self) -> Seq<char> {
        let mag = (if self.year < 0 {
            -(self.year as int)
        } else {
            self.year as int
        }) as nat;
        let sign: Seq<char> = if self.year < 0 {
            seq!['-']
        } else {
            Seq::<char>::empty()
        };
        sign + spec_pad4(mag) + seq!['-'] + spec_pad2(self.month as nat) + seq!['-']
            + spec_pad2(self.day as nat)
    }

    /// Formats the date as its ISO-8601 "YYYY-MM-DD" string.
    pub fn iso_string(&self) -> (r: String)
        ensures
            r@ == self.spec_iso(),
    {
        let mut out = String::new();
        let ghost mag_i: int = if self.year < 0 {
            -(self.year as int)
        } else {
            self.year as int
        };
        let mag: u32 = if self.year < 0 {
            (-(self.year as i64)) as u32
        } else {
            self.year as u32
        };
        let ghost sign: Seq<char> = if self.year < 0 {
            seq!['-']
        } else {
            Seq::<char>::empty()
        };
        if self.year < 0 {
            push_char(&mut out, '-');
        }
        proof {
            assert(out@ =~= sign);
        }
        push_padded4(&mut out, mag);
        proof {
            assert(out@ =~= sign + spec_pad4(mag as nat));
        }
        push_char(&mut out, '-');
        push_padded2(&mut out, self.month);
        proof {
            assert(out@ =~= sign + spec_pad4(mag as nat) + seq!['-'] + spec_pad2(
                self.month as nat,
            ));
        }
        push_char(&mut out, '-');
        push_padded2(&mut out, self.day);
        proof {
            assert(out@ =~= self.spec_iso());
        }
        out
    }
}

/// `n` in decimal, zero-padded to at least four digits.
pub open spec fn spec_pad4(n: nat) -> Seq<char> {
    if n < 10 {
        seq!['0', '0', '0'] + spec_dec_digits(n)
    } else if n < 100 {
        seq!['0', '0'] + spec_dec_digits(n)
    } else if n < 1000 {
        seq!['0'] + spec_dec_digits(n)
    } else {
        spec_dec_digits(n)
    }
}

/// `n` in decimal, zero-padded to at least two digits.
pub open spec fn spec_pad2(n: nat) -> Seq<char> {
    if n < 10 {
        seq!['0'] + spec_dec_digits(n)
    } else {
        spec_dec_digits(n)
    }
}

fn push_padded4(out: &mut String, n: u32)
    ensures
        final(out)@ == old(out)@ + spec_pad4(n as nat),
{
    if n < 10 {
        push_char(out, '0');
        push_char(out, '0');
        push_char(out, '0');
    } else if n < 100 {
        push_char(out, '0');
        push_char(out, '0');
    } else if n < 1000 {
        push_char(out, '0');
    }
    push_dec_digits(out, n);
    proof {
        assert(out@ =~= old(out)@ + spec_pad4(n as nat));
    }
}

fn push_padded2(out: &mut String, n: u32)
    ensures
        final(out)@ == old(out)@ + spec_pad2(n as nat),
{
    if n < 10 {
        push_char(out, '0');
    }
    push_dec_digits(out, n);
    proof {
        assert(out@ =~= old(out)@ + spec_pad2(n as nat));
    }
}

} // verus!
