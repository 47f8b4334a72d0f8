use vstd::prelude::*;

use crate::text::push_char;

verus! {

/// `c` is an ASCII decimal digit.
pub open spec fn is_digit(c: char) -> bool {
    ('0' as u32) <= (c as u32) && (c as u32) <= ('9' as u32)
}

/// The numeric value of a digit character.
pub open spec fn digit_val(c: char) -> nat {
    ((c as u32) - ('0' as u32)) as nat
}

pub open spec fn all_digits(s: Seq<char>) -> bool {
    forall|i: int| 0 <= i < s.len() ==> is_digit(s[i])
}

/// The number a digit string denotes in base ten.
pub open spec fn digits_val(s: Seq<char>) -> nat
    decreases s.len(),
{
    if s.len() == 0 {
        0
    } else {
        digits_val(s.drop_last()) * 10 + digit_val(s.last())
    }
}

proof fn lemma_digits_val_prefix(s: Seq<char>, i: int)
    requires
        0 <= i <= s.len(),
    ensures
        digits_val(s.take(i)) <= digits_val(s),
    decreases s.len() - i,
{
    if i == s.len() {
        assert(s.take(i) =~= s);
    } else {
        assert(s.take(i + 1).drop_last() =~= s.take(i));
        lemma_digits_val_prefix(s, i + 1);
    }
}

// ---------------------------------------------------------------------------
// Parsing, with the acceptance rules of `str::parse`
// ---------------------------------------------------------------------------

/// The digits of an unsigned decimal string, after Rust's optional '+'.
pub open spec fn u32_body(s: Seq<char>) -> Seq<char> {
    if s.len() > 0 && s[0] == '+' {
        s.drop_first()
    } else {
        s
    }
}

/// `s` is accepted by `str::parse::<u32>`: an optional leading '+', then
/// one or more ASCII digits, denoting a value that fits in a `u32`.
pub open spec fn parses_as_u32(s: Seq<char>) -> bool {
    u32_body(s).len() > 0 && all_digits(u32_body(s)) && digits_val(u32_body(s)) <= u32::MAX
}

pub open spec fn spec_u32_val(s: Seq<char>) -> nat {
    digits_val(u32_body(s))
}

/// The digits of a signed decimal string, after an optional '+' or '-'.
pub open spec fn i32_body(s: Seq<char>) -> Seq<char> {
    if s.len() > 0 && (s[0] == '+' || s[0] == '-') {
        s.drop_first()
    } else {
        s
    }
}

pub open spec fn i32_negative(s: Seq<char>) -> bool {
    s.len() > 0 && s[0] == '-'
}

pub open spec fn spec_i32_val(s: Seq<char>) -> int {
    if i32_negative(s) {
        -(digits_val(i32_body(s)) as int)
    } else {
        digits_val(i32_body(s)) as int
    }
}

/// `s` is accepted by `str::parse::<i32>`: an optional sign, then one or
/// more ASCII digits, denoting a value in the range of `i32`.
pub open spec fn parses_as_i32(s: Seq<char>) -> bool {
    i32_body(s).len() > 0 && all_digits(i32_body(s)) && i32::MIN <= spec_i32_val(s)
        <= i32::MAX
}

/// Parses an unsigned decimal number exactly as `str::parse::<u32>` does:
/// `Some` on an optional '+' followed by digits whose value fits, `None`
/// on anything else.
pub fn parse_u32(s: &str) -> (r: Option<u32>)
    ensures
        r is Some <==> parses_as_u32(s@),
        r is Some ==> r->Some_0 == spec_u32_val(s@),
{
    let n = s.unicode_len();
    let start: usize = if n > 0 && s.get_char(0) == '+' {
        1
    } else {
        0
    };
    let ghost b = u32_body(s@);
    proof {
        assert(b =~= s@.subrange(start as int, n as int));
    }
    if start >= n {
        return None;
    }
    let mut acc: u32 = 0;
    let mut i: usize = start;
    while i < n
        invariant
            n == s@.len(),
            start <= i <= n,
            start < n,
            b == u32_body(s@),
            b =~= s@.subrange(start as int, n as int),
            all_digits(b.take(i as int - start as int)),
            acc == digits_val(b.take(i as int - start as int)),
        decreases n - i,
    {
        let c = s.get_char(i);
        proof {
            assert(b[i as int - start as int] == s@[i as int]);
        }
        let cv = c as u32;
        if cv < ('0' as u32) || cv > ('9' as u32) {
            return None;
        }
        let d = cv - ('0' as u32);
        proof {
            assert(b.take(i + 1 as int - start as int).drop_last() =~= b.take(
                i as int - start as int,
            ));
            assert(b.take(i + 1 as int - start as int).last() == c);
        }
        if acc > (u32::MAX - d) / 10 {
            proof {
                assert(acc * 10 + d > u32::MAX) by {
                    assert(acc >= (u32::MAX - d) / 10 + 1);
                    assert(((u32::MAX - d) / 10 + 1) * 10 == ((u32::MAX - d) / 10) * 10 + 10);
                    assert(((u32::MAX - d) / 10) * 10 + 10 > u32::MAX - d);
                };
                lemma_digits_val_prefix(b, i + 1 - start as int);
            }
            return None;
        }
        proof {
            assert(acc * 10 + d <= u32::MAX) by {
                assert(acc <= (u32::MAX - d) / 10);
                assert(((u32::MAX - d) / 10) * 10 <= u32::MAX - d);
            };
        }
        acc = acc * 10 + d;
        i = i + 1;
    }
    proof {
        assert(b.take(n as int - start as int) =~= b);
    }
    Some(acc)
}

/// Parses a signed decimal number exactly as `str::parse::<i32>` does.
pub fn parse_i32(s: &str) -> (r: Option<i32>)
    ensures
        r is Some <==> parses_as_i32(s@),
        r is Some ==> r->Some_0 == spec_i32_val(s@),
{
    let n = s.unicode_len();
    let mut negative = false;
    let mut start: usize = 0;
    if n > 0 {
        let c0 = s.get_char(0);
        if c0 == '+' {
            start = 1;
        } else if c0 == '-' {
            start = 1;
            negative = true;
        }
    }
    let ghost b = i32_body(s@);
    proof {
        assert(b =~= s@.subrange(start as int, n as int));
        assert(negative == i32_negative(s@));
    }
    if start >= n {
        return None;
    }
    let limit: u32 = if negative {
        2147483648
    } else {
        2147483647
    };
    let mut acc: u32 = 0;
    let mut i: usize = start;
    while i < n
        invariant
            n == s@.len(),
            start <= i <= n,
            start < n,
            b == i32_body(s@),
            negative == i32_negative(s@),
            b =~= s@.subrange(start as int, n as int),
            limit == if negative {
                2147483648u32
            } else {
                2147483647u32
            },
            all_digits(b.take(i as int - start as int)),
            acc == digits_val(b.take(i as int - start as int)),
            acc <= limit,
        decreases n - i,
    {
        let c = s.get_char(i);
        proof {
            assert(b[i as int - start as int] == s@[i as int]);
        }
        let cv = c as u32;
        if cv < ('0' as u32) || cv > ('9' as u32) {
            return None;
        }
        let d = cv - ('0' as u32);
        proof {
            assert(b.take(i + 1 as int - start as int).drop_last() =~= b.take(
                i as int - start as int,
            ));
            assert(b.take(i + 1 as int - start as int).last() == c);
        }
        if acc > (limit - d) / 10 {
            proof {
                assert(acc * 10 + d > limit) by {
                    assert(acc >= (limit - d) / 10 + 1);
                    assert(((limit - d) / 10 + 1) * 10 == ((limit - d) / 10) * 10 + 10);
                    assert(((limit - d) / 10) * 10 + 10 > limit - d);
                };
                lemma_digits_val_prefix(b, i + 1 - start as int);
            }
            return None;
        }
        proof {
            assert(acc * 10 + d <= limit) by {
                assert(acc <= (limit - d) / 10);
                assert(((limit - d) / 10) * 10 <= limit - d);
            };
        }
        acc = acc * 10 + d;
        i = i + 1;
    }
    proof {
        assert(b.take(n as int - start as int) =~= b);
    }
    if negative {
        if acc == 2147483648 {
            Some(i32::MIN)
        } else {
            Some(-(acc as i32))
        }
    } else {
        Some(acc as i32)
    }
}

// ---------------------------------------------------------------------------
// Decimal formatting
// ---------------------------------------------------------------------------

/// The digit character for `d` (0 to 9).
pub open spec fn digit_char(d: nat) -> char {
    ((d + ('0' as u32)) as u8) as char
}

/// The decimal digit string of `n`: most significant digit first, no sign,
/// no padding.
pub open spec fn spec_dec_digits(n: nat) -> Seq<char>
    decreases n,
{
    if n < 10 {
        seq![digit_char(n)]
    } else {
        spec_dec_digits(n / 10).push(digit_char(n % 10))
    }
}

/// Appends the decimal digits of `n` to `out`.
pub fn push_dec_digits(out: &mut String, n: u32)
    ensures
        final(out)@ == old(out)@ + spec_dec_digits(n as nat),
    decreases n,
{
    if n < 10 {
        let c = ((n as u8) + 48u8) as char;
        proof {
            assert(c == digit_char(n as nat));
        }
        push_char(out, c);
        proof {
            assert(out@ =~= old(out)@ + spec_dec_digits(n as nat));
        }
    } else {
        push_dec_digits(out, n / 10);
        let c = (((n % 10) as u8) + 48u8) as char;
        proof {
            assert(c == digit_char((n % 10) as nat));
        }
        push_char(out, c);
        proof {
            assert(out@ =~= old(out)@ + spec_dec_digits(n as nat));
        }
    }
}

} // verus!
