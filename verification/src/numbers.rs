//! Decimal coordinate numerals. Coordinate fields in the dataset and in
//! stored coordinate strings are signed decimal numerals with at most
//! six fractional digits; the crate reads them as integer counts of
//! micro-degrees, so that coordinate logic stays in exact integer
//! arithmetic.

use vstd::prelude::*;
use vstd::string::*;
use crate::text::find_char;
use crate::text::find_first;
use crate::text::lemma_find_char;

verus! {

/// Decimal digit.
pub open spec fn is_digit(c: char) -> bool {
    '0' <= c && c <= '9'
}

/// Numeric value of a digit character.
pub open spec fn digit_val(c: char) -> int {
    c as int - '0' as int
}

/// Every character of `s` is a digit.
pub open spec fn all_digits(s: Seq<char>) -> bool {
    forall|i: int| 0 <= i < s.len() ==> is_digit(#[trigger] s[i])
}

/// Value of a digit run read in base ten.
pub open spec fn digits_val(s: Seq<char>) -> int
    decreases s.len(),
{
    if s.len() == 0 {
        0
    } else {
        digits_val(s.drop_last()) * 10 + digit_val(s.last())
    }
}

/// Ten to the `n`.
pub open spec fn pow10(n: nat) -> int
    decreases n,
{
    if n == 0 {
        1
    } else {
        10 * pow10((n - 1) as nat)
    }
}

pub proof fn lemma_pow10_pos(n: nat)
    ensures
        pow10(n) >= 1,
    decreases n,
{
    if n > 0 {
        lemma_pow10_pos((n - 1) as nat);
    }
}

pub proof fn lemma_pow10_increases(a: nat, b: nat)
    requires
        a <= b,
    ensures
        pow10(a) <= pow10(b),
    decreases b,
{
    if a < b {
        lemma_pow10_increases(a, (b - 1) as nat);
        lemma_pow10_pos((b - 1) as nat);
    }
}

pub proof fn lemma_pow10_adds(a: nat, b: nat)
    ensures
        pow10(a + b) == pow10(a) * pow10(b),
    decreases a,
{
    if a == 0 {
        assert(pow10(0 + b) == 1 * pow10(b));
    } else {
        lemma_pow10_adds((a - 1) as nat, b);
        assert((a + b - 1) as nat == (a - 1) as nat + b);
        assert(10 * (pow10((a - 1) as nat) * pow10(b)) == (10 * pow10((a - 1) as nat)) * pow10(
            b,
        )) by (nonlinear_arith);
    }
}

/// The magnitude part of a numeral: the characters after an optional
/// leading minus sign.
pub open spec fn decimal_body(s: Seq<char>) -> Seq<char> {
    if s.len() > 0 && s[0] == '-' {
        s.drop_first()
    } else {
        s
    }
}

/// Whether the numeral carries a minus sign.
pub open spec fn decimal_is_negative(s: Seq<char>) -> bool {
    s.len() > 0 && s[0] == '-'
}

/// A valid coordinate numeral: an optional minus sign, one to twelve
/// integer digits, and optionally a point followed by one to six
/// fractional digits.
pub open spec fn valid_decimal(s: Seq<char>) -> bool {
    let t = decimal_body(s);
    let p = find_char(t, '.');
    if p == t.len() {
        1 <= t.len() <= 12 && all_digits(t)
    } else {
        let ip = t.subrange(0, p);
        let fp = t.subrange(p + 1, t.len() as int);
        1 <= ip.len() <= 12 && 1 <= fp.len() <= 6 && all_digits(ip) && all_digits(fp)
    }
}

/// Value of a valid numeral in micro-units: the integer part scaled by
/// one million plus the fractional digits padded to six places, negated
/// under a minus sign.
pub open spec fn decimal_val_micro(s: Seq<char>) -> int {
    let t = decimal_body(s);
    let p = find_char(t, '.');
    let mag = if p == t.len() {
        digits_val(t) * 1000000
    } else {
        digits_val(t.subrange(0, p)) * 1000000 + digits_val(t.subrange(p + 1, t.len() as int))
            * pow10((6 - (t.len() - p - 1)) as nat)
    };
    if decimal_is_negative(s) {
        -mag
    } else {
        mag
    }
}

/// Exec test for a digit character.
fn digit_char(c: char) -> (b: bool)
    ensures
        b == is_digit(c),
{
    '0' <= c && c <= '9'
}

/// Parse an unsigned run of one to twelve digits.
fn parse_digits(s: &str) -> (r: Option<u64>)
    ensures
        r is Some <==> (1 <= s@.len() <= 12 && all_digits(s@)),
        r is Some ==> r->Some_0 == digits_val(s@) && r->Some_0 < pow10(s@.len()),
{
    let len = s.unicode_len();
    if len < 1 || len > 12 {
        return None;
    }
    let mut acc: u64 = 0;
    let mut i: usize = 0;
    while i < len
        invariant
            i <= len,
            len == s@.len(),
            1 <= len <= 12,
            all_digits(s@.subrange(0, i as int)),
            acc == digits_val(s@.subrange(0, i as int)),
            acc < pow10(i as nat),
        decreases len - i,
    {
        let c = s.get_char(i);
        if !digit_char(c) {
            return None;
        }
        proof {
            lemma_pow10_increases(i as nat, 11);
            reveal_with_fuel(pow10, 13);
            assert(s@.subrange(0, i + 1).drop_last() =~= s@.subrange(0, i as int));
            assert(s@.subrange(0, i + 1).last() == s@[i as int]);
        }
        acc = acc * 10 + (c as u32 - 48) as u64;
        i += 1;
    }
    proof {
        assert(s@.subrange(0, len as int) =~= s@);
    }
    Some(acc)
}

/// Ten to a small exec exponent.
fn pow10_small(w: u64) -> (r: u64)
    requires
        w <= 6,
    ensures
        r == pow10(w as nat),
{
    proof {
        reveal_with_fuel(pow10, 7);
    }
    if w == 0 {
        1
    } else if w == 1 {
        10
    } else if w == 2 {
        100
    } else if w == 3 {
        1000
    } else if w == 4 {
        10000
    } else if w == 5 {
        100000
    } else {
        1000000
    }
}

proof fn lemma_frac_scaled_bound(v: int, p: int, q: int)
    by (nonlinear_arith)
    requires
        0 <= v,
        v < p,
        q >= 1,
        p * q == 1000000,
    ensures
        0 <= v * q <= 1000000 - q,
{
}

/// Parse a coordinate numeral into micro-units.
///
/// Returns `Some` exactly on valid numerals, and then the exact
/// micro-unit value.
pub fn parse_micro(s: &str) -> (r: Option<i64>)
    ensures
        r is Some <==> valid_decimal(s@),
        r is Some ==> r->Some_0 == decimal_val_micro(s@),
{
    let len = s.unicode_len();
    let neg = len > 0 && s.get_char(0) == '-';
    let start: usize = if neg {
        1
    } else {
        0
    };
    let t = s.substring_char(start, len);
    proof {
        assert(t@ =~= decimal_body(s@));
        lemma_find_char(t@, '.');
    }
    let tlen = t.unicode_len();
    let p = find_first(t, '.');
    if p == tlen {
        match parse_digits(t) {
            None => None,
            Some(v) => {
                proof {
                    lemma_pow10_increases(t@.len() as nat, 12);
                    reveal_with_fuel(pow10, 13);
                }
                let mag: u64 = v * 1000000;
                if neg {
                    Some(-(mag as i64))
                } else {
                    Some(mag as i64)
                }
            },
        }
    } else {
        let ip = t.substring_char(0, p);
        let fp = t.substring_char(p + 1, tlen);
        proof {
            assert(ip@ =~= t@.subrange(0, p as int));
            assert(fp@ =~= t@.subrange(p as int + 1, t@.len() as int));
        }
        let fplen = fp.unicode_len();
        if fplen < 1 || fplen > 6 {
            return None;
        }
        match parse_digits(ip) {
            None => None,
            Some(iv) => {
                match parse_digits(fp) {
                    None => None,
                    Some(fv) => {
                        let scale = pow10_small(6 - fplen as u64);
                        proof {
                            lemma_pow10_adds(fp@.len() as nat, (6 - fp@.len()) as nat);
                            reveal_with_fuel(pow10, 7);
                            lemma_frac_scaled_bound(
                                fv as int,
                                pow10(fp@.len() as nat),
                                pow10((6 - fp@.len()) as nat),
                            );
                            lemma_pow10_increases(ip@.len() as nat, 12);
                            reveal_with_fuel(pow10, 13);
                        }
                        let mag: u64 = iv * 1000000 + fv * scale;
                        if neg {
                            Some(-(mag as i64))
                        } else {
                            Some(mag as i64)
                        }
                    },
                }
            },
        }
    }
}

} // verus!
