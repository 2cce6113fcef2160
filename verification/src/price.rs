//! Fixed-point prices. A price is a whole number of cents, bounded so that
//! any ledger's total fits comfortably in `i128`. Prices are parsed from and
//! formatted to plain decimal text with at most two fraction digits.

use vstd::prelude::*;
use crate::strbuf::push_char;

verus! {

/// Largest whole-unit part a price may have.
pub const MAX_UNITS: i64 = 999_999_999_999;

/// Largest magnitude, in cents, a price may have: `MAX_UNITS` units plus 99 cents.
pub const MAX_CENTS: i64 = 99_999_999_999_999;

/// A price is valid when its magnitude in cents is at most `MAX_CENTS`.
pub open spec fn valid_cents(c: int) -> bool {
    -(MAX_CENTS as int) <= c <= MAX_CENTS as int
}

/// The decimal digit character for a value in 0..=9.
pub open spec fn digit_char(d: int) -> char {
    if d == 0 {
        '0'
    } else if d == 1 {
        '1'
    } else if d == 2 {
        '2'
    } else if d == 3 {
        '3'
    } else if d == 4 {
        '4'
    } else if d == 5 {
        '5'
    } else if d == 6 {
        '6'
    } else if d == 7 {
        '7'
    } else if d == 8 {
        '8'
    } else {
        '9'
    }
}

/// Whether a character is a decimal digit.
pub open spec fn is_digit(c: char) -> bool {
    '0' <= c <= '9'
}

/// The numeric value of a decimal digit character.
pub open spec fn digit_val(c: char) -> int {
    c as int - '0' as int
}

/// 10 raised to the power `k`.
pub open spec fn pow10(k: nat) -> int
    decreases k,
{
    if k == 0 {
        1
    } else {
        10 * pow10((k - 1) as nat)
    }
}

/// The decimal digits of a non-negative integer, most significant first.
pub open spec fn fmt_nat(n: int) -> Seq<char>
    recommends
        n >= 0,
    decreases n,
{
    if n < 10 {
        seq![digit_char(n)]
    } else {
        fmt_nat(n / 10).push(digit_char(n % 10))
    }
}

/// The decimal rendering of a non-negative amount of cents: the whole units,
/// a point, and exactly two fraction digits.
pub open spec fn fmt_cents_nn(c: int) -> Seq<char>
    recommends
        c >= 0,
{
    fmt_nat(c / 100) + seq!['.', digit_char((c % 100) / 10), digit_char((c % 100) % 10)]
}

/// The decimal rendering of an amount of cents, with a leading minus sign
/// when it is negative.
pub open spec fn fmt_cents(c: int) -> Seq<char> {
    if c < 0 {
        seq!['-'] + fmt_cents_nn(-c)
    } else {
        fmt_cents_nn(c)
    }
}

/// Consume decimal digits greedily, accumulating their value onto `acc`;
/// fail if the accumulated value ever exceeds `MAX_UNITS`.
pub open spec fn parse_digits(s: Seq<char>, acc: int) -> Option<(int, Seq<char>)>
    decreases s.len(),
{
    if s.len() > 0 && is_digit(s[0]) {
        let v = acc * 10 + digit_val(s[0]);
        if v > MAX_UNITS as int {
            None
        } else {
            parse_digits(s.skip(1), v)
        }
    } else {
        Some((acc, s))
    }
}

/// Parse one or two fraction digits after the decimal point and combine them
/// with the whole units already read; fail on a third fraction digit.
pub open spec fn parse_frac(s: Seq<char>, units: int) -> Option<(int, Seq<char>)> {
    if s.len() == 0 || !is_digit(s[0]) {
        None
    } else if s.len() == 1 || !is_digit(s[1]) {
        Some((units * 100 + digit_val(s[0]) * 10, s.skip(1)))
    } else if s.len() == 2 || !is_digit(s[2]) {
        Some((units * 100 + digit_val(s[0]) * 10 + digit_val(s[1]), s.skip(2)))
    } else {
        None
    }
}

/// Parse an unsigned decimal amount: one or more digits of whole units,
/// optionally followed by a point and one or two fraction digits.
/// The result is in cents.
pub open spec fn parse_unsigned(s: Seq<char>) -> Option<(int, Seq<char>)> {
    if s.len() > 0 && is_digit(s[0]) {
        match parse_digits(s, 0) {
            Some((units, rest)) => {
                if rest.len() > 0 && rest[0] == '.' {
                    parse_frac(rest.skip(1), units)
                } else {
                    Some((units * 100, rest))
                }
            },
            None => None,
        }
    } else {
        None
    }
}

/// Parse a decimal amount with an optional leading minus sign.
pub open spec fn parse_number(s: Seq<char>) -> Option<(int, Seq<char>)> {
    if s.len() > 0 && s[0] == '-' {
        match parse_unsigned(s.skip(1)) {
            Some((v, rest)) => Some((-v, rest)),
            None => None,
        }
    } else {
        parse_unsigned(s)
    }
}

/// Parse a whole string as a price in cents: the amount must fill the string.
pub open spec fn spec_parse_price(s: Seq<char>) -> Option<int> {
    match parse_number(s) {
        Some((v, rest)) => if rest.len() == 0 {
            Some(v)
        } else {
            None
        },
        None => None,
    }
}

/// A digit's character is a digit character and carries the digit's value.
pub proof fn lemma_digit_roundtrip(d: int)
    requires
        0 <= d < 10,
    ensures
        is_digit(digit_char(d)),
        digit_val(digit_char(d)) == d,
{
}

/// A formatted non-negative number is non-empty and starts with a digit.
pub proof fn lemma_fmt_nat_first(n: int)
    requires
        n >= 0,
    ensures
        fmt_nat(n).len() >= 1,
        is_digit(fmt_nat(n)[0]),
    decreases n,
{
    if n < 10 {
        lemma_digit_roundtrip(n);
    } else {
        lemma_fmt_nat_first(n / 10);
    }
}

/// Reading the digits of a formatted number accumulates exactly its value.
pub proof fn lemma_parse_fmt_nat(n: int, acc: int, rest: Seq<char>)
    requires
        0 <= n,
        0 <= acc,
        acc * pow10(fmt_nat(n).len()) + n <= MAX_UNITS as int,
    ensures
        parse_digits(fmt_nat(n) + rest, acc) == parse_digits(
            rest,
            acc * pow10(fmt_nat(n).len()) + n,
        ),
    decreases n,
{
    let s = fmt_nat(n) + rest;
    if n < 10 {
        lemma_digit_roundtrip(n);
        assert(pow10(0) == 1);
        assert(pow10(1) == 10);
        assert(s[0] == digit_char(n));
        assert(s.skip(1) =~= rest);
        assert(acc * 10 + n <= MAX_UNITS as int);
    } else {
        let m = n / 10;
        let d = n % 10;
        let l = fmt_nat(m).len();
        assert(fmt_nat(n) == fmt_nat(m).push(digit_char(d)));
        assert(fmt_nat(n).len() == l + 1);
        assert(pow10(l + 1) == 10 * pow10(l));
        let mid = acc * pow10(l as nat) + m;
        assert(mid * 10 + d == acc * pow10((l + 1) as nat) + n) by (nonlinear_arith)
            requires
                pow10((l + 1) as nat) == 10 * pow10(l as nat),
                mid == acc * pow10(l as nat) + m,
                m == n / 10,
                d == n % 10,
                n >= 10,
        ;
        lemma_pow10_pos(l as nat);
        assert(mid >= 0) by (nonlinear_arith)
            requires
                acc >= 0,
                m >= 0,
                pow10(l as nat) >= 1,
                mid == acc * pow10(l as nat) + m,
        ;
        assert(mid <= MAX_UNITS as int);
        assert(s =~= fmt_nat(m) + (seq![digit_char(d)] + rest));
        lemma_parse_fmt_nat(m, acc, seq![digit_char(d)] + rest);
        lemma_digit_roundtrip(d);
        let s2 = seq![digit_char(d)] + rest;
        assert(s2[0] == digit_char(d));
        assert(s2.skip(1) =~= rest);
        assert(parse_digits(s2, mid) == parse_digits(rest, mid * 10 + d));
    }
}

/// 10 to any power is positive.
pub proof fn lemma_pow10_pos(k: nat)
    ensures
        pow10(k) >= 1,
    decreases k,
{
    if k > 0 {
        lemma_pow10_pos((k - 1) as nat);
    }
}

/// Parsing a formatted non-negative amount of cents, followed by anything
/// that does not begin with a digit, yields exactly that amount.
pub proof fn lemma_parse_fmt_cents_nn(c: int, rest: Seq<char>)
    requires
        0 <= c <= MAX_CENTS as int,
        rest.len() == 0 || !is_digit(rest[0]),
    ensures
        parse_unsigned(fmt_cents_nn(c) + rest) == Some((c, rest)),
{
    let u = c / 100;
    let f = c % 100;
    let d1 = f / 10;
    let d2 = f % 10;
    assert(0 <= u <= MAX_UNITS as int);
    assert(0 <= f < 100);
    assert(u * 100 + f == c);
    let tail = seq!['.', digit_char(d1), digit_char(d2)] + rest;
    let s = fmt_cents_nn(c) + rest;
    assert(s =~= fmt_nat(u) + tail);
    lemma_fmt_nat_first(u);
    assert(s.len() > 0 && is_digit(s[0])) by {
        assert(s[0] == fmt_nat(u)[0]);
    }
    lemma_pow10_pos(fmt_nat(u).len());
    assert(0 * pow10(fmt_nat(u).len()) + u == u);
    lemma_parse_fmt_nat(u, 0, tail);
    assert(parse_digits(s, 0) == parse_digits(tail, u));
    assert(tail[0] == '.');
    assert(!is_digit('.'));
    assert(parse_digits(tail, u) == Some((u, tail)));
    let frac = tail.skip(1);
    assert(frac =~= seq![digit_char(d1), digit_char(d2)] + rest);
    lemma_digit_roundtrip(d1);
    lemma_digit_roundtrip(d2);
    assert(frac[0] == digit_char(d1));
    assert(frac[1] == digit_char(d2));
    if rest.len() > 0 {
        assert(frac[2] == rest[0]);
    }
    assert(frac.skip(2) =~= rest);
    assert(u * 100 + d1 * 10 + d2 == c);
    assert(parse_frac(frac, u) == Some((c, rest)));
}

/// Parsing a formatted amount of cents, followed by anything that does not
/// begin with a digit, yields exactly that amount.
pub proof fn lemma_parse_fmt_cents(c: int, rest: Seq<char>)
    requires
        valid_cents(c),
        rest.len() == 0 || !is_digit(rest[0]),
    ensures
        parse_number(fmt_cents(c) + rest) == Some((c, rest)),
{
    if c < 0 {
        let s = fmt_cents(c) + rest;
        assert(s[0] == '-');
        assert(s.skip(1) =~= fmt_cents_nn(-c) + rest);
        lemma_parse_fmt_cents_nn(-c, rest);
    } else {
        let s = fmt_cents(c) + rest;
        assert(s =~= fmt_cents_nn(c) + rest);
        lemma_parse_fmt_cents_nn(c, rest);
        lemma_fmt_nat_first(c / 100);
        assert(s[0] == fmt_nat(c / 100)[0]) by {
            assert(fmt_cents_nn(c)[0] == fmt_nat(c / 100)[0]);
        }
        assert(s[0] != '-');
    }
}

/// Formatting a valid price and parsing the result yields the price back.
pub proof fn lemma_price_round_trip(c: int)
    requires
        valid_cents(c),
    ensures
        spec_parse_price(fmt_cents(c)) == Some(c),
{
    let rest = Seq::<char>::empty();
    lemma_parse_fmt_cents(c, rest);
    assert(fmt_cents(c) + rest =~= fmt_cents(c));
}

fn digit_to_char(d: u8) -> (c: char)
    requires
        d < 10,
    ensures
        c == digit_char(d as int),
{
    if d == 0 {
        '0'
    } else if d == 1 {
        '1'
    } else if d == 2 {
        '2'
    } else if d == 3 {
        '3'
    } else if d == 4 {
        '4'
    } else if d == 5 {
        '5'
    } else if d == 6 {
        '6'
    } else if d == 7 {
        '7'
    } else if d == 8 {
        '8'
    } else {
        '9'
    }
}

/// Append the decimal digits of `n` to `out`.
pub(crate) fn fmt_nat_onto(n: u64, out: &mut String)
    ensures
        final(out)@ == old(out)@ + fmt_nat(n as int),
    decreases n,
{
    if n < 10 {
        push_char(out, digit_to_char(n as u8));
        assert(final(out)@ =~= old(out)@ + fmt_nat(n as int));
    } else {
        let ghost mid = old(out)@ + fmt_nat((n / 10) as int);
        fmt_nat_onto(n / 10, out);
        push_char(out, digit_to_char((n % 10) as u8));
        assert(final(out)@ =~= old(out)@ + fmt_nat(n as int));
    }
}

/// Render a price in cents as decimal text with two fraction digits.
pub fn price_to_string(cents: i64) -> (s: String)
    requires
        valid_cents(cents as int),
    ensures
        s@ == fmt_cents(cents as int),
{
    let mut out = String::new();
    let nn: i64 = if cents < 0 {
        push_char(&mut out, '-');
        -cents
    } else {
        cents
    };
    assert(0 <= nn <= MAX_CENTS);
    let ghost start = out@;
    fmt_nat_onto((nn / 100) as u64, &mut out);
    push_char(&mut out, '.');
    push_char(&mut out, digit_to_char(((nn % 100) / 10) as u8));
    push_char(&mut out, digit_to_char(((nn % 100) % 10) as u8));
    assert(out@ =~= start + fmt_cents_nn(nn as int));
    if cents < 0 {
        assert(out@ =~= fmt_cents(cents as int));
    } else {
        assert(out@ =~= fmt_cents(cents as int));
    }
    out
}

fn char_digit(c: char) -> (r: Option<u8>)
    ensures
        match r {
            Some(d) => is_digit(c) && d as int == digit_val(c) && d < 10,
            None => !is_digit(c),
        },
{
    if c >= '0' && c <= '9' {
        Some((c as u32 - '0' as u32) as u8)
    } else {
        None
    }
}

fn parse_digits_at(s: &str, pos: usize, acc: i64) -> (r: Option<(i64, usize)>)
    requires
        pos <= s@.len(),
        0 <= acc <= MAX_UNITS,
    ensures
        match r {
            Some((v, p)) => {
                &&& pos <= p <= s@.len()
                &&& 0 <= v <= MAX_UNITS
                &&& parse_digits(s@.skip(pos as int), acc as int) == Some(
                    (v as int, s@.skip(p as int)),
                )
            },
            None => parse_digits(s@.skip(pos as int), acc as int) is None,
        },
    decreases s@.len() - pos,
{
    let ghost tail = s@.skip(pos as int);
    let n = s.unicode_len();
    if pos == n {
        assert(tail.len() == 0);
        return Some((acc, pos));
    }
    let c = s.get_char(pos);
    assert(c == tail[0]);
    match char_digit(c) {
        None => Some((acc, pos)),
        Some(d) => {
            let v: i64 = acc * 10 + d as i64;
            if v > MAX_UNITS {
                None
            } else {
                assert(tail.skip(1) =~= s@.skip(pos as int + 1));
                parse_digits_at(s, pos + 1, v)
            }
        },
    }
}

fn parse_frac_at(s: &str, pos: usize, units: i64) -> (r: Option<(i64, usize)>)
    requires
        pos <= s@.len(),
        0 <= units <= MAX_UNITS,
    ensures
        match r {
            Some((v, p)) => {
                &&& pos <= p <= s@.len()
                &&& 0 <= v <= MAX_CENTS
                &&& parse_frac(s@.skip(pos as int), units as int) == Some(
                    (v as int, s@.skip(p as int)),
                )
            },
            None => parse_frac(s@.skip(pos as int), units as int) is None,
        },
{
    let ghost tail = s@.skip(pos as int);
    let n = s.unicode_len();
    if pos == n {
        return None;
    }
    let d0 = match char_digit(s.get_char(pos)) {
        None => {
            return None;
        },
        Some(d) => d,
    };
    assert(tail[0] == s@[pos as int]);
    if pos + 1 == n {
        assert(tail.skip(1) =~= s@.skip(pos as int + 1));
        return Some((units * 100 + d0 as i64 * 10, pos + 1));
    }
    let d1 = match char_digit(s.get_char(pos + 1)) {
        None => {
            assert(tail[1] == s@[pos as int + 1]);
            assert(tail.skip(1) =~= s@.skip(pos as int + 1));
            return Some((units * 100 + d0 as i64 * 10, pos + 1));
        },
        Some(d) => d,
    };
    assert(tail[1] == s@[pos as int + 1]);
    if pos + 2 < n {
        let c2 = s.get_char(pos + 2);
        assert(tail[2] == s@[pos as int + 2]);
        if c2 >= '0' && c2 <= '9' {
            return None;
        }
    }
    assert(tail.skip(2) =~= s@.skip(pos as int + 2));
    Some((units * 100 + d0 as i64 * 10 + d1 as i64, pos + 2))
}

fn parse_unsigned_at(s: &str, pos: usize) -> (r: Option<(i64, usize)>)
    requires
        pos <= s@.len(),
    ensures
        match r {
            Some((v, p)) => {
                &&& pos <= p <= s@.len()
                &&& 0 <= v <= MAX_CENTS
                &&& parse_unsigned(s@.skip(pos as int)) == Some((v as int, s@.skip(p as int)))
            },
            None => parse_unsigned(s@.skip(pos as int)) is None,
        },
{
    let ghost tail = s@.skip(pos as int);
    let n = s.unicode_len();
    if pos == n {
        return None;
    }
    let c = s.get_char(pos);
    assert(c == tail[0]);
    if !(c >= '0' && c <= '9') {
        return None;
    }
    match parse_digits_at(s, pos, 0) {
        None => None,
        Some((units, p1)) => {
            let ghost rest1 = s@.skip(p1 as int);
            if p1 < n {
                let dot = s.get_char(p1);
                assert(dot == rest1[0]);
                if dot == '.' {
                    assert(rest1.skip(1) =~= s@.skip(p1 as int + 1));
                    return parse_frac_at(s, p1 + 1, units);
                }
            }
            assert(units * 100 <= MAX_CENTS) by (nonlinear_arith)
                requires
                    0 <= units <= MAX_UNITS,
            ;
            Some((units * 100, p1))
        },
    }
}

pub(crate) fn parse_number_at(s: &str, pos: usize) -> (r: Option<(i64, usize)>)
    requires
        pos <= s@.len(),
    ensures
        match r {
            Some((v, p)) => {
                &&& pos <= p <= s@.len()
                &&& valid_cents(v as int)
                &&& parse_number(s@.skip(pos as int)) == Some((v as int, s@.skip(p as int)))
            },
            None => parse_number(s@.skip(pos as int)) is None,
        },
{
    let ghost tail = s@.skip(pos as int);
    let n = s.unicode_len();
    if pos < n {
        let c = s.get_char(pos);
        assert(c == tail[0]);
        if c == '-' {
            assert(tail.skip(1) =~= s@.skip(pos as int + 1));
            return match parse_unsigned_at(s, pos + 1) {
                Some((v, p)) => Some((-v, p)),
                None => None,
            };
        }
    }
    parse_unsigned_at(s, pos)
}

/// Parse a whole string as a price in cents. Accepts an optional minus sign,
/// one or more digits of whole units, and optionally a point with one or two
/// fraction digits; the value must not exceed the price bound.
pub fn parse_price(s: &str) -> (r: Option<i64>)
    ensures
        match r {
            Some(v) => valid_cents(v as int) && spec_parse_price(s@) == Some(v as int),
            None => spec_parse_price(s@) is None,
        },
{
    let n = s.unicode_len();
    assert(s@.skip(0) =~= s@);
    match parse_number_at(s, 0) {
        Some((v, p)) => {
            if p == n {
                assert(s@.skip(p as int).len() == 0);
                Some(v)
            } else {
                assert(s@.skip(p as int).len() > 0);
                None
            }
        },
        None => None,
    }
}

} // verus!
