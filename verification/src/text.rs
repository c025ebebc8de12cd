//! Character-level string helpers: conversion between `String` and
//! character vectors, decimal numerals, joining and first-occurrence
//! replacement.
use vstd::prelude::*;

verus! {

broadcast use vstd::string::group_string_axioms;

/// The characters of `s`, in order.
pub fn chars_of(s: &str) -> (v: Vec<char>)
    ensures
        v@ == s@,
{
    let mut v: Vec<char> = Vec::new();
    for c in it: s.chars()
        invariant
            it.seq() == s@,
            v@ == it.seq().take(it.index() as int),
    {
        v.push(c);
    }
    v
}

/// `String::push` (std): appends one character.
#[verifier::external_body]
pub(crate) fn push_char(s: &mut String, c: char)
    ensures
        final(s)@ == old(s)@.push(c),
{
    s.push(c);
}

/// The string made of the characters of `v`.
pub fn string_of(v: &Vec<char>) -> (s: String)
    ensures
        s@ == v@,
{
    let mut s = String::new();
    let n = v.len();
    for i in 0..n
        invariant
            n == v@.len(),
            s@ == v@.take(i as int),
    {
        push_char(&mut s, v[i]);
        assert(v@.take(i + 1) =~= v@.take(i as int).push(v@[i as int]));
    }
    assert(v@.take(n as int) =~= v@);
    s
}


/// Whether `c` is one of the ASCII digits `0`..`9`.
pub open spec fn is_digit(c: char) -> bool {
    '0' <= c && c <= '9'
}

/// The numeric value of an ASCII digit.
pub open spec fn digit_value(c: char) -> nat {
    (c as int - '0' as int) as nat
}

/// The ASCII digit of `d` (for `d < 10`).
pub open spec fn digit_char(d: nat) -> char {
    (d + '0' as nat) as char
}

/// Whether every character of `s` is an ASCII digit.
pub open spec fn all_digits(s: Seq<char>) -> bool {
    forall|i: int| 0 <= i < s.len() ==> #[trigger] is_digit(s[i])
}

/// The number written by the decimal digits `s` (most significant first).
pub open spec fn digits_value(s: Seq<char>) -> nat
    decreases s.len(),
{
    if s.len() == 0 {
        0
    } else {
        digits_value(s.drop_last()) * 10 + digit_value(s.last())
    }
}

/// The decimal numeral of `n`: no sign, no leading zeros.
pub open spec fn decimal(n: nat) -> Seq<char>
    decreases n,
{
    if n < 10 {
        seq![digit_char(n)]
    } else {
        decimal(n / 10).push(digit_char(n % 10))
    }
}

/// Why text is not an unsigned integer (the kinds of `std::num::ParseIntError`
/// that unsigned parsing can give).
#[derive(PartialEq, Eq, Structural, Clone, Copy, Debug)]
pub enum IntErrorKind {
    Empty,
    InvalidDigit,
    PosOverflow,
}

impl IntErrorKind {
    /// The text std shows for this kind of error.
    pub fn message(&self) -> (m: String)
        ensures
            m@ == int_error_text(*self),
    {
        match self {
            IntErrorKind::Empty => String::from_str("cannot parse integer from empty string"),
            IntErrorKind::InvalidDigit => String::from_str("invalid digit found in string"),
            IntErrorKind::PosOverflow => String::from_str("number too large to fit in target type"),
        }
    }
}

/// The text std shows for each kind of integer parse error.
pub open spec fn int_error_text(k: IntErrorKind) -> Seq<char> {
    match k {
        IntErrorKind::Empty => "cannot parse integer from empty string"@,
        IntErrorKind::InvalidDigit => "invalid digit found in string"@,
        IntErrorKind::PosOverflow => "number too large to fit in target type"@,
    }
}

/// Reads the digits `t` left to right, failing at the first character that
/// is not a digit or at the first digit that takes the value above `max`.
pub open spec fn parse_digits(t: Seq<char>, max: nat) -> Result<nat, IntErrorKind>
    decreases t.len(),
{
    if t.len() == 0 {
        Ok(0)
    } else {
        match parse_digits(t.drop_last(), max) {
            Err(e) => Err(e),
            Ok(v) => if !is_digit(t.last()) {
                Err(IntErrorKind::InvalidDigit)
            } else if v * 10 + digit_value(t.last()) > max {
                Err(IntErrorKind::PosOverflow)
            } else {
                Ok(v * 10 + digit_value(t.last()))
            },
        }
    }
}

/// What parsing `s` as an unsigned integer bounded by `max` gives: an
/// optional leading `+`, then one or more ASCII digits whose value is at most
/// `max`.
pub open spec fn parse_unsigned(s: Seq<char>, max: nat) -> Result<nat, IntErrorKind> {
    if s.len() == 0 {
        Err(IntErrorKind::Empty)
    } else if s[0] == '+' && s.len() == 1 {
        Err(IntErrorKind::InvalidDigit)
    } else if s[0] == '+' {
        parse_digits(s.drop_first(), max)
    } else {
        parse_digits(s, max)
    }
}

/// Digits whose value is at most `max` are read successfully.
pub proof fn lemma_parse_digits_of_digits(t: Seq<char>, max: nat)
    requires
        all_digits(t),
        digits_value(t) <= max,
    ensures
        parse_digits(t, max) == Ok::<nat, IntErrorKind>(digits_value(t)),
    decreases t.len(),
{
    if t.len() > 0 {
        assert(all_digits(t.drop_last()));
        assert(is_digit(t[t.len() - 1]));
        lemma_parse_digits_of_digits(t.drop_last(), max);
    }
}

/// A decimal numeral is made of digits and reads back as its number.
pub proof fn lemma_decimal_digits(n: nat)
    ensures
        decimal(n).len() > 0,
        all_digits(decimal(n)),
        digits_value(decimal(n)) == n,
    decreases n,
{
    if n < 10 {
        let s = decimal(n);
        assert(s.drop_last() =~= Seq::<char>::empty());
        assert(is_digit(s[0]));
        assert(digit_value(digit_char(n)) == n);
        assert(digits_value(s.drop_last()) == 0);
        assert(s.last() == digit_char(n));
        assert(digits_value(s) == digits_value(s.drop_last()) * 10 + digit_value(s.last()));
    } else {
        lemma_decimal_digits(n / 10);
        assert(digit_value(digit_char(n % 10)) == n % 10);
        assert((n / 10) * 10 + n % 10 == n);
        let s = decimal(n);
        assert(s.drop_last() =~= decimal(n / 10));
        assert(digits_value(s) == digits_value(decimal(n / 10)) * 10 + digit_value(s.last()));
        assert forall|i: int| 0 <= i < s.len() implies #[trigger] is_digit(s[i]) by {
            if i < s.len() - 1 {
                assert(s[i] == decimal(n / 10)[i]);
            }
        }
    }
}

/// Printing a number in decimal and parsing it back gives the number.
pub proof fn lemma_parse_decimal(n: nat, max: nat)
    requires
        n <= max,
    ensures
        parse_unsigned(decimal(n), max) == Ok::<nat, IntErrorKind>(n),
{
    lemma_decimal_digits(n);
    assert(is_digit(decimal(n)[0]));
    lemma_parse_digits_of_digits(decimal(n), max);
}

/// The ASCII digit of `d`.
fn digit_of(d: usize) -> (c: char)
    requires
        d < 10,
    ensures
        c == digit_char(d as nat),
        is_digit(c),
        digit_value(c) == d,
{
    ((d as u8) + 48u8) as char
}

/// The decimal numeral of `n` (what `n.to_string()` gives).
pub fn decimal_string(n: usize) -> (s: String)
    ensures
        s@ == decimal(n as nat),
    decreases n,
{
    if n < 10 {
        let mut s = String::new();
        push_char(&mut s, digit_of(n));
        assert(s@ =~= seq![digit_char(n as nat)]);
        s
    } else {
        let mut s = decimal_string(n / 10);
        push_char(&mut s, digit_of(n % 10));
        s
    }
}

/// Parses `v[start..]` as an unsigned integer of at most `max` (as
/// `str::parse` does for unsigned integer types).
pub fn parse_unsigned_at(v: &Vec<char>, start: usize, max: usize) -> (r: Result<usize, IntErrorKind>)
    requires
        start <= v@.len(),
    ensures
        r == (match parse_unsigned(v@.skip(start as int), max as nat) {
            Ok(x) => Ok(x as usize),
            Err(e) => Err::<usize, IntErrorKind>(e),
        }),
{
    let ghost s = v@.skip(start as int);
    let n = v.len();
    if start == n {
        return Err(IntErrorKind::Empty);
    }
    let mut i = start;
    if v[i] == '+' {
        if i + 1 == n {
            return Err(IntErrorKind::InvalidDigit);
        }
        i = i + 1;
    }
    let first = i;
    let ghost t = v@.skip(first as int);
    proof {
        assert(s.len() > 0 && s[0] == v@[start as int]);
        if s[0] == '+' {
            assert(t =~= s.drop_first());
        } else {
            assert(t =~= s);
        }
    }
    let mut val: usize = 0;
    proof {
        assert(t.take(0) =~= Seq::<char>::empty());
    }
    while i < n
        invariant
            first <= i <= n == v@.len(),
            t =~= v@.skip(first as int),
            parse_unsigned(v@.skip(start as int), max as nat) == parse_digits(t, max as nat),
            parse_digits(t.take(i - first), max as nat) == Ok::<nat, IntErrorKind>(val as nat),
            val <= max,
        decreases n - i,
    {
        let c = v[i];
        let ghost p = t.take(i + 1 - first);
        proof {
            assert(p.drop_last() =~= t.take(i - first));
            assert(p.last() == c);
            lemma_parse_digits_prefix_err(t, i + 1 - first, max as nat);
        }
        if !('0' <= c && c <= '9') {
            assert(parse_digits(p, max as nat) == Err::<nat, IntErrorKind>(IntErrorKind::InvalidDigit));
            return Err(IntErrorKind::InvalidDigit);
        }
        let d = ((c as u32) - 48) as usize;
        if d > max || val > (max - d) / 10 {
            proof {
                assert(val * 10 + d > max) by (nonlinear_arith)
                    requires
                        d > max || val > (max - d) / 10,
                        d <= 9,
                ;
                assert(digit_value(c) == d);
                assert(parse_digits(p, max as nat) == Err::<nat, IntErrorKind>(IntErrorKind::PosOverflow));
            }
            return Err(IntErrorKind::PosOverflow);
        }
        proof {
            assert(val * 10 + d <= max) by (nonlinear_arith)
                requires
                    val <= (max - d) / 10,
                    d <= max,
            ;
        }
        proof {
            assert(digit_value(c) == d);
        }
        val = val * 10 + d;
        i = i + 1;
    }
    proof {
        assert(t.take(n - first) =~= t);
    }
    Ok(val)
}

/// Once reading a prefix of the digits fails, reading all of them fails the
/// same way.
pub proof fn lemma_parse_digits_prefix_err(t: Seq<char>, k: int, max: nat)
    requires
        0 <= k <= t.len(),
    ensures
        parse_digits(t.take(k), max) is Err ==> parse_digits(t, max) == parse_digits(t.take(k), max),
    decreases t.len() - k,
{
    if k < t.len() {
        lemma_parse_digits_prefix_err(t, k + 1, max);
        assert(t.take(k + 1).drop_last() =~= t.take(k));
    } else {
        assert(t.take(k) =~= t);
    }
}

} // verus!
