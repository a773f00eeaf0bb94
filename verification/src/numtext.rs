//! Decimal numbers as text: writing them, and reading them back with the
//! rules of the standard library's integer parsing.

use vstd::prelude::*;

verus! {

/// The digit character for `d` (taken modulo 10).
pub open spec fn digit_char(d: nat) -> char {
    let d = d % 10;
    if d == 0 {
        '0'
    } else if d == 1 {
        '1'
    } else if d == 2 {
        '2'
    } else if d == 3 {
        '3'
    } else if d == 4 {
        '4'
    } else if d == 5 {
        '5'
    } else if d == 6 {
        '6'
    } else if d == 7 {
        '7'
    } else if d == 8 {
        '8'
    } else {
        '9'
    }
}

/// Whether `c` is an ASCII decimal digit.
pub open spec fn is_digit(c: char) -> bool {
    '0' <= c && c <= '9'
}

/// The value of the digit character `c`.
pub open spec fn digit_value(c: char) -> nat {
    (c as nat - '0' as nat) as nat
}

/// `n` written in decimal, without leading zeros.
pub open spec fn decimal(n: nat) -> Seq<char>
    decreases n,
{
    if n < 10 {
        seq![digit_char(n)]
    } else {
        decimal(n / 10).push(digit_char(n % 10))
    }
}

/// The value of a run of digit characters, read in decimal (0 for none).
pub open spec fn digits_value(s: Seq<char>) -> nat
    decreases s.len(),
{
    if s.len() == 0 {
        0
    } else {
        digits_value(s.drop_last()) * 10 + digit_value(s.last())
    }
}

/// Every character of `s` is a decimal digit.
pub open spec fn all_digits(s: Seq<char>) -> bool {
    forall|i: int| 0 <= i < s.len() ==> is_digit(#[trigger] s[i])
}

/// An unsigned 32-bit integer read from `s` as the standard library does:
/// an optional `+`, then one or more digits, with a value that fits.
pub open spec fn parse_u32(s: Seq<char>) -> Option<u32> {
    let body = if s.len() > 0 && s[0] == '+' { s.drop_first() } else { s };
    if body.len() == 0 || !all_digits(body) || digits_value(body) > u32::MAX {
        None
    } else {
        Some(digits_value(body) as u32)
    }
}

/// A signed 8-bit integer read from `s` as the standard library does: an
/// optional `+` or `-`, then one or more digits, with a value that fits.
pub open spec fn parse_i8(s: Seq<char>) -> Option<i8> {
    if s.len() > 0 && s[0] == '-' {
        let body = s.drop_first();
        if body.len() == 0 || !all_digits(body) || digits_value(body) > 128 {
            None
        } else {
            Some((-(digits_value(body) as int)) as i8)
        }
    } else {
        let body = if s.len() > 0 && s[0] == '+' { s.drop_first() } else { s };
        if body.len() == 0 || !all_digits(body) || digits_value(body) > 127 {
            None
        } else {
            Some(digits_value(body) as i8)
        }
    }
}

/// `n` written in decimal, with a leading `-` when negative.
pub open spec fn signed_decimal(n: int) -> Seq<char> {
    if n < 0 {
        seq!['-'] + decimal((-n) as nat)
    } else {
        decimal(n as nat)
    }
}

fn digit_of(d: u32) -> (c: char)
    requires
        d < 10,
    ensures
        c == digit_char(d as nat),
        is_digit(c),
        digit_value(c) == d,
{
    if d == 0 {
        '0'
    } else if d == 1 {
        '1'
    } else if d == 2 {
        '2'
    } else if d == 3 {
        '3'
    } else if d == 4 {
        '4'
    } else if d == 5 {
        '5'
    } else if d == 6 {
        '6'
    } else if d == 7 {
        '7'
    } else if d == 8 {
        '8'
    } else {
        '9'
    }
}

/// Append `n` written in decimal to `out`.
pub fn push_decimal(out: &mut Vec<char>, n: u32)
    ensures
        final(out)@ == old(out)@ + decimal(n as nat),
    decreases n,
{
    if n >= 10 {
        push_decimal(out, n / 10);
    }
    out.push(digit_of(n % 10));
    assert(final(out)@ =~= old(out)@ + decimal(n as nat));
}

/// Append `n` written in decimal, with a leading `-` when negative, to `out`.
pub fn push_signed_decimal(out: &mut Vec<char>, n: i8)
    ensures
        final(out)@ == old(out)@ + signed_decimal(n as int),
{
    if n < 0 {
        out.push('-');
        let m: u32 = (-(n as i32)) as u32;
        push_decimal(out, m);
        assert(final(out)@ =~= old(out)@ + signed_decimal(n as int));
    } else {
        push_decimal(out, n as u32);
    }
}

proof fn lemma_digit_char_value(d: nat)
    requires
        d < 10,
    ensures
        is_digit(digit_char(d)),
        digit_value(digit_char(d)) == d,
{
}

/// The decimal text of a number consists of digits and reads back as it.
pub proof fn lemma_decimal_roundtrip(n: nat)
    ensures
        decimal(n).len() > 0,
        all_digits(decimal(n)),
        digits_value(decimal(n)) == n,
    decreases n,
{
    lemma_digit_char_value(n % 10);
    if n >= 10 {
        lemma_decimal_roundtrip(n / 10);
        let s = decimal(n);
        assert(s.drop_last() =~= decimal(n / 10));
        assert(digits_value(s) == digits_value(decimal(n / 10)) * 10 + digit_value(s.last()));
        assert(n == (n / 10) * 10 + n % 10);
    } else {
        let s = decimal(n);
        assert(s.drop_last() =~= Seq::<char>::empty());
        assert(digits_value(s) == digits_value(s.drop_last()) * 10 + digit_value(s.last()));
        assert forall|i: int| 0 <= i < s.len() implies is_digit(#[trigger] s[i]) by {
            if i < s.len() - 1 {
                assert(s[i] == decimal(n / 10)[i]);
            }
        }
    }
}

/// The decimal text of a `u32` reads back as it.
pub proof fn lemma_parse_u32_decimal(n: u32)
    ensures
        parse_u32(decimal(n as nat)) == Some(n),
{
    lemma_decimal_roundtrip(n as nat);
    let s = decimal(n as nat);
    assert(s[0] != '+');
}

/// The value of `s.take(i + 1)` extends that of `s.take(i)` by one digit.
proof fn lemma_digits_step(s: Seq<char>, i: int)
    requires
        0 <= i < s.len(),
    ensures
        digits_value(s.take(i + 1)) == digits_value(s.take(i)) * 10 + digit_value(s[i]),
{
    assert(s.take(i + 1).drop_last() =~= s.take(i));
}

/// Read an unsigned 32-bit integer from `s[start..end]` as the standard
/// library does (see [`parse_u32`]).
pub fn parse_u32_at(s: &Vec<char>, start: usize, end: usize) -> (r: Option<u32>)
    requires
        start <= end <= s@.len(),
    ensures
        r == parse_u32(s@.subrange(start as int, end as int)),
{
    let ghost whole = s@.subrange(start as int, end as int);
    let mut i = start;
    if i < end && s[i] == '+' {
        i = i + 1;
    }
    let ghost body = s@.subrange(i as int, end as int);
    assert(body =~= (if whole.len() > 0 && whole[0] == '+' { whole.drop_first() } else { whole }));
    if i == end {
        return None;
    }
    let body_start = i;
    let mut value: u64 = 0;
    while i < end
        invariant
            body_start <= i <= end,
            start <= body_start,
            end <= s@.len(),
            whole == s@.subrange(start as int, end as int),
            body == s@.subrange(body_start as int, end as int),
            body == (if whole.len() > 0 && whole[0] == '+' { whole.drop_first() } else { whole }),
            body.len() > 0,
            all_digits(s@.subrange(body_start as int, i as int)),
            value == digits_value(s@.subrange(body_start as int, i as int)),
            value <= u32::MAX,
        decreases end - i,
    {
        let c = s[i];
        proof { lemma_digits_step(body, i - body_start); }
        assert(body.take(i - body_start) =~= s@.subrange(body_start as int, i as int));
        assert(body.take(i - body_start + 1) =~= s@.subrange(body_start as int, i as int + 1));
        if !('0' <= c && c <= '9') {
            assert(!all_digits(body));
            return None;
        }
        value = value * 10 + (c as u64 - '0' as u64);
        if value > u32::MAX as u64 {
            proof { lemma_digits_prefix_bound(body, i - body_start + 1); }
            return None;
        }
        i = i + 1;
    }
    assert(s@.subrange(body_start as int, end as int) =~= body);
    Some(value as u32)
}

/// A run of digits is worth at least as much as any of its prefixes.
pub proof fn lemma_digits_prefix_bound(s: Seq<char>, n: int)
    requires
        0 <= n <= s.len(),
    ensures
        digits_value(s.take(n)) <= digits_value(s) || !all_digits(s),
    decreases s.len() - n,
{
    if n < s.len() {
        lemma_digits_prefix_bound(s, n + 1);
        lemma_digits_step(s, n);
    } else {
        assert(s.take(n) =~= s);
    }
}

/// The value of `s[start..end]` as a run of digits, where it is a non-empty
/// one worth at most `cap`.
pub fn bounded_digits(s: &Vec<char>, start: usize, end: usize, cap: u32) -> (r: Option<u32>)
    requires
        start <= end <= s@.len(),
    ensures
        r == (if start < end && all_digits(s@.subrange(start as int, end as int)) && digits_value(
            s@.subrange(start as int, end as int),
        ) <= cap {
            Some(digits_value(s@.subrange(start as int, end as int)) as u32)
        } else {
            None::<u32>
        }),
{
    let ghost body = s@.subrange(start as int, end as int);
    if start == end {
        return None;
    }
    let mut i = start;
    let mut value: u64 = 0;
    while i < end
        invariant
            start <= i <= end,
            end <= s@.len(),
            body == s@.subrange(start as int, end as int),
            all_digits(s@.subrange(start as int, i as int)),
            value == digits_value(s@.subrange(start as int, i as int)),
            value <= cap,
        decreases end - i,
    {
        let c = s[i];
        proof { lemma_digits_step(body, i - start); }
        assert(body.take(i - start) =~= s@.subrange(start as int, i as int));
        assert(body.take(i - start + 1) =~= s@.subrange(start as int, i as int + 1));
        if !('0' <= c && c <= '9') {
            assert(!all_digits(body));
            return None;
        }
        value = value * 10 + (c as u64 - '0' as u64);
        if value > cap as u64 {
            proof { lemma_digits_prefix_bound(body, i - start + 1); }
            return None;
        }
        i = i + 1;
    }
    Some(value as u32)
}

/// Read a signed 8-bit integer from `s[start..end]` as the standard library
/// does (see [`parse_i8`]).
pub fn parse_i8_at(s: &Vec<char>, start: usize, end: usize) -> (r: Option<i8>)
    requires
        start <= end <= s@.len(),
    ensures
        r == parse_i8(s@.subrange(start as int, end as int)),
{
    let ghost whole = s@.subrange(start as int, end as int);
    if start < end && s[start] == '-' {
        assert(whole.drop_first() =~= s@.subrange(start as int + 1, end as int));
        match bounded_digits(s, start + 1, end, 128) {
            Some(v) => Some((0 - v as i16) as i8),
            None => None,
        }
    } else if start < end && s[start] == '+' {
        assert(whole.drop_first() =~= s@.subrange(start as int + 1, end as int));
        match bounded_digits(s, start + 1, end, 127) {
            Some(v) => Some(v as i8),
            None => None,
        }
    } else {
        match bounded_digits(s, start, end, 127) {
            Some(v) => Some(v as i8),
            None => None,
        }
    }
}

/// The characters of `s`, in order.
pub fn chars_of(s: &str) -> (v: Vec<char>)
    ensures
        v@ == s@,
{
    broadcast use vstd::string::axiom_spec_iter;
    let mut v: Vec<char> = Vec::new();
    for c in it: s.chars()
        invariant
            v@ == it.seq().take(it.index()),
    {
        v.push(c);
    }
    v
}


/// The text of `cs`, collected with the standard library's
/// `String::from_iter`: the string holds the same characters in order.
#[verifier::external_body]
pub(crate) fn string_from_chars(cs: &Vec<char>) -> (s: String)
    ensures
        s@ == cs@,
{
    String::from_iter(cs)
}

} // verus!
