//! Decimal numbers: reading them as std's `from_str_radix(_, 10)` does, and writing them.
use vstd::prelude::*;
use crate::text::{chars_of, push_char};

verus! {

/// Why a number could not be read; the kinds of std's `ParseIntError`.
#[derive(Clone, Copy, Debug, PartialEq, Eq, Structural)]
pub enum IntErrorKind {
    Empty,
    InvalidDigit,
    PosOverflow,
    NegOverflow,
}

impl IntErrorKind {
    /// The text std's `ParseIntError` displays for this kind.
    pub fn message(&self) -> (s: String)
        ensures
            s@ == int_error_message(*self),
    {
        match self {
            IntErrorKind::Empty => String::from_str("cannot parse integer from empty string"),
            IntErrorKind::InvalidDigit => String::from_str("invalid digit found in string"),
            IntErrorKind::PosOverflow => String::from_str("number too large to fit in target type"),
            IntErrorKind::NegOverflow => String::from_str("number too small to fit in target type"),
        }
    }
}

/// The text displayed for each kind of error.
pub open spec fn int_error_message(e: IntErrorKind) -> Seq<char> {
    match e {
        IntErrorKind::Empty => "cannot parse integer from empty string"@,
        IntErrorKind::InvalidDigit => "invalid digit found in string"@,
        IntErrorKind::PosOverflow => "number too large to fit in target type"@,
        IntErrorKind::NegOverflow => "number too small to fit in target type"@,
    }
}

pub open spec fn is_digit(c: char) -> bool {
    '0' <= c <= '9'
}

pub open spec fn digit_value(c: char) -> int {
    c as int - '0' as int
}

/// Reads decimal digits onto `acc`, stopping at the first character that is no digit or the
/// first digit that takes the value above `max`.
pub open spec fn scan_up(ds: Seq<char>, acc: int, max: int) -> Result<int, IntErrorKind>
    decreases ds.len(),
{
    if ds.len() == 0 {
        Ok(acc)
    } else if !is_digit(ds[0]) {
        Err(IntErrorKind::InvalidDigit)
    } else if acc * 10 + digit_value(ds[0]) > max {
        Err(IntErrorKind::PosOverflow)
    } else {
        scan_up(ds.drop_first(), acc * 10 + digit_value(ds[0]), max)
    }
}

/// As `scan_up`, for a negative number: each digit is subtracted, bounded below by `min`.
pub open spec fn scan_down(ds: Seq<char>, acc: int, min: int) -> Result<int, IntErrorKind>
    decreases ds.len(),
{
    if ds.len() == 0 {
        Ok(acc)
    } else if !is_digit(ds[0]) {
        Err(IntErrorKind::InvalidDigit)
    } else if acc * 10 - digit_value(ds[0]) < min {
        Err(IntErrorKind::NegOverflow)
    } else {
        scan_down(ds.drop_first(), acc * 10 - digit_value(ds[0]), min)
    }
}

/// What `from_str_radix(s, 10)` gives for an unsigned type whose largest value is `max`.
pub open spec fn parse_unsigned(s: Seq<char>, max: int) -> Result<int, IntErrorKind> {
    if s.len() == 0 {
        Err(IntErrorKind::Empty)
    } else if s.len() == 1 && (s[0] == '+' || s[0] == '-') {
        Err(IntErrorKind::InvalidDigit)
    } else if s[0] == '+' {
        scan_up(s.drop_first(), 0, max)
    } else {
        scan_up(s, 0, max)
    }
}

/// What `from_str_radix(s, 10)` gives for a signed type with range `min..=max`.
pub open spec fn parse_signed(s: Seq<char>, min: int, max: int) -> Result<int, IntErrorKind> {
    if s.len() == 0 {
        Err(IntErrorKind::Empty)
    } else if s.len() == 1 && (s[0] == '+' || s[0] == '-') {
        Err(IntErrorKind::InvalidDigit)
    } else if s[0] == '+' {
        scan_up(s.drop_first(), 0, max)
    } else if s[0] == '-' {
        scan_down(s.drop_first(), 0, min)
    } else {
        scan_up(s, 0, max)
    }
}

proof fn lemma_scan_up_bounds(ds: Seq<char>, acc: int, max: int)
    requires
        0 <= acc <= max,
    ensures
        scan_up(ds, acc, max) matches Ok(v) ==> 0 <= v <= max,
    decreases ds.len(),
{
    if ds.len() > 0 && is_digit(ds[0]) && acc * 10 + digit_value(ds[0]) <= max {
        lemma_scan_up_bounds(ds.drop_first(), acc * 10 + digit_value(ds[0]), max);
    }
}

/// Reads the digits `cs[i..]` onto `acc` as `scan_up` does, for values up to `u128::MAX`
/// bounded by `max`.
fn scan_up_exec(cs: &Vec<char>, start: usize, max: u128) -> (r: Result<u128, IntErrorKind>)
    requires
        start <= cs.len(),
        max >= 9,
    ensures
        match scan_up(cs@.skip(start as int), 0, max as int) {
            Ok(v) => r == Ok::<u128, IntErrorKind>(v as u128),
            Err(e) => r == Err::<u128, IntErrorKind>(e),
        },
        scan_up(cs@.skip(start as int), 0, max as int) matches Ok(v) ==> 0 <= v <= max,
{
    let mut acc: u128 = 0;
    let mut i = start;
    proof {
        lemma_scan_up_bounds(cs@.skip(start as int), 0, max as int);
    }
    while i < cs.len()
        invariant
            start <= i <= cs.len(),
            max >= 9,
            acc <= max,
            scan_up(cs@.skip(start as int), 0, max as int) == scan_up(
                cs@.skip(i as int),
                acc as int,
                max as int,
            ),
        decreases cs.len() - i,
    {
        let c = cs[i];
        let ghost rest = cs@.skip(i as int);
        assert(rest[0] == c);
        assert(rest.drop_first() =~= cs@.skip(i + 1));
        if !('0' <= c && c <= '9') {
            return Err(IntErrorKind::InvalidDigit);
        }
        let d = (c as u32 - '0' as u32) as u128;
        assert(d == digit_value(c));
        if acc > (max - d) / 10 {
            assert(acc * 10 + d > max) by (nonlinear_arith)
                requires
                    acc > (max - d) / 10,
                    d <= 9,
                    max >= 9,
            ;
            return Err(IntErrorKind::PosOverflow);
        }
        assert(acc * 10 + d <= max) by (nonlinear_arith)
            requires
                acc <= (max - d) / 10,
                d <= 9,
                max >= 9,
        ;
        acc = acc * 10 + d;
        i = i + 1;
    }
    assert(cs@.skip(i as int).len() == 0);
    Ok(acc)
}

proof fn lemma_scan_down_mirror(ds: Seq<char>, a: int, bound: int)
    ensures
        scan_down(ds, -a, -bound) == match scan_up(ds, a, bound) {
            Ok(v) => Ok::<int, IntErrorKind>(-v),
            Err(IntErrorKind::PosOverflow) => Err(IntErrorKind::NegOverflow),
            Err(e) => Err(e),
        },
    decreases ds.len(),
{
    if ds.len() > 0 && is_digit(ds[0]) {
        assert((-a) * 10 - digit_value(ds[0]) == -(a * 10 + digit_value(ds[0])));
        lemma_scan_down_mirror(ds.drop_first(), a * 10 + digit_value(ds[0]), bound);
    }
}

/// Reads `s` as a `usize`, as `usize::from_str_radix(s, 10)` does.
pub fn parse_usize(s: &str) -> (r: Result<usize, IntErrorKind>)
    ensures
        match parse_unsigned(s@, usize::MAX as int) {
            Ok(v) => r == Ok::<usize, IntErrorKind>(v as usize),
            Err(e) => r == Err::<usize, IntErrorKind>(e),
        },
        parse_unsigned(s@, usize::MAX as int) matches Ok(v) ==> 0 <= v <= usize::MAX,
{
    let cs = chars_of(s);
    let n = cs.len();
    if n == 0 {
        return Err(IntErrorKind::Empty);
    }
    if n == 1 && (cs[0] == '+' || cs[0] == '-') {
        return Err(IntErrorKind::InvalidDigit);
    }
    let start: usize = if cs[0] == '+' { 1 } else { 0 };
    proof {
        if start == 1 {
            assert(cs@.skip(1) =~= s@.drop_first());
        } else {
            assert(cs@.skip(0) =~= s@);
        }
    }
    match scan_up_exec(&cs, start, usize::MAX as u128) {
        Ok(v) => Ok(v as usize),
        Err(e) => Err(e),
    }
}

/// Reads `s` as an `i128`, as `i128::from_str_radix(s, 10)` (and so `str::parse`) does.
pub fn parse_i128(s: &str) -> (r: Result<i128, IntErrorKind>)
    ensures
        match parse_signed(s@, i128::MIN as int, i128::MAX as int) {
            Ok(v) => r == Ok::<i128, IntErrorKind>(v as i128),
            Err(e) => r == Err::<i128, IntErrorKind>(e),
        },
        parse_signed(s@, i128::MIN as int, i128::MAX as int) matches Ok(v) ==> i128::MIN <= v
            <= i128::MAX,
{
    let cs = chars_of(s);
    let n = cs.len();
    if n == 0 {
        return Err(IntErrorKind::Empty);
    }
    if n == 1 && (cs[0] == '+' || cs[0] == '-') {
        return Err(IntErrorKind::InvalidDigit);
    }
    if cs[0] == '-' {
        proof {
            assert(cs@.skip(1) =~= s@.drop_first());
            lemma_scan_down_mirror(s@.drop_first(), 0, 0x8000_0000_0000_0000_0000_0000_0000_0000);
        }
        match scan_up_exec(&cs, 1, 0x8000_0000_0000_0000_0000_0000_0000_0000u128) {
            Ok(v) => {
                if v == 0x8000_0000_0000_0000_0000_0000_0000_0000u128 {
                    Ok(i128::MIN)
                } else {
                    Ok(-(v as i128))
                }
            },
            Err(IntErrorKind::PosOverflow) => Err(IntErrorKind::NegOverflow),
            Err(e) => Err(e),
        }
    } else {
        let start: usize = if cs[0] == '+' { 1 } else { 0 };
        proof {
            if start == 1 {
                assert(cs@.skip(1) =~= s@.drop_first());
            } else {
                assert(cs@.skip(0) =~= s@);
            }
        }
        match scan_up_exec(&cs, start, i128::MAX as u128) {
            Ok(v) => Ok(v as i128),
            Err(e) => Err(e),
        }
    }
}

// ---------------------------------------------------------------------------------------------
// Writing numbers
/// The character of a decimal digit.
pub open spec fn digit_char(d: int) -> char {
    (d + '0' as int) as char
}

/// The decimal digits of `n`, most significant first, without leading zeros.
pub open spec fn decimal(n: nat) -> Seq<char>
    decreases n,
{
    if n < 10 {
        seq![digit_char(n as int)]
    } else {
        decimal(n / 10).push(digit_char((n % 10) as int))
    }
}

/// The text `Display` gives an integer: its decimal digits, after `'-'` when negative.
pub open spec fn signed_decimal(n: int) -> Seq<char> {
    if n < 0 {
        seq!['-'] + decimal((-n) as nat)
    } else {
        decimal(n as nat)
    }
}

fn digit_to_char(d: u128) -> (c: char)
    requires
        d < 10,
    ensures
        c == digit_char(d as int),
{
    if d == 0 { '0' }
    else if d == 1 { '1' }
    else if d == 2 { '2' }
    else if d == 3 { '3' }
    else if d == 4 { '4' }
    else if d == 5 { '5' }
    else if d == 6 { '6' }
    else if d == 7 { '7' }
    else if d == 8 { '8' }
    else { '9' }
}

/// Appends the decimal digits of `n` to `s`.
pub fn push_decimal(s: &mut String, n: u128)
    ensures
        final(s)@ == old(s)@ + decimal(n as nat),
{
    let mut rev: Vec<char> = Vec::new();
    let mut m = n;
    while m >= 10
        invariant
            decimal(n as nat) == decimal(m as nat) + rev@.reverse(),
        decreases m,
    {
        let d = m % 10;
        let c = digit_to_char(d);
        proof {
            assert(rev@.push(c).reverse() =~= seq![c] + rev@.reverse());
            assert(decimal(m as nat) == decimal((m / 10) as nat).push(c));
            assert(decimal((m / 10) as nat).push(c) + rev@.reverse() =~= decimal((m / 10) as nat)
                + (seq![c] + rev@.reverse()));
        }
        rev.push(c);
        m = m / 10;
    }
    let c = digit_to_char(m);
    proof {
        assert(rev@.push(c).reverse() =~= seq![c] + rev@.reverse());
    }
    rev.push(c);
    let ghost start = s@;
    let mut i = rev.len();
    while i > 0
        invariant
            i <= rev@.len(),
            rev@.reverse() == decimal(n as nat),
            s@ == start + rev@.reverse().subrange(0, rev@.len() - i),
        decreases i,
    {
        i = i - 1;
        push_char(s, rev[i]);
        assert(s@ =~= start + rev@.reverse().subrange(0, rev@.len() - i));
    }
    assert(rev@.reverse().subrange(0, rev@.len() as int) =~= decimal(n as nat));
}

/// The text `Display` gives `n`.
pub fn fmt_i128(n: i128) -> (s: String)
    ensures
        s@ == signed_decimal(n as int),
{
    let mut s = String::new();
    if n < 0 {
        push_char(&mut s, '-');
        let m: u128 = if n == i128::MIN {
            0x8000_0000_0000_0000_0000_0000_0000_0000u128
        } else {
            (-n) as u128
        };
        push_decimal(&mut s, m);
    } else {
        push_decimal(&mut s, n as u128);
    }
    s
}

} // verus!
