//! Decimal numbers in text: the parsing that `str::parse` performs for `u8`
//! and `i32`, and the formatting that `{}` performs for unsigned and signed
//! integers.

use vstd::prelude::*;

verus! {

/// An ASCII decimal digit.
pub open spec fn is_digit(c: char) -> bool {
    '0' <= c && c <= '9'
}

/// The value of the digit `c`.
pub open spec fn digit_value(c: char) -> int {
    c as int - '0' as int
}

/// Every character of `s` is a digit.
pub open spec fn all_digits(s: Seq<char>) -> bool {
    forall|i: int| 0 <= i < s.len() ==> is_digit(#[trigger] s[i])
}

/// The number that the digits `s` denote.
pub open spec fn digits_value(s: Seq<char>) -> int
    decreases s.len(),
{
    if s.len() == 0 {
        0
    } else {
        digits_value(s.drop_last()) * 10 + digit_value(s.last())
    }
}

/// `str::parse` for an unsigned integer type whose largest value is `max`:
/// an optional `+`, then one or more digits denoting at most `max`.
pub open spec fn parse_unsigned_spec(s: Seq<char>, max: int) -> Option<int> {
    let ds = if s.len() > 0 && s[0] == '+' {
        s.drop_first()
    } else {
        s
    };
    if ds.len() > 0 && all_digits(ds) && digits_value(ds) <= max {
        Some(digits_value(ds))
    } else {
        None
    }
}

/// `str::parse::<i32>`: an optional `+` or `-`, then one or more digits whose
/// signed value lies in the range of `i32`.
pub open spec fn parse_i32_spec(s: Seq<char>) -> Option<int> {
    if s.len() > 0 && s[0] == '-' {
        let ds = s.drop_first();
        if ds.len() > 0 && all_digits(ds) && digits_value(ds) <= 0x8000_0000 {
            Some(-digits_value(ds))
        } else {
            None
        }
    } else {
        parse_unsigned_spec(s, 0x7fff_ffff)
    }
}

/// The character of the digit `d`.
pub open spec fn digit_char(d: int) -> char {
    ('0' as int + d) as char
}

/// The decimal text of `n` (`{}` of an unsigned integer).
pub open spec fn decimal(n: nat) -> Seq<char>
    decreases n,
{
    if n < 10 {
        seq![digit_char(n as int)]
    } else {
        decimal(n / 10).push(digit_char((n % 10) as int))
    }
}

/// The decimal text of `i` (`{}` of a signed integer).
pub open spec fn signed_decimal(i: int) -> Seq<char> {
    if i < 0 {
        seq!['-'] + decimal((-i) as nat)
    } else {
        decimal(i as nat)
    }
}

/// The decimal texts of the bytes `v`, in order.
pub open spec fn decimal_texts(v: Seq<u8>) -> Seq<Seq<char>> {
    Seq::new(v.len(), |i: int| decimal(v[i] as nat))
}

/// Values of digit strings grow with their length.
pub proof fn lemma_digits_value_prefix(s: Seq<char>, k: int)
    requires
        all_digits(s),
        0 <= k <= s.len(),
    ensures
        0 <= digits_value(s.take(k)) <= digits_value(s),
    decreases s.len(),
{
    if s.len() > 0 {
        assert(all_digits(s.drop_last()));
        if k == s.len() {
            assert(s.take(k) =~= s);
            lemma_digits_value_prefix(s.drop_last(), k - 1);
            assert(s.drop_last().take(k - 1) =~= s.drop_last());
        } else {
            lemma_digits_value_prefix(s.drop_last(), k);
            assert(s.drop_last().take(k) =~= s.take(k));
            lemma_digits_value_prefix(s.drop_last(), s.len() - 1);
            assert(s.drop_last().take(s.len() - 1) =~= s.drop_last());
        }
    } else {
        assert(s.take(k) =~= s);
    }
}

/// Reads the digits of `s` from character position `start` to the end,
/// as long as they denote at most `max`.
fn parse_digits(s: &str, start: usize, max: u64) -> (res: Option<u64>)
    requires
        start <= s@.len(),
        9 <= max <= 0x1_0000_0000,
    ensures
        ({
            let ds = s@.skip(start as int);
            match res {
                Some(v) => ds.len() > 0 && all_digits(ds) && digits_value(ds) <= max && v
                    == digits_value(ds),
                None => !(ds.len() > 0 && all_digits(ds) && digits_value(ds) <= max),
            }
        }),
{
    let n = s.unicode_len();
    let ghost ds = s@.skip(start as int);
    if start == n {
        return None;
    }
    let mut v: u64 = 0;
    let mut i: usize = start;
    while i < n
        invariant
            n == s@.len(),
            start <= i <= n,
            ds == s@.skip(start as int),
            9 <= max <= 0x1_0000_0000,
            all_digits(ds.take(i - start)),
            v == digits_value(ds.take(i - start)),
            v <= max,
        decreases n - i,
    {
        let c = s.get_char(i);
        proof {
            assert(ds[i - start] == c);
        }
        if !('0' <= c && c <= '9') {
            return None;
        }
        let d = (c as u32 - '0' as u32) as u64;
        proof {
            assert(ds.take(i + 1 - start).drop_last() =~= ds.take(i - start));
            assert(all_digits(ds.take(i + 1 - start)));
        }
        if v > (max - d) / 10 {
            proof {
                assert(v * 10 + d > max) by (nonlinear_arith)
                    requires
                        v > (max - d) / 10,
                        d <= 9,
                        9 <= max,
                ;
                if all_digits(ds) {
                    lemma_digits_value_prefix(ds, i + 1 - start);
                }
            }
            return None;
        }
        proof {
            assert(v * 10 + d <= max) by (nonlinear_arith)
                requires
                    v <= (max - d) / 10,
                    d <= 9,
                    9 <= max,
            ;
        }
        v = v * 10 + d;
        i = i + 1;
    }
    proof {
        assert(ds.take(i - start) =~= ds);
    }
    Some(v)
}

/// Why text is not an integer, as `std::num::IntErrorKind` classifies it.
#[derive(Clone, Copy, Debug, PartialEq, Eq, Structural)]
pub enum IntErrorKind {
    /// The text is empty.
    Empty,
    /// The text holds a character that is not a digit where one is required.
    InvalidDigit,
    /// The number is too large for the type.
    PosOverflow,
}

/// The error of a failed integer parse (`std::num::ParseIntError`).
#[derive(Clone, Copy, Debug, PartialEq, Eq, Structural)]
pub struct ParseIntError {
    pub kind: IntErrorKind,
}

impl ParseIntError {
    /// The message that `std::num::ParseIntError` displays for this error.
    pub fn message(&self) -> (res: &'static str)
        ensures
            res@ == error_message(self.kind),
    {
        match self.kind {
            IntErrorKind::Empty => "cannot parse integer from empty string",
            IntErrorKind::InvalidDigit => "invalid digit found in string",
            IntErrorKind::PosOverflow => "number too large to fit in target type",
        }
    }
}

/// The message displayed for an error of kind `kind`.
pub open spec fn error_message(kind: IntErrorKind) -> Seq<char> {
    match kind {
        IntErrorKind::Empty => "cannot parse integer from empty string"@,
        IntErrorKind::InvalidDigit => "invalid digit found in string"@,
        IntErrorKind::PosOverflow => "number too large to fit in target type"@,
    }
}

/// The value of the digits `ds` read from left to right after `acc`.
pub open spec fn value_from(acc: int, ds: Seq<char>) -> int
    decreases ds.len(),
{
    if ds.len() == 0 {
        acc
    } else {
        value_from(acc * 10 + digit_value(ds[0]), ds.drop_first())
    }
}

/// Reading the digits `ds` from left to right after `acc`, as the standard
/// library does for an unsigned type whose largest value is `max`: each
/// character is first checked to be a digit, then the running value to stay
/// within `max`.
pub open spec fn scan_digits(ds: Seq<char>, acc: int, max: int) -> Result<int, IntErrorKind>
    decreases ds.len(),
{
    if ds.len() == 0 {
        Ok(acc)
    } else if !is_digit(ds[0]) {
        Err(IntErrorKind::InvalidDigit)
    } else if acc * 10 + digit_value(ds[0]) > max {
        Err(IntErrorKind::PosOverflow)
    } else {
        scan_digits(ds.drop_first(), acc * 10 + digit_value(ds[0]), max)
    }
}

/// `s.parse::<u8>()`: an optional `+`, then digits whose value is at most 255.
pub open spec fn parse_u8_spec(s: Seq<char>) -> Result<int, IntErrorKind> {
    if s.len() == 0 {
        Err(IntErrorKind::Empty)
    } else if s.len() == 1 && (s[0] == '+' || s[0] == '-') {
        Err(IntErrorKind::InvalidDigit)
    } else if s[0] == '+' {
        scan_digits(s.drop_first(), 0, 255)
    } else {
        scan_digits(s, 0, 255)
    }
}

/// `s.parse::<u8>()`.
pub fn parse_u8(s: &str) -> (res: Result<u8, ParseIntError>)
    ensures
        match res {
            Ok(v) => parse_u8_spec(s@) == Ok::<int, IntErrorKind>(v as int),
            Err(e) => parse_u8_spec(s@) == Err::<int, IntErrorKind>(e.kind),
        },
{
    let n = s.unicode_len();
    if n == 0 {
        return Err(ParseIntError { kind: IntErrorKind::Empty });
    }
    let first = s.get_char(0);
    if n == 1 && (first == '+' || first == '-') {
        return Err(ParseIntError { kind: IntErrorKind::InvalidDigit });
    }
    let start: usize = if first == '+' {
        1
    } else {
        0
    };
    let ghost ds = if first == '+' {
        s@.drop_first()
    } else {
        s@
    };
    proof {
        assert(ds =~= s@.skip(start as int));
        assert(parse_u8_spec(s@) == scan_digits(ds, 0, 255));
    }
    let mut v: u64 = 0;
    let mut i: usize = start;
    while i < n
        invariant
            n == s@.len(),
            start <= i <= n,
            ds =~= s@.skip(start as int),
            v <= 255,
            parse_u8_spec(s@) == scan_digits(ds, 0, 255),
            scan_digits(ds, 0, 255) == scan_digits(s@.skip(i as int), v as int, 255),
        decreases n - i,
    {
        let c = s.get_char(i);
        let ghost rest = s@.skip(i as int);
        proof {
            assert(rest[0] == c);
            assert(rest.drop_first() =~= s@.skip(i + 1));
        }
        if !('0' <= c && c <= '9') {
            return Err(ParseIntError { kind: IntErrorKind::InvalidDigit });
        }
        let d = (c as u32 - '0' as u32) as u64;
        if v * 10 + d > 255 {
            return Err(ParseIntError { kind: IntErrorKind::PosOverflow });
        }
        v = v * 10 + d;
        i = i + 1;
    }
    proof {
        assert(s@.skip(i as int) =~= Seq::<char>::empty());
    }
    Ok(v as u8)
}

/// `s.parse::<i32>()`, with `None` for every error.
pub fn parse_i32(s: &str) -> (res: Option<i32>)
    ensures
        match res {
            Some(v) => parse_i32_spec(s@) == Some(v as int),
            None => parse_i32_spec(s@) is None,
        },
{
    let n = s.unicode_len();
    if n > 0 && s.get_char(0) == '-' {
        proof {
            assert(s@.skip(1) =~= s@.drop_first());
        }
        match parse_digits(s, 1, 0x8000_0000) {
            Some(v) => Some((0 - (v as i64)) as i32),
            None => None,
        }
    } else {
        let start: usize = if n > 0 && s.get_char(0) == '+' {
            1
        } else {
            0
        };
        proof {
            if start == 1 {
                assert(s@.skip(1) =~= s@.drop_first());
            } else {
                assert(s@.skip(0) =~= s@);
            }
        }
        match parse_digits(s, start, 0x7fff_ffff) {
            Some(v) => Some(v as i32),
            None => None,
        }
    }
}

/// The one-character text of the digit `d`.
fn digit_text(d: u64) -> (res: &'static str)
    requires
        d < 10,
    ensures
        res@ == seq![digit_char(d as int)],
{
    proof {
        reveal_strlit("0");
        reveal_strlit("1");
        reveal_strlit("2");
        reveal_strlit("3");
        reveal_strlit("4");
        reveal_strlit("5");
        reveal_strlit("6");
        reveal_strlit("7");
        reveal_strlit("8");
        reveal_strlit("9");
    }
    match d {
        0 => "0",
        1 => "1",
        2 => "2",
        3 => "3",
        4 => "4",
        5 => "5",
        6 => "6",
        7 => "7",
        8 => "8",
        _ => "9",
    }
}

/// The decimal text of `n`, as `format!("{}", n)` writes it.
pub fn decimal_string(n: u64) -> (res: String)
    ensures
        res@ == decimal(n as nat),
    decreases n,
{
    if n < 10 {
        let mut s = String::new();
        s.append(digit_text(n));
        proof {
            assert(s@ =~= seq![digit_char(n as int)]);
        }
        s
    } else {
        let mut s = decimal_string(n / 10);
        s.append(digit_text(n % 10));
        s
    }
}

/// The decimal text of `i`, as `format!("{}", i)` writes it.
pub fn signed_decimal_string(i: i64) -> (res: String)
    requires
        i > i64::MIN,
    ensures
        res@ == signed_decimal(i as int),
{
    if i < 0 {
        let mut s = String::new();
        s.append("-");
        let d = decimal_string((0 - i) as u64);
        s.append(d.as_str());
        proof {
            reveal_strlit("-");
            assert(s@ =~= seq!['-'] + decimal((-i) as nat));
        }
        s
    } else {
        decimal_string(i as u64)
    }
}

/// The decimal text of a number is a non-empty string of digits.
pub proof fn lemma_decimal_digits(n: nat)
    ensures
        decimal(n).len() >= 1,
        all_digits(decimal(n)),
    decreases n,
{
    if n >= 10 {
        lemma_decimal_digits(n / 10);
        let d = decimal(n / 10);
        assert forall|i: int| 0 <= i < decimal(n).len() implies is_digit(#[trigger] decimal(n)[i]) by {
            if i < d.len() {
                assert(decimal(n)[i] == d[i]);
            }
        }
    }
}

/// The digit character of `d` has the value `d`.
pub proof fn lemma_digit_char_value(d: int)
    requires
        0 <= d < 10,
    ensures
        digit_value(digit_char(d)) == d,
        is_digit(digit_char(d)),
{
    assert(digit_char(d) as int == '0' as int + d);
}

/// Reading one more digit multiplies by ten and adds it.
pub proof fn lemma_value_from_push(acc: int, s: Seq<char>, c: char)
    ensures
        value_from(acc, s.push(c)) == value_from(acc, s) * 10 + digit_value(c),
    decreases s.len(),
{
    if s.len() == 0 {
        assert(s.push(c).drop_first() =~= Seq::<char>::empty());
        assert(value_from(acc * 10 + digit_value(c), s.push(c).drop_first()) == acc * 10
            + digit_value(c));
    } else {
        let t = s.push(c);
        assert(t.drop_first() =~= s.drop_first().push(c));
        assert(t[0] == s[0]);
        lemma_value_from_push(acc * 10 + digit_value(s[0]), s.drop_first(), c);
        assert(value_from(acc, t) == value_from(acc * 10 + digit_value(s[0]), t.drop_first()));
        assert(value_from(acc, s) == value_from(acc * 10 + digit_value(s[0]), s.drop_first()));
    }
}

/// The decimal text of `n` reads back as `n`.
pub proof fn lemma_value_from_decimal(n: nat)
    ensures
        value_from(0, decimal(n)) == n,
    decreases n,
{
    if n < 10 {
        assert(decimal(n).drop_first() =~= Seq::<char>::empty());
        lemma_digit_char_value(n as int);
        assert(value_from(digit_value(digit_char(n as int)), decimal(n).drop_first())
            == digit_value(digit_char(n as int)));
    } else {
        lemma_value_from_decimal(n / 10);
        lemma_value_from_push(0, decimal(n / 10), digit_char((n % 10) as int));
        lemma_digit_char_value((n % 10) as int);
    }
}

/// Reading digits never decreases the value.
pub proof fn lemma_value_from_ge(acc: int, ds: Seq<char>)
    requires
        acc >= 0,
        all_digits(ds),
    ensures
        value_from(acc, ds) >= acc,
    decreases ds.len(),
{
    if ds.len() > 0 {
        assert(is_digit(ds[0]));
        assert(all_digits(ds.drop_first()));
        lemma_value_from_ge(acc * 10 + digit_value(ds[0]), ds.drop_first());
    }
}

/// Digits whose value fits are read without error.
pub proof fn lemma_scan_ok(ds: Seq<char>, acc: int, max: int)
    requires
        acc >= 0,
        all_digits(ds),
        value_from(acc, ds) <= max,
    ensures
        scan_digits(ds, acc, max) == Ok::<int, IntErrorKind>(value_from(acc, ds)),
    decreases ds.len(),
{
    if ds.len() > 0 {
        assert(is_digit(ds[0]));
        assert(all_digits(ds.drop_first()));
        lemma_value_from_ge(acc * 10 + digit_value(ds[0]), ds.drop_first());
        lemma_scan_ok(ds.drop_first(), acc * 10 + digit_value(ds[0]), max);
    }
}

/// The decimal text of a byte parses back as that byte.
pub proof fn lemma_parse_u8_decimal(b: u8)
    ensures
        parse_u8_spec(decimal(b as nat)) == Ok::<int, IntErrorKind>(b as int),
{
    lemma_decimal_digits(b as nat);
    lemma_value_from_decimal(b as nat);
    lemma_scan_ok(decimal(b as nat), 0, 255);
    assert(is_digit(decimal(b as nat)[0]));
}

/// The digits of the decimal text of `n` denote `n`.
pub proof fn lemma_digits_value_decimal(n: nat)
    ensures
        digits_value(decimal(n)) == n,
    decreases n,
{
    let s = decimal(n);
    if n < 10 {
        assert(s.drop_last() =~= Seq::<char>::empty());
        assert(digits_value(Seq::<char>::empty()) == 0);
        assert(s.last() == digit_char(n as int));
        lemma_digit_char_value(n as int);
    } else {
        lemma_digits_value_decimal(n / 10);
        assert(s.drop_last() =~= decimal(n / 10));
        assert(s.last() == digit_char((n % 10) as int));
        lemma_digit_char_value((n % 10) as int);
        assert(n == (n / 10) * 10 + n % 10);
    }
}

/// The signed decimal text of a value of `i32` parses back, as
/// `str::parse::<i32>` reads it, to that value.
pub proof fn lemma_parse_i32_signed_decimal(i: int)
    requires
        i32::MIN <= i <= i32::MAX,
    ensures
        parse_i32_spec(signed_decimal(i)) == Some(i),
{
    if i < 0 {
        let d = decimal((-i) as nat);
        lemma_decimal_digits((-i) as nat);
        lemma_digits_value_decimal((-i) as nat);
        assert((seq!['-'] + d).drop_first() =~= d);
    } else {
        let d = decimal(i as nat);
        lemma_decimal_digits(i as nat);
        lemma_digits_value_decimal(i as nat);
        assert(is_digit(d[0]));
    }
}

} // verus!
