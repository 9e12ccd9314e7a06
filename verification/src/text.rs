//! Decimal and hexadecimal text, as the catalog format and the cell tokens
//! write numbers.
use vstd::prelude::*;

verus! {

/// Whether `c` is one of the ASCII digits `0`..`9`.
pub open spec fn is_decimal_digit(c: char) -> bool {
    '0' <= c && c <= '9'
}

/// The value of an ASCII digit.
pub open spec fn decimal_digit_value(c: char) -> nat {
    (c as int - '0' as int) as nat
}

/// The ASCII digit for a value below ten.
pub open spec fn decimal_digit_char(d: nat) -> char {
    ((d + 48) as u8) as char
}

/// The number that a (possibly empty) run of decimal digits denotes.
pub open spec fn digits_value(s: Seq<char>) -> nat
    decreases s.len(),
{
    if s.len() == 0 {
        0
    } else {
        digits_value(s.drop_last()) * 10 + decimal_digit_value(s.last())
    }
}

/// Every character of `s` is a decimal digit.
pub open spec fn all_decimal_digits(s: Seq<char>) -> bool {
    forall|i: int| 0 <= i < s.len() ==> is_decimal_digit(#[trigger] s[i])
}

/// How `str::parse` reads an unsigned integer: an optional `+`, then one or
/// more decimal digits, and nothing else.  `None` where the text is not of
/// that form; the bound of the target type applies on top.
pub open spec fn unsigned_decimal(s: Seq<char>) -> Option<nat> {
    let body = if s.len() > 0 && s[0] == '+' { s.drop_first() } else { s };
    if body.len() > 0 && all_decimal_digits(body) {
        Some(digits_value(body))
    } else {
        None
    }
}

/// The shortest decimal writing of `n`, as `to_string` gives it for an
/// unsigned integer.
pub open spec fn decimal_digits(n: nat) -> Seq<char>
    decreases n,
{
    if n < 10 {
        seq![decimal_digit_char(n)]
    } else {
        decimal_digits(n / 10).push(decimal_digit_char(n % 10))
    }
}

/// A digit character stands for the value it was made from.
pub proof fn lemma_digit_char(d: nat)
    requires
        d < 10,
    ensures
        is_decimal_digit(decimal_digit_char(d)),
        decimal_digit_value(decimal_digit_char(d)) == d,
        decimal_digit_char(d) != '+',
{
    assert(((d + 48) as u8) as int == d + 48);
    assert((((d + 48) as u8) as char) as int == d + 48);
}

/// The decimal writing of a number is all digits and reads back as that number.
pub proof fn lemma_decimal_digits_value(n: nat)
    ensures
        decimal_digits(n).len() > 0,
        all_decimal_digits(decimal_digits(n)),
        digits_value(decimal_digits(n)) == n,
        decimal_digits(n)[0] != '+',
    decreases n,
{
    if n < 10 {
        lemma_digit_char(n);
        assert(decimal_digits(n) == seq![decimal_digit_char(n)]);
        assert(decimal_digits(n).drop_last() =~= Seq::<char>::empty());
        assert(digits_value(decimal_digits(n)) == digits_value(Seq::<char>::empty()) * 10 + decimal_digit_value(decimal_digit_char(n)));
    } else {
        lemma_decimal_digits_value(n / 10);
        lemma_digit_char(n % 10);
        let s = decimal_digits(n);
        let c = decimal_digit_char(n % 10);
        assert(s == decimal_digits(n / 10).push(c));
        assert(s.drop_last() =~= decimal_digits(n / 10));
        assert forall|i: int| 0 <= i < s.len() implies is_decimal_digit(#[trigger] s[i]) by {
            if i < s.len() - 1 {
                assert(s[i] == decimal_digits(n / 10)[i]);
            }
        }
        assert(s[0] == decimal_digits(n / 10)[0]);
        assert(s.last() == c);
        assert(digits_value(s) == digits_value(s.drop_last()) * 10 + decimal_digit_value(s.last()));
        assert(digits_value(s) == (n / 10) * 10 + n % 10);
    }
}

/// `str::parse` reads the decimal writing of `n` back as `n`.
pub proof fn lemma_decimal_roundtrip(n: nat)
    ensures
        unsigned_decimal(decimal_digits(n)) == Some(n),
{
    lemma_decimal_digits_value(n);
}

/// `String::push`: appends one character to a string.
#[verifier::external_body]
pub(crate) fn push_char(s: &mut String, c: char)
    ensures
        final(s)@ == old(s)@.push(c),
{
    s.push(c);
}

/// Appends the decimal writing of `n` to `out`.
pub fn append_decimal(out: &mut String, n: u64)
    ensures
        final(out)@ == old(out)@ + decimal_digits(n as nat),
    decreases n,
{
    if n >= 10 {
        append_decimal(out, n / 10);
    }
    let d: u8 = (n % 10) as u8;
    let c: char = (d + 48) as char;
    push_char(out, c);
    proof {
        assert(decimal_digit_char((n % 10) as nat) == c);
        if n >= 10 {
            assert(decimal_digits(n as nat) == decimal_digits((n / 10) as nat).push(c));
        }
    }
}

/// The decimal writing of `n`, as `n.to_string()` gives it.
pub fn decimal_text(n: u64) -> (res: String)
    ensures
        res@ == decimal_digits(n as nat),
{
    let mut out = String::new();
    append_decimal(&mut out, n);
    proof {
        assert(out@ == Seq::<char>::empty() + decimal_digits(n as nat));
    }
    out
}

/// `text.parse::<u8>()`: as its documentation says, an optional `+` and
/// one or more decimal digits, of a value that fits the type, read as that
/// value; any other text is an error.
#[verifier::external_body]
pub(crate) fn parse_u8(text: &str) -> (res: Result<u8, std::num::ParseIntError>)
    ensures
        match res {
            Ok(v) => unsigned_decimal(text@) == Some(v as nat),
            Err(_) => !(unsigned_decimal(text@) matches Some(n) && n <= u8::MAX),
        },
{
    text.parse::<u8>()
}

/// `text.parse::<u64>()`: as its documentation says, an optional `+` and
/// one or more decimal digits, of a value that fits the type, read as that
/// value; any other text is an error.
#[verifier::external_body]
pub(crate) fn parse_u64(text: &str) -> (res: Result<u64, std::num::ParseIntError>)
    ensures
        match res {
            Ok(v) => unsigned_decimal(text@) == Some(v as nat),
            Err(_) => !(unsigned_decimal(text@) matches Some(n) && n <= u64::MAX),
        },
{
    text.parse::<u64>()
}

/// Whether the string holds exactly the text `lit`.
pub fn text_is(s: &String, lit: &str) -> (res: bool)
    ensures
        res == (s@ == lit@),
{
    let t = String::from_str(lit);
    *s == t
}

} // verus!
