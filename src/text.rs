//! Small string helpers shared by the textual encodings.
use vstd::prelude::*;

verus! {

/// Relies on `String::push`: appends one character to the end of the string.
#[verifier::external_body]
pub(crate) fn push_char(s: &mut String, c: char)
    ensures
        final(s)@ == old(s)@.push(c),
{
    s.push(c)
}

/// The character of decimal digit `d`.
pub open spec fn digit_char(d: nat) -> char {
    ((d % 10) + ('0' as nat)) as char
}

/// The decimal numeral of `v`, without leading zeros (`"0"` for zero).
pub open spec fn decimal(v: nat) -> Seq<char>
    decreases v,
{
    if v < 10 {
        seq![digit_char(v)]
    } else {
        decimal(v / 10).push(digit_char(v % 10))
    }
}

pub open spec fn is_digit(c: char) -> bool {
    '0' <= c && c <= '9'
}

/// The value of a sequence of decimal digits, read most significant first.
pub open spec fn digits_value(s: Seq<char>) -> nat
    decreases s.len(),
{
    if s.len() == 0 {
        0
    } else {
        digits_value(s.drop_last()) * 10 + ((s.last() as nat) - ('0' as nat)) as nat
    }
}

/// Writes `v` in decimal.
pub fn decimal_string(v: u16) -> (r: String)
    ensures
        r@ == decimal(v as nat),
{
    let mut digits: Vec<char> = Vec::new();
    let mut n: u16 = v;
    loop
        invariant_except_break
            n <= v,
            decimal(v as nat) == decimal(n as nat) + digits@.reverse(),
        ensures
            decimal(v as nat) == digits@.reverse(),
        decreases n,
    {
        let d = n % 10;
        let c = ((d as u8) + ('0' as u8)) as char;
        assert(c == digit_char(n as nat));
        proof {
            assert(digits@.push(c).reverse() =~= seq![c] + digits@.reverse());
            if n >= 10 {
                assert(decimal(n as nat) == decimal((n / 10) as nat).push(c));
                assert(decimal((n / 10) as nat).push(c) + digits@.reverse()
                    =~= decimal((n / 10) as nat) + (seq![c] + digits@.reverse()));
            } else {
                assert(decimal(n as nat) == seq![c]);
            }
        }
        digits.push(c);
        if n < 10 {
            assert(decimal(v as nat) =~= digits@.reverse());
            break;
        }
        n = n / 10;
    }
    let mut r = String::new();
    let mut i: usize = digits.len();
    while i > 0
        invariant
            i <= digits.len(),
            r@ == digits@.reverse().subrange(0, (digits.len() - i) as int),
            decimal(v as nat) == digits@.reverse(),
        decreases i,
    {
        i = i - 1;
        proof {
            assert(digits@.reverse().subrange(0, (digits.len() - i) as int)
                =~= digits@.reverse().subrange(0, (digits.len() - i - 1) as int).push(digits@[i as int]));
        }
        push_char(&mut r, digits[i]);
    }
    assert(r@ =~= digits@.reverse());
    r
}

/// Why a textual encoding was refused; each variant carries the offending literal.
#[derive(Clone, Debug)]
pub enum ParseError {
    /// The literal is empty.
    Empty,
    /// The numeric prefix of a length is not an unsigned 16-bit decimal number.
    InvalidValue(String),
    /// The unit tag of a length is none of `a`, `%`, `l`, `m`, `f`.
    InvalidUnit(String),
    /// A direction is neither `vertical` nor `horizontal`.
    InvalidDirection(String),
}

/// Copies a string slice into an owned string.
pub fn owned(s: &str) -> (r: String)
    ensures
        r@ == s@,
{
    String::from_str(s)
}

} // verus!
