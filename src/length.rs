//! Size constraints and their resolution to absolute extents.
use vstd::prelude::*;
use crate::text::{decimal, decimal_string, digits_value, is_digit, owned, push_char, ParseError};

verus! {

/// A size constraint along one axis.
#[derive(Clone, Copy, Debug, PartialEq, Eq, Structural)]
pub enum Length {
    /// Exactly this many cells, as far as they are available.
    Absolute(u16),
    /// This percentage of the parent's extent, as far as it is available.
    Relative(u16),
    /// At least this many cells; may run past the parent.
    AtLeast(u16),
    /// At most this many cells.
    AtMost(u16),
    /// Whatever is left of the parent.
    Fill,
}

pub open spec fn min(a: int, b: int) -> int {
    if a <= b { a } else { b }
}

pub open spec fn max(a: int, b: int) -> int {
    if a >= b { a } else { b }
}

/// The extent that `l` takes inside a parent of extent `parent`, of which
/// earlier siblings already took `net_sibling`.
pub open spec fn resolve(l: Length, parent: int, net_sibling: int) -> int {
    let usable = parent - net_sibling;
    match l {
        Length::Absolute(v) => min(usable, v as int),
        Length::Relative(pct) => min(usable, parent * pct / 100),
        Length::AtLeast(v) => max(usable, v as int),
        Length::AtMost(v) => min(usable, v as int),
        Length::Fill => usable,
    }
}

/// The unit tag that the textual encoding of `l` ends with.
pub open spec fn unit_of(l: Length) -> char {
    match l {
        Length::Absolute(_) => 'a',
        Length::Relative(_) => '%',
        Length::AtLeast(_) => 'l',
        Length::AtMost(_) => 'm',
        Length::Fill => 'f',
    }
}

/// The numeric prefix of the textual encoding of `l`.
pub open spec fn value_of(l: Length) -> nat {
    match l {
        Length::Absolute(v) => v as nat,
        Length::Relative(v) => v as nat,
        Length::AtLeast(v) => v as nat,
        Length::AtMost(v) => v as nat,
        Length::Fill => 0,
    }
}

/// The textual encoding of `l`: a decimal number followed by the unit tag.
pub open spec fn code_of(l: Length) -> Seq<char> {
    decimal(value_of(l)).push(unit_of(l))
}

/// The prefix of `s` is a non-empty run of decimal digits whose value fits in 16 bits.
pub open spec fn valid_value(s: Seq<char>) -> bool {
    &&& s.len() >= 2
    &&& forall|i: int| 0 <= i < s.len() - 1 ==> is_digit(#[trigger] s[i])
    &&& digits_value(s.drop_last()) <= 0xffff
}

/// The length that the textual encoding `s` stands for, when it stands for one.
pub open spec fn parse_length(s: Seq<char>) -> Option<Length> {
    if !valid_value(s) {
        None
    } else {
        let v = digits_value(s.drop_last()) as u16;
        let unit = s.last();
        if unit == '%' {
            Some(Length::Relative(v))
        } else if unit == 'a' {
            Some(Length::Absolute(v))
        } else if unit == 'l' {
            Some(Length::AtLeast(v))
        } else if unit == 'm' {
            Some(Length::AtMost(v))
        } else if unit == 'f' {
            Some(Length::Fill)
        } else {
            None
        }
    }
}

/// Resolution never hands out more than the usable length (the parent's
/// extent less what earlier siblings took), except where an `AtLeast` minimum
/// exceeds it; and `Fill` takes exactly the usable length.
pub proof fn lemma_resolution_bound(l: Length, parent: u16, net_sibling: u16)
    requires
        net_sibling <= parent,
        !(l matches Length::AtLeast(v) && v > parent - net_sibling),
    ensures
        0 <= resolve(l, parent as int, net_sibling as int) <= parent - net_sibling,
        resolve(Length::Fill, parent as int, net_sibling as int) == parent - net_sibling,
{
    if let Length::Relative(pct) = l {
        assert(parent as int * pct as int >= 0) by (nonlinear_arith);
    }
}

proof fn lemma_decimal_digits(v: nat)
    ensures
        decimal(v).len() >= 1,
        forall|i: int| 0 <= i < decimal(v).len() ==> is_digit(#[trigger] decimal(v)[i]),
        digits_value(decimal(v)) == v,
    decreases v,
{
    let c = crate::text::digit_char(v % 10);
    assert(c as nat == v % 10 + ('0' as nat));
    let d = decimal(v);
    assert(d.last() == c);
    assert(digits_value(d) == digits_value(d.drop_last()) * 10 + ((c as nat) - ('0' as nat)) as nat);
    if v < 10 {
        assert(d.drop_last() =~= Seq::<char>::empty());
        assert(digits_value(d.drop_last()) == 0);
    } else {
        lemma_decimal_digits(v / 10);
        assert((v / 10) * 10 + v % 10 == v) by (nonlinear_arith);
        assert(d.drop_last() =~= decimal(v / 10));
        assert forall|i: int| 0 <= i < d.len() implies is_digit(#[trigger] d[i]) by {
            if i < d.len() - 1 {
                assert(d[i] == decimal(v / 10)[i]);
            }
        }
    }
}

/// Reading back the textual encoding of a length gives that length.
pub proof fn lemma_code_round_trip(l: Length)
    ensures
        parse_length(code_of(l)) == Some(l),
{
    let v = value_of(l);
    lemma_decimal_digits(v);
    let s = code_of(l);
    assert(s.drop_last() =~= decimal(v));
    assert forall|i: int| 0 <= i < s.len() - 1 implies is_digit(#[trigger] s[i]) by {
        assert(s[i] == decimal(v)[i]);
    }
}

proof fn lemma_digits_value_grows(s: Seq<char>, k: int)
    requires
        0 <= k <= s.len(),
        forall|i: int| 0 <= i < s.len() ==> is_digit(#[trigger] s[i]),
    ensures
        digits_value(s.subrange(0, k)) <= digits_value(s),
    decreases s.len(),
{
    if k < s.len() {
        assert(s.drop_last() =~= s.subrange(0, s.len() - 1));
        assert(s.drop_last().subrange(0, k) =~= s.subrange(0, k));
        lemma_digits_value_grows(s.drop_last(), k);
    } else {
        assert(s.subrange(0, k) =~= s);
    }
}

impl Length {
    /// The absolute extent this constraint takes inside a parent of extent
    /// `parent_length`, of which earlier siblings already took `net_sibling_length`.
    pub fn get_absolute(&self, parent_length: u16, net_sibling_length: u16) -> (r: u16)
        requires
            net_sibling_length <= parent_length,
        ensures
            r == resolve(*self, parent_length as int, net_sibling_length as int),
    {
        let usable_length = parent_length - net_sibling_length;
        match self {
            Length::Absolute(l) => {
                if usable_length <= *l { usable_length } else { *l }
            },
            Length::Relative(l) => {
                proof {
                    vstd::arithmetic::mul::lemma_mul_upper_bound(
                        parent_length as int,
                        0xffff,
                        *l as int,
                        0xffff,
                    );
                }
                let share: u64 = (parent_length as u64) * (*l as u64) / 100;
                if (usable_length as u64) <= share { usable_length } else { share as u16 }
            },
            Length::AtLeast(l) => {
                if usable_length >= *l { usable_length } else { *l }
            },
            Length::AtMost(l) => {
                if usable_length <= *l { usable_length } else { *l }
            },
            Length::Fill => usable_length,
        }
    }

    /// Resolves this constraint as [`Length::get_absolute`] does and replaces it
    /// by the absolute length it resolved to, which is returned.
    pub fn make_absolute(&mut self, parent_length: u16, net_sibling_length: u16) -> (r: u16)
        requires
            net_sibling_length <= parent_length,
        ensures
            r == resolve(*old(self), parent_length as int, net_sibling_length as int),
            *final(self) == Length::Absolute(r),
    {
        let absolute_len = self.get_absolute(parent_length, net_sibling_length);
        *self = Length::Absolute(absolute_len);
        absolute_len
    }

    /// The textual encoding: the value in decimal followed by the unit tag
    /// (`"10a"`, `"50%"`, `"30l"`, `"20m"`, `"0f"`).
    pub fn to_code(&self) -> (r: String)
        ensures
            r@ == code_of(*self),
    {
        let (value, unit) = match self {
            Length::Absolute(v) => (*v, 'a'),
            Length::Relative(v) => (*v, '%'),
            Length::AtLeast(v) => (*v, 'l'),
            Length::AtMost(v) => (*v, 'm'),
            Length::Fill => (0, 'f'),
        };
        let mut r = decimal_string(value);
        push_char(&mut r, unit);
        r
    }

    /// Reads the textual encoding: an unsigned decimal number followed by one
    /// unit tag. The number is ignored for `f`.
    pub fn parse(source: &str) -> (r: Result<Length, ParseError>)
        ensures
            r is Ok <==> parse_length(source@) is Some,
            r is Ok ==> r->Ok_0 == parse_length(source@)->0,
            r matches Err(ParseError::Empty) <==> source@.len() == 0,
            r matches Err(ParseError::InvalidValue(lit)) ==> lit@ == source@,
            r matches Err(ParseError::InvalidValue(_)) <==> source@.len() > 0 && !valid_value(source@),
            r matches Err(ParseError::InvalidUnit(lit)) ==> lit@ == source@,
            r matches Err(ParseError::InvalidUnit(_)) <==> valid_value(source@) && parse_length(source@) is None,
    {
        let n = source.unicode_len();
        if n == 0 {
            return Err(ParseError::Empty);
        }
        if n == 1 {
            return Err(ParseError::InvalidValue(owned(source)));
        }
        let ghost s = source@;
        let mut value: u32 = 0;
        let mut i: usize = 0;
        while i < n - 1
            invariant
                n == s.len(),
                s == source@,
                n >= 2,
                i <= n - 1,
                forall|j: int| 0 <= j < i ==> is_digit(#[trigger] s[j]),
                value as nat == digits_value(s.subrange(0, i as int)),
                value <= 0xffff,
            decreases n - 1 - i,
        {
            let c = source.get_char(i);
            if !('0' <= c && c <= '9') {
                return Err(ParseError::InvalidValue(owned(source)));
            }
            let next: u32 = value * 10 + ((c as u32) - ('0' as u32));
            proof {
                let t = s.subrange(0, i as int + 1);
                assert(t.drop_last() =~= s.subrange(0, i as int));
                assert(t.last() == c);
            }
            if next > 0xffff {
                proof {
                    if valid_value(s) {
                        let p = s.drop_last();
                        assert(p.subrange(0, i as int + 1) =~= s.subrange(0, i as int + 1));
                        lemma_digits_value_grows(p, i as int + 1);
                    }
                }
                return Err(ParseError::InvalidValue(owned(source)));
            }
            value = next;
            i = i + 1;
        }
        proof {
            assert(s.subrange(0, n - 1) =~= s.drop_last());
        }
        let unit = source.get_char(n - 1);
        let v = value as u16;
        if unit == '%' {
            Ok(Length::Relative(v))
        } else if unit == 'a' {
            Ok(Length::Absolute(v))
        } else if unit == 'l' {
            Ok(Length::AtLeast(v))
        } else if unit == 'm' {
            Ok(Length::AtMost(v))
        } else if unit == 'f' {
            Ok(Length::Fill)
        } else {
            Err(ParseError::InvalidUnit(owned(source)))
        }
    }
}

} // verus!
