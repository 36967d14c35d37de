use vstd::prelude::*;
use crate::parse::parser::Parser;
use crate::parse::substr::CharsCount;

verus! {

/// The base of a positional number system.
#[derive(Debug, Clone, Copy, PartialEq, Eq, Structural)]
pub enum DigitBase {
    Bin,
    Oct,
    Dec,
    Hex,
}

/// The value of one digit.
#[derive(Debug, Clone, Copy, PartialEq, Eq, Structural)]
pub struct Digit(pub u8);

/// The radix of a base.
pub open spec fn spec_radix(base: DigitBase) -> nat {
    match base {
        DigitBase::Bin => 2,
        DigitBase::Oct => 8,
        DigitBase::Dec => 10,
        DigitBase::Hex => 16,
    }
}

/// The value of `c` as a digit in `base`, if it is one: `0`-`9`, and for
/// base 16 also `a`-`f` and `A`-`F`.
pub open spec fn spec_digit_value(c: char, base: DigitBase) -> Option<u8> {
    let v: int = if '0' <= c && c <= '9' {
        c as int - '0' as int
    } else if 'a' <= c && c <= 'f' {
        c as int - 'a' as int + 10
    } else if 'A' <= c && c <= 'F' {
        c as int - 'A' as int + 10
    } else {
        -1
    };
    if 0 <= v < spec_radix(base) {
        Some(v as u8)
    } else {
        None
    }
}

impl DigitBase {
    /// The radix of this base.
    pub fn radix(&self) -> (r: u8)
        ensures
            r == spec_radix(*self),
    {
        match self {
            DigitBase::Bin => 2,
            DigitBase::Oct => 8,
            DigitBase::Dec => 10,
            DigitBase::Hex => 16,
        }
    }
}

/// The value of a character as a digit in a base.
pub fn digit_value(c: char, base: DigitBase) -> (r: Option<u8>)
    ensures
        r == spec_digit_value(c, base),
{
    let v: u32 = if '0' <= c && c <= '9' {
        (c as u32) - ('0' as u32)
    } else if 'a' <= c && c <= 'f' {
        (c as u32) - ('a' as u32) + 10
    } else if 'A' <= c && c <= 'F' {
        (c as u32) - ('A' as u32) + 10
    } else {
        100
    };
    let radix = base.radix();
    if v < radix as u32 {
        Some(v as u8)
    } else {
        None
    }
}

/// Parser of a single digit of a base.
#[derive(Debug, Clone, Copy)]
pub struct DigitParser {
    pub base: DigitBase,
}

impl DigitParser {
    /// A parser of one decimal digit.
    pub fn parser() -> (r: DigitParser)
        ensures
            r.base == DigitBase::Dec,
    {
        DigitParser { base: DigitBase::Dec }
    }
}

/// What a digit parser of `base` gives for `s`.
pub open spec fn spec_parse_digit(s: Seq<char>, base: DigitBase) -> Option<(Digit, CharsCount)> {
    if s.len() > 0 && spec_digit_value(s[0], base) is Some {
        Some((Digit(spec_digit_value(s[0], base)->0), CharsCount(1)))
    } else {
        None
    }
}

impl Parser<Digit> for DigitParser {
    open spec fn accepts(&self, source: Seq<char>, result: Option<(Digit, CharsCount)>) -> bool {
        result == spec_parse_digit(source, self.base)
    }

    fn parse(&self, source: &str) -> (r: Option<(Digit, CharsCount)>) {
        let len = source.unicode_len();
        if len == 0 {
            return None;
        }
        let c = source.get_char(0);
        match digit_value(c, self.base) {
            Some(v) => Some((Digit(v), CharsCount(1))),
            None => None,
        }
    }
}

} // verus!

verus! {

/// The digit characters in order of value, lower case.
pub open spec fn spec_digits_lower() -> Seq<char> {
    seq!['0', '1', '2', '3', '4', '5', '6', '7', '8', '9', 'a', 'b', 'c', 'd', 'e', 'f']
}

/// The digit characters in order of value, upper case.
pub open spec fn spec_digits_upper() -> Seq<char> {
    seq!['0', '1', '2', '3', '4', '5', '6', '7', '8', '9', 'A', 'B', 'C', 'D', 'E', 'F']
}

/// Every digit of a base has its usual value: the characters `0`-`9`, then
/// `a`-`f` (or `A`-`F`), are the digits of values 0, 1, ... up to the radix
/// less one; and nothing else is a digit.
pub proof fn lemma_digit_values(base: DigitBase, c: char)
    ensures
        forall|i: int| 0 <= i < spec_radix(base) ==> spec_digit_value(#[trigger] spec_digits_lower()[i], base) == Some(i as u8)
            && spec_digit_value(spec_digits_upper()[i], base) == Some(i as u8),
        spec_digit_value(c, base) matches Some(v) ==> v < spec_radix(base) && (c == spec_digits_lower()[v as int]
            || c == spec_digits_upper()[v as int]),
{
    let lo = spec_digits_lower();
    let up = spec_digits_upper();
    assert forall|i: int| 0 <= i < spec_radix(base) implies spec_digit_value(#[trigger] lo[i], base) == Some(i as u8)
        && spec_digit_value(up[i], base) == Some(i as u8) by {
        assert(0 <= i < 16);
        assert(i == 0 || i == 1 || i == 2 || i == 3 || i == 4 || i == 5 || i == 6 || i == 7 || i == 8 || i == 9
            || i == 10 || i == 11 || i == 12 || i == 13 || i == 14 || i == 15);
    }
    if let Some(v) = spec_digit_value(c, base) {
        let ci = c as int;
        if '0' <= c && c <= '9' {
            assert(ci == 48 || ci == 49 || ci == 50 || ci == 51 || ci == 52 || ci == 53 || ci == 54 || ci == 55
                || ci == 56 || ci == 57);
        } else if 'a' <= c && c <= 'f' {
            assert(ci == 97 || ci == 98 || ci == 99 || ci == 100 || ci == 101 || ci == 102);
        } else {
            assert(ci == 65 || ci == 66 || ci == 67 || ci == 68 || ci == 69 || ci == 70);
        }
    }
}

} // verus!
