use vstd::prelude::*;
use crate::parse::parser::Parser;
use crate::parse::substr::CharsCount;
use crate::parse::digit::{DigitBase, spec_radix, spec_digit_value, digit_value, lemma_digit_values, spec_digits_lower, spec_digits_upper};

verus! {

/// An unsigned integer as written: its digits, most significant first, and
/// its base. See [NumberParser].
#[derive(Debug, Clone, PartialEq)]
pub struct Number {
    pub digits: Vec<u8>,
    pub base: DigitBase,
}

/// The digits at the start of `s` in `base`, as long a run as there is.
pub open spec fn spec_digit_run(s: Seq<char>, base: DigitBase) -> Seq<u8>
    decreases s.len(),
{
    if s.len() > 0 && spec_digit_value(s[0], base) is Some {
        seq![spec_digit_value(s[0], base)->0] + spec_digit_run(s.skip(1), base)
    } else {
        Seq::empty()
    }
}

/// The value of `ds` read from its last digit to its first, as the
/// conversion to `u128` computes it: `None` once a product of a digit by the
/// current power, or the next power itself, exceeds `u128::MAX`.
pub open spec fn spec_fold_u128(ds: Seq<u8>, base: int, sum: int, kof: int) -> Option<int>
    decreases ds.len(),
{
    if ds.len() == 0 {
        Some(sum)
    } else {
        let d = ds.last() as int;
        if d * kof > u128::MAX {
            None
        } else if kof * base > u128::MAX {
            None
        } else {
            spec_fold_u128(ds.drop_last(), base, sum + d * kof, kof * base)
        }
    }
}

/// Whether the running sum of the conversion to `u128` leaves `u128`
/// (which the conversion does not check).
pub open spec fn spec_fold_u128_overflows(ds: Seq<u8>, base: int, sum: int, kof: int) -> bool
    decreases ds.len(),
{
    if ds.len() == 0 {
        false
    } else {
        let d = ds.last() as int;
        if d * kof > u128::MAX {
            false
        } else if sum + d * kof > u128::MAX {
            true
        } else if kof * base > u128::MAX {
            false
        } else {
            spec_fold_u128_overflows(ds.drop_last(), base, sum + d * kof, kof * base)
        }
    }
}

impl Number {
    /// The value of this number as the conversion to `u128` gives it.
    pub open spec fn spec_u128(&self) -> Option<int> {
        spec_fold_u128(self.digits@, spec_radix(self.base) as int, 0, 1)
    }

    /// Whether the conversion to `u128` overflows its running sum.
    pub open spec fn spec_u128_overflows(&self) -> bool {
        spec_fold_u128_overflows(self.digits@, spec_radix(self.base) as int, 0, 1)
    }

    /// The value as `u128`, or `None` when the conversion leaves `u128`.
    pub fn try_u128(&self) -> (r: Option<u128>)
        requires
            !self.spec_u128_overflows(),
        ensures
            r matches Some(v) ==> self.spec_u128() == Some(v as int),
            r is None ==> self.spec_u128() is None,
    {
        let base: u128 = self.base.radix() as u128;
        let mut kof: u128 = 1;
        let mut sum: u128 = 0;
        let mut j: usize = self.digits.len();
        assert(self.digits@.take(j as int) =~= self.digits@);
        while j > 0
            invariant
                j <= self.digits.len(),
                base == spec_radix(self.base),
                spec_fold_u128(self.digits@.take(j as int), base as int, sum as int, kof as int)
                    == self.spec_u128(),
                !spec_fold_u128_overflows(self.digits@.take(j as int), base as int, sum as int, kof as int),
            decreases j,
        {
            let ghost t = self.digits@.take(j as int);
            assert(t.drop_last() =~= self.digits@.take(j - 1));
            assert(t.last() == self.digits@[j - 1]);
            let digit = self.digits[j - 1];
            match (digit as u128).checked_mul(kof) {
                Some(m) => {
                    sum = sum + m;
                    match kof.checked_mul(base) {
                        Some(k) => {
                            kof = k;
                        },
                        None => {
                            return None;
                        },
                    }
                },
                None => {
                    return None;
                },
            }
            j = j - 1;
        }
        assert(self.digits@.take(0) =~= Seq::<u8>::empty());
        Some(sum)
    }

    /// Whether the conversion to `u128` overflows its running sum.
    pub fn overflows_u128(&self) -> (r: bool)
        ensures
            r == self.spec_u128_overflows(),
    {
        let base: u128 = self.base.radix() as u128;
        let mut kof: u128 = 1;
        let mut sum: u128 = 0;
        let mut j: usize = self.digits.len();
        assert(self.digits@.take(j as int) =~= self.digits@);
        while j > 0
            invariant
                j <= self.digits.len(),
                base == spec_radix(self.base),
                spec_fold_u128_overflows(self.digits@.take(j as int), base as int, sum as int, kof as int)
                    == self.spec_u128_overflows(),
            decreases j,
        {
            let ghost t = self.digits@.take(j as int);
            assert(t.drop_last() =~= self.digits@.take(j - 1));
            assert(t.last() == self.digits@[j - 1]);
            let digit = self.digits[j - 1];
            match (digit as u128).checked_mul(kof) {
                Some(m) => {
                    match sum.checked_add(m) {
                        Some(s) => {
                            sum = s;
                        },
                        None => {
                            return true;
                        },
                    }
                    match kof.checked_mul(base) {
                        Some(k) => {
                            kof = k;
                        },
                        None => {
                            return false;
                        },
                    }
                },
                None => {
                    return false;
                },
            }
            j = j - 1;
        }
        assert(self.digits@.take(0) =~= Seq::<u8>::empty());
        false
    }

    /// The value as `u64`, or `None` when it does not fit.
    pub fn try_u64(&self) -> (r: Option<u64>)
        requires
            !self.spec_u128_overflows(),
        ensures
            r matches Some(v) ==> self.spec_u128() == Some(v as int),
            r is None ==> !(self.spec_u128() matches Some(v) && v <= u64::MAX),
    {
        match self.try_u128() {
            Some(n) => {
                if n > u64::MAX as u128 {
                    None
                } else {
                    Some(n as u64)
                }
            },
            None => None,
        }
    }

    /// The value as `u32`, or `None` when it does not fit.
    pub fn try_u32(&self) -> (r: Option<u32>)
        requires
            !self.spec_u128_overflows(),
        ensures
            r matches Some(v) ==> self.spec_u128() == Some(v as int),
            r is None ==> !(self.spec_u128() matches Some(v) && v <= u32::MAX),
    {
        match self.try_u128() {
            Some(n) => {
                if n > u32::MAX as u128 {
                    None
                } else {
                    Some(n as u32)
                }
            },
            None => None,
        }
    }
}

/// Whether `s` begins with the two characters `a`, `b`.
pub open spec fn spec_starts2(s: Seq<char>, a: char, b: char) -> bool {
    s.len() >= 2 && s[0] == a && s[1] == b
}

/// The base that the prefix of `s` selects (`0x`, `0o`, `0b`, else decimal),
/// and the length of that prefix.
pub open spec fn spec_number_prefix(s: Seq<char>) -> (DigitBase, nat) {
    if spec_starts2(s, '0', 'x') {
        (DigitBase::Hex, 2)
    } else if spec_starts2(s, '0', 'o') {
        (DigitBase::Oct, 2)
    } else if spec_starts2(s, '0', 'b') {
        (DigitBase::Bin, 2)
    } else {
        (DigitBase::Dec, 0)
    }
}

/// What [NumberParser] recognises at the start of `s`: the digits, the base
/// and the count of characters, prefix included; `None` when that count is 0.
pub open spec fn spec_parse_number(s: Seq<char>) -> Option<(Seq<u8>, DigitBase, nat)> {
    let (base, p) = spec_number_prefix(s);
    let ds = spec_digit_run(s.skip(p as int), base);
    if p + ds.len() > 0 {
        Some((ds, base, p + ds.len()))
    } else {
        None
    }
}

/// What a parser of the digits of `base` alone recognises at the start of `s`.
pub open spec fn spec_parse_base_number(s: Seq<char>, base: DigitBase) -> Option<(Seq<u8>, DigitBase, nat)> {
    let ds = spec_digit_run(s, base);
    if ds.len() > 0 {
        Some((ds, base, ds.len()))
    } else {
        None
    }
}

/// Whether a parse result matches what a number spec gives.
pub open spec fn spec_number_result(
    r: Option<(Number, CharsCount)>,
    s: Option<(Seq<u8>, DigitBase, nat)>,
) -> bool {
    match (r, s) {
        (None, None) => true,
        (Some((n, c)), Some((ds, b, k))) => n.digits@ == ds && n.base == b && c.0 == k,
        _ => false,
    }
}

/// A run of digits is no longer than the text it starts.
pub proof fn lemma_digit_run_len(s: Seq<char>, base: DigitBase)
    ensures
        spec_digit_run(s, base).len() <= s.len(),
    decreases s.len(),
{
    if s.len() > 0 && spec_digit_value(s[0], base) is Some {
        lemma_digit_run_len(s.skip(1), base);
    }
}

/// Reads the run of digits of `base` that starts at character `from` of
/// `source`.
fn read_digits(source: &str, from: usize, len: usize, base: DigitBase) -> (r: Vec<u8>)
    requires
        len == source@.len(),
        from <= len,
    ensures
        r@ == spec_digit_run(source@.skip(from as int), base),
{
    let mut digits: Vec<u8> = Vec::new();
    let mut i = from;
    let ghost s = source@;
    while i < len
        invariant
            from <= i <= len,
            len == s.len(),
            s == source@,
            digits@ + spec_digit_run(s.skip(i as int), base) == spec_digit_run(s.skip(from as int), base),
        decreases len - i,
    {
        let c = source.get_char(i);
        assert(s.skip(i as int)[0] == c);
        match digit_value(c, base) {
            Some(d) => {
                assert(s.skip(i as int).skip(1) =~= s.skip(i + 1));
                digits.push(d);
                assert(digits@ + spec_digit_run(s.skip(i + 1), base) =~= spec_digit_run(s.skip(from as int), base));
                i = i + 1;
            },
            None => {
                assert(digits@ =~= digits@ + spec_digit_run(s.skip(i as int), base));
                return digits;
            },
        }
    }
    assert(s.skip(i as int).len() == 0);
    assert(digits@ =~= digits@ + spec_digit_run(s.skip(i as int), base));
    digits
}

/// Parser of a number with an optional base prefix.
///
/// Grammar
///
///     Number ::= hex_number | oct_number | bin_number | dec_number
///     hex_number ::= '0x' hex_digit { hex_digit }
///     oct_number ::= '0o' oct_digit { oct_digit }
///     bin_number ::= '0b' bin_digit { bin_digit }
///     dec_number ::= dec_digit { dec_digit }
pub struct NumberParser;

impl NumberParser {
    /// This parser as a value.
    pub fn parser(self) -> (r: NumberParser)
        ensures
            r == self,
    {
        self
    }
}

impl Parser<Number> for NumberParser {
    open spec fn accepts(&self, source: Seq<char>, result: Option<(Number, CharsCount)>) -> bool {
        spec_number_result(result, spec_parse_number(source))
    }

    fn parse(&self, source: &str) -> (r: Option<(Number, CharsCount)>) {
        let len = source.unicode_len();
        let ghost s = source@;
        let mut base = DigitBase::Dec;
        let mut prefix: usize = 0;
        if len >= 2 {
            let c0 = source.get_char(0);
            let c1 = source.get_char(1);
            if c0 == '0' && c1 == 'x' {
                base = DigitBase::Hex;
                prefix = 2;
            } else if c0 == '0' && c1 == 'o' {
                base = DigitBase::Oct;
                prefix = 2;
            } else if c0 == '0' && c1 == 'b' {
                base = DigitBase::Bin;
                prefix = 2;
            }
        }
        assert(spec_number_prefix(s) == (base, prefix as nat));
        let digits = read_digits(source, prefix, len, base);
        proof {
            lemma_digit_run_len(s.skip(prefix as int), base);
        }
        let count = prefix + digits.len();
        if count > 0 {
            Some((Number { digits, base }, CharsCount(count)))
        } else {
            None
        }
    }
}

/// Parser of the digits of one base, without prefix.
pub struct BaseNumberParser(pub DigitBase);

impl Parser<Number> for BaseNumberParser {
    open spec fn accepts(&self, source: Seq<char>, result: Option<(Number, CharsCount)>) -> bool {
        spec_number_result(result, spec_parse_base_number(source, self.0))
    }

    fn parse(&self, source: &str) -> (r: Option<(Number, CharsCount)>) {
        let len = source.unicode_len();
        let digits = read_digits(source, 0, len, self.0);
        proof {
            assert(source@.skip(0) =~= source@);
            lemma_digit_run_len(source@, self.0);
        }
        let count = digits.len();
        if count > 0 {
            Some((Number { digits, base: self.0 }, CharsCount(count)))
        } else {
            None
        }
    }
}

/// Parser of hexadecimal digits.
pub struct HexNumberParser;

impl Parser<Number> for HexNumberParser {
    open spec fn accepts(&self, source: Seq<char>, result: Option<(Number, CharsCount)>) -> bool {
        spec_number_result(result, spec_parse_base_number(source, DigitBase::Hex))
    }

    fn parse(&self, source: &str) -> (r: Option<(Number, CharsCount)>) {
        BaseNumberParser(DigitBase::Hex).parse(source)
    }
}

/// Parser of binary digits.
pub struct BinNumberParser;

impl Parser<Number> for BinNumberParser {
    open spec fn accepts(&self, source: Seq<char>, result: Option<(Number, CharsCount)>) -> bool {
        spec_number_result(result, spec_parse_base_number(source, DigitBase::Bin))
    }

    fn parse(&self, source: &str) -> (r: Option<(Number, CharsCount)>) {
        BaseNumberParser(DigitBase::Bin).parse(source)
    }
}

/// Parser of octal digits.
pub struct OctNumberParser;

impl Parser<Number> for OctNumberParser {
    open spec fn accepts(&self, source: Seq<char>, result: Option<(Number, CharsCount)>) -> bool {
        spec_number_result(result, spec_parse_base_number(source, DigitBase::Oct))
    }

    fn parse(&self, source: &str) -> (r: Option<(Number, CharsCount)>) {
        BaseNumberParser(DigitBase::Oct).parse(source)
    }
}

/// Parser of decimal digits.
pub struct DecNumberParser;

impl Parser<Number> for DecNumberParser {
    open spec fn accepts(&self, source: Seq<char>, result: Option<(Number, CharsCount)>) -> bool {
        spec_number_result(result, spec_parse_base_number(source, DigitBase::Dec))
    }

    fn parse(&self, source: &str) -> (r: Option<(Number, CharsCount)>) {
        BaseNumberParser(DigitBase::Dec).parse(source)
    }
}


/// The value of the digits `ds` in `base`, the first digit the most
/// significant: each digit times the power of `base` of its place, summed.
pub open spec fn spec_positional(ds: Seq<u8>, base: int) -> int
    decreases ds.len(),
{
    if ds.len() == 0 {
        0
    } else {
        spec_positional(ds.drop_last(), base) * base + ds.last()
    }
}

/// A conversion started from `sum` and the power `kof` adds `kof` times the
/// value of the digits to `sum`.
pub proof fn lemma_fold_positional(ds: Seq<u8>, base: int, sum: int, kof: int)
    ensures
        spec_fold_u128(ds, base, sum, kof) matches Some(v) ==> v == sum + kof * spec_positional(ds, base),
    decreases ds.len(),
{
    if ds.len() > 0 {
        let d = ds.last() as int;
        lemma_fold_positional(ds.drop_last(), base, sum + d * kof, kof * base);
        let p = spec_positional(ds.drop_last(), base);
        assert(sum + d * kof + (kof * base) * p == sum + kof * (p * base + d)) by (nonlinear_arith);
    }
}

/// Where the conversion of a number to `u128` gives a value, it is the
/// number's value: the sum of its digits times the powers of its base of
/// their places (for `0xab`, 10 * 16 + 11).
pub proof fn lemma_number_value(n: Number)
    ensures
        n.spec_u128() matches Some(v) ==> v == spec_positional(n.digits@, spec_radix(n.base) as int),
{
    lemma_fold_positional(n.digits@, spec_radix(n.base) as int, 0, 1);
}


proof fn lemma_digit_run_chars(t: Seq<char>, base: DigitBase)
    ensures
        spec_digit_run(t, base).len() <= t.len(),
        spec_digit_run(t, base).len() < t.len() ==> spec_digit_value(t[spec_digit_run(t, base).len() as int], base) is None,
        forall|i: int| 0 <= i < spec_digit_run(t, base).len() ==> spec_digit_value(t[i], base) == Some(
            #[trigger] spec_digit_run(t, base)[i],
        ),
    decreases t.len(),
{
    lemma_digit_run_len(t, base);
    if t.len() > 0 && spec_digit_value(t[0], base) is Some {
        let r = spec_digit_run(t.skip(1), base);
        lemma_digit_run_chars(t.skip(1), base);
        assert forall|i: int| 0 <= i < spec_digit_run(t, base).len() implies spec_digit_value(t[i], base) == Some(
            #[trigger] spec_digit_run(t, base)[i],
        ) by {
            if i > 0 {
                assert(spec_digit_run(t, base)[i] == r[i - 1]);
                assert(t.skip(1)[i - 1] == t[i]);
            }
        }
        if r.len() < t.skip(1).len() {
            assert(t.skip(1)[r.len() as int] == t[r.len() as int + 1]);
        }
    }
}

/// What a number read from a text is: a prefix `0x`, `0o` or `0b` selects
/// hexadecimal, octal or binary (else it is decimal, with no prefix), and
/// the digits are the characters after the prefix, each the digit of its
/// usual value in that base (`0`-`9`, then `a`-`f` or `A`-`F`).
pub proof fn lemma_parse_number_digits(s: Seq<char>)
    ensures
        spec_parse_number(s) matches Some((ds, b, k)) ==> {
            let p: int = if b == DigitBase::Dec { 0 } else { 2 };
            &&& k == p + ds.len() <= s.len()
            &&& (b == DigitBase::Hex <==> (s.len() >= 2 && s[0] == '0' && s[1] == 'x'))
            &&& (b == DigitBase::Oct <==> (s.len() >= 2 && s[0] == '0' && s[1] == 'o'))
            &&& (b == DigitBase::Bin <==> (s.len() >= 2 && s[0] == '0' && s[1] == 'b'))
            &&& k < s.len() ==> forall|v: int| 0 <= v < spec_radix(b) ==> s[k as int] != #[trigger] spec_digits_lower()[v]
                && s[k as int] != spec_digits_upper()[v]
            &&& forall|i: int| 0 <= i < ds.len() ==> #[trigger] ds[i] < spec_radix(b) && (s[p + i] == spec_digits_lower()[ds[i] as int]
                || s[p + i] == spec_digits_upper()[ds[i] as int])
        },
{
    let (b, p) = spec_number_prefix(s);
    let t = s.skip(p as int);
    lemma_digit_run_chars(t, b);
    if let Some((ds, b2, k)) = spec_parse_number(s) {
        assert forall|i: int| 0 <= i < ds.len() implies #[trigger] ds[i] < spec_radix(b) && (s[p + i] == spec_digits_lower()[ds[i] as int]
            || s[p + i] == spec_digits_upper()[ds[i] as int]) by {
            assert(spec_digit_value(t[i], b) == Some(ds[i]));
            lemma_digit_values(b, t[i]);
            assert(t[i] == s[p + i]);
        }
        if k < s.len() {
            assert(t[ds.len() as int] == s[k as int]);
            lemma_digit_values(b, s[k as int]);
            assert forall|v: int| 0 <= v < spec_radix(b) implies s[k as int] != #[trigger] spec_digits_lower()[v]
                && s[k as int] != spec_digits_upper()[v] by {
                lemma_digit_values(b, spec_digits_lower()[v]);
            }
        }
    }
}

} // verus!
