//! Decimal text of numbers.

use vstd::prelude::*;
use vstd::string::StringExecFns;

verus! {

/// The character of a decimal digit.
pub open spec fn spec_digit_char(d: nat) -> char {
    if d == 0 { '0' }
    else if d == 1 { '1' }
    else if d == 2 { '2' }
    else if d == 3 { '3' }
    else if d == 4 { '4' }
    else if d == 5 { '5' }
    else if d == 6 { '6' }
    else if d == 7 { '7' }
    else if d == 8 { '8' }
    else { '9' }
}

/// The decimal text of `n`, without leading zeros.
pub open spec fn spec_decimal(n: nat) -> Seq<char>
    decreases n,
{
    if n < 10 {
        seq![spec_digit_char(n)]
    } else {
        spec_decimal(n / 10).push(spec_digit_char(n % 10))
    }
}

/// The character of decimal digit `d`.
fn digit_char(d: u128) -> (c: char)
    requires
        d < 10,
    ensures
        c == spec_digit_char(d as nat),
{
    if d == 0 { '0' }
    else if d == 1 { '1' }
    else if d == 2 { '2' }
    else if d == 3 { '3' }
    else if d == 4 { '4' }
    else if d == 5 { '5' }
    else if d == 6 { '6' }
    else if d == 7 { '7' }
    else if d == 8 { '8' }
    else { '9' }
}

/// Appends the decimal text of `n` to `out`.
fn push_decimal(n: u128, out: &mut Vec<char>)
    ensures
        final(out)@ == old(out)@ + spec_decimal(n as nat),
    decreases n,
{
    let ghost start = out@;
    if n >= 10 {
        push_decimal(n / 10, out);
    }
    out.push(digit_char(n % 10));
    proof {
        if n >= 10 {
            assert(out@ =~= start + spec_decimal(n as nat / 10).push(spec_digit_char(n as nat % 10)));
        } else {
            assert(out@ =~= start + seq![spec_digit_char(n as nat)]);
        }
    }
}

/// The decimal text of a `u128`, in base 10 without sign or leading zeros
/// (as `ToString::to_string` writes it).
pub(crate) fn u128_to_decimal(n: u128) -> (r: String)
    ensures
        r@ == spec_decimal(n as nat),
{
    let mut chars: Vec<char> = Vec::new();
    push_decimal(n, &mut chars);
    assert(chars@ =~= spec_decimal(n as nat));
    string_from_chars(&chars)
}

/// The value of a decimal digit character.
pub open spec fn spec_digit_value(c: char) -> nat {
    (c as u32 - '0' as u32) as nat
}

/// Whether every character of `s` is a decimal digit.
pub open spec fn spec_all_digits(s: Seq<char>) -> bool {
    forall|i: int| 0 <= i < s.len() ==> '0' <= #[trigger] s[i] <= '9'
}

/// The value of decimal digits.
pub open spec fn spec_digits_value(s: Seq<char>) -> nat
    decreases s.len(),
{
    if s.len() == 0 {
        0
    } else {
        spec_digits_value(s.drop_last()) * 10 + spec_digit_value(s.last())
    }
}

/// The digits of a number in decimal text: an optional `+` and at least one
/// digit.
pub open spec fn spec_decimal_digits(s: Seq<char>) -> Option<Seq<char>> {
    let d = if s.len() > 0 && s[0] == '+' { s.drop_first() } else { s };
    if d.len() > 0 && spec_all_digits(d) {
        Some(d)
    } else {
        None
    }
}

/// Parses decimal text as a `u128` (`u128::from_str`): an optional `+`, then
/// one or more ASCII digits, with a value that fits; anything else is an
/// error, whose message is left unsaid.
#[verifier::external_body]
pub(crate) fn parse_u128(s: &str) -> (r: Result<u128, String>)
    ensures
        r matches Ok(n) ==> spec_decimal_digits(s@) matches Some(d) && n == spec_digits_value(d),
        spec_decimal_digits(s@) matches Some(d) && spec_digits_value(d) <= u128::MAX ==> r is Ok,
{
    match s.parse::<u128>() {
        Ok(n) => Ok(n),
        Err(e) => Err(e.to_string()),
    }
}

/// A digit's character has the digit's value.
pub proof fn lemma_digit_char_value(k: nat)
    requires
        k < 10,
    ensures
        spec_digit_value(spec_digit_char(k)) == k,
        '0' <= spec_digit_char(k) <= '9',
{
    assert('0' as u32 == 48);
    assert('9' as u32 == 57);
    if k == 0 { assert('0' as u32 == 48); }
    else if k == 1 { assert('1' as u32 == 49); }
    else if k == 2 { assert('2' as u32 == 50); }
    else if k == 3 { assert('3' as u32 == 51); }
    else if k == 4 { assert('4' as u32 == 52); }
    else if k == 5 { assert('5' as u32 == 53); }
    else if k == 6 { assert('6' as u32 == 54); }
    else if k == 7 { assert('7' as u32 == 55); }
    else if k == 8 { assert('8' as u32 == 56); }
    else { assert('9' as u32 == 57); }
}

/// The decimal text of a number is digits whose value is the number.
pub proof fn lemma_decimal_round_trip(n: nat)
    ensures
        spec_decimal(n).len() > 0,
        spec_all_digits(spec_decimal(n)),
        spec_decimal(n)[0] != '+',
        spec_digits_value(spec_decimal(n)) == n,
        spec_decimal_digits(spec_decimal(n)) == Some(spec_decimal(n)),
    decreases n,
{
    if n < 10 {
        lemma_digit_char_value(n);
        assert(spec_decimal(n).drop_last() =~= Seq::<char>::empty());
        assert(spec_digits_value(spec_decimal(n)) == spec_digits_value(spec_decimal(n).drop_last()) * 10
            + spec_digit_value(spec_decimal(n).last()));
    } else {
        lemma_digit_char_value(n % 10);
        lemma_decimal_round_trip(n / 10);
        let d = spec_decimal(n);
        assert(d.drop_last() =~= spec_decimal(n / 10));
        assert(d[0] == spec_decimal(n / 10)[0]);
        assert(d.last() == spec_digit_char(n % 10));
        assert((n / 10) * 10 + n % 10 == n) by (nonlinear_arith);
        assert(spec_digits_value(d) == spec_digits_value(d.drop_last()) * 10 + spec_digit_value(d.last()));
    }
}

/// `10^k`.
pub open spec fn spec_pow10(k: nat) -> nat
    decreases k,
{
    if k == 0 {
        1
    } else {
        10 * spec_pow10((k - 1) as nat)
    }
}

/// A number below `10^k` has at most `k` decimal digits.
pub proof fn lemma_decimal_len(n: nat, k: nat)
    requires
        k >= 1,
        n < spec_pow10(k),
    ensures
        spec_decimal(n).len() <= k,
    decreases k,
{
    if n >= 10 {
        let p = spec_pow10((k - 1) as nat);
        assert(k >= 2) by {
            if k == 1 {
                assert(spec_pow10(0) == 1);
            }
        }
        assert(n / 10 < p) by (nonlinear_arith)
            requires
                n < 10 * p,
        ;
        lemma_decimal_len(n / 10, (k - 1) as nat);
    }
}

/// The decimal text of a `u128` has at most 39 digits.
pub proof fn lemma_u128_decimal_len(n: u128)
    ensures
        spec_decimal(n as nat).len() <= 39,
{
    assert(spec_pow10(39) == 1000000000000000000000000000000000000000nat) by {
        reveal_with_fuel(spec_pow10, 40);
    }
    lemma_decimal_len(n as nat, 39);
}

/// Whether two strings hold the same characters.
pub fn same_text(a: &str, b: &str) -> (r: bool)
    ensures
        r == (a@ == b@),
{
    let n = a.unicode_len();
    if n != b.unicode_len() {
        return false;
    }
    let mut i: usize = 0;
    while i < n
        invariant
            n == a@.len(),
            n == b@.len(),
            i <= n,
            forall|k: int| 0 <= k < i ==> a@[k] == b@[k],
        decreases n - i,
    {
        if a.get_char(i) != b.get_char(i) {
            return false;
        }
        i = i + 1;
    }
    assert(a@ =~= b@);
    true
}

/// `prefix`, the decimal text of `n`, and a closing bracket.
pub fn wrap_decimal(prefix: &str, n: u128) -> (r: String)
    ensures
        r@ == prefix@ + spec_decimal(n as nat) + seq![')'],
{
    let mut r = String::from_str(prefix);
    let d = u128_to_decimal(n);
    r.append(d.as_str());
    r.append(")");
    proof {
        reveal_strlit(")");
    }
    r
}

} // verus!

verus! {

/// The string of a sequence of characters (`String::from_iter`).
#[verifier::external_body]
pub(crate) fn string_from_chars(chars: &Vec<char>) -> (r: String)
    ensures
        r@ == chars@,
{
    chars.iter().collect()
}

/// Whether a character is alphabetic in Unicode (`char::is_alphabetic`).
pub uninterp spec fn spec_is_alphabetic(c: char) -> bool;

/// `char::is_alphabetic`: whether `c` has the Unicode `Alphabetic` property.
#[verifier::external_body]
pub(crate) fn is_alphabetic(c: char) -> (r: bool)
    ensures
        r == spec_is_alphabetic(c),
{
    c.is_alphabetic()
}

/// Whether a character is numeric in Unicode (`char::is_numeric`).
pub uninterp spec fn spec_is_numeric(c: char) -> bool;

/// `char::is_numeric`: whether `c` is in one of the Unicode numeric
/// categories.
#[verifier::external_body]
pub(crate) fn is_numeric(c: char) -> (r: bool)
    ensures
        r == spec_is_numeric(c),
{
    c.is_numeric()
}

/// The characters of a string, in order.
pub fn chars_of(s: &str) -> (r: Vec<char>)
    ensures
        r@ == s@,
{
    let len = s.unicode_len();
    let mut v: Vec<char> = Vec::new();
    let mut i: usize = 0;
    while i < len
        invariant
            i <= len,
            len == s@.len(),
            v@ == s@.take(i as int),
        decreases len - i,
    {
        v.push(s.get_char(i));
        assert(v@ =~= s@.take(i + 1));
        i = i + 1;
    }
    assert(s@.take(len as int) =~= s@);
    v
}

} // verus!
