use vstd::prelude::*;
use vstd::string::StringExecFns;
use core::time::Duration;
use crate::parse::parser::Parser;
use crate::parse::substr::{CharsCount, SubString};
use crate::parse::number::{NumberParser, spec_parse_number};
use crate::parse::ws::{spec_ws_run, ws_run};
use crate::parse::keyword::{Keywords, spec_first_keyword, spec_words, lemma_first_keyword};
use crate::text::{spec_decimal, u128_to_decimal};

verus! {

/// The length of `d` in nanoseconds (`Duration::as_nanos`).
pub uninterp spec fn spec_duration_nanos(d: Duration) -> int;

/// `Duration::from_secs`: a duration of `n` seconds.
#[verifier::external_body]
fn duration_from_secs(n: u64) -> (d: Duration)
    ensures
        spec_duration_nanos(d) == n * 1_000_000_000,
{
    Duration::from_secs(n)
}

/// `Duration::from_millis`: a duration of `n` milliseconds.
#[verifier::external_body]
fn duration_from_millis(n: u64) -> (d: Duration)
    ensures
        spec_duration_nanos(d) == n * 1_000_000,
{
    Duration::from_millis(n)
}

/// `Duration::from_micros`: a duration of `n` microseconds.
#[verifier::external_body]
fn duration_from_micros(n: u64) -> (d: Duration)
    ensures
        spec_duration_nanos(d) == n * 1_000,
{
    Duration::from_micros(n)
}

/// `Duration::from_nanos`: a duration of `n` nanoseconds.
#[verifier::external_body]
fn duration_from_nanos(n: u64) -> (d: Duration)
    ensures
        spec_duration_nanos(d) == n,
{
    Duration::from_nanos(n)
}

/// `Duration::as_nanos`: the whole length in nanoseconds.
#[verifier::external_body]
pub(crate) fn duration_as_nanos(d: &Duration) -> (r: u128)
    ensures
        r == spec_duration_nanos(*d),
{
    d.as_nanos()
}

/// `Duration::as_micros`: the whole number of microseconds.
#[verifier::external_body]
fn duration_as_micros(d: &Duration) -> (r: u128)
    ensures
        r == spec_duration_nanos(*d) / 1_000,
{
    d.as_micros()
}

/// `Duration::as_millis`: the whole number of milliseconds.
#[verifier::external_body]
fn duration_as_millis(d: &Duration) -> (r: u128)
    ensures
        r == spec_duration_nanos(*d) / 1_000_000,
{
    d.as_millis()
}

/// `Duration::as_secs`: the whole number of seconds.
#[verifier::external_body]
fn duration_as_secs(d: &Duration) -> (r: u64)
    ensures
        r == spec_duration_nanos(*d) / 1_000_000_000,
{
    d.as_secs()
}

/// The unit that follows the number of a duration.
#[derive(Debug, Clone, Copy, PartialEq, Eq, Structural)]
pub enum DurationSuff {
    Days,
    Hours,
    Minutes,
    Seconds,
    MilliSeconds,
    MicroSeconds,
    NanoSeconds,
}

/// How many seconds one unit is, for the units of a second or more.
pub open spec fn spec_suff_secs(s: DurationSuff) -> int {
    match s {
        DurationSuff::Days => 86400,
        DurationSuff::Hours => 3600,
        DurationSuff::Minutes => 60,
        _ => 1,
    }
}

/// How many nanoseconds one unit is.
pub open spec fn spec_suff_nanos(s: DurationSuff) -> int {
    match s {
        DurationSuff::MilliSeconds => 1_000_000,
        DurationSuff::MicroSeconds => 1_000,
        DurationSuff::NanoSeconds => 1,
        _ => spec_suff_secs(s) * 1_000_000_000,
    }
}

/// Whether `num` units make a number of seconds (or smaller units) that
/// fits in `u64`.
pub open spec fn spec_suff_fits(s: DurationSuff, num: int) -> bool {
    match s {
        DurationSuff::MilliSeconds | DurationSuff::MicroSeconds | DurationSuff::NanoSeconds => true,
        _ => num * spec_suff_secs(s) <= u64::MAX,
    }
}

impl DurationSuff {
    /// A duration of `num` of this unit.
    pub fn from(&self, num: u64) -> (r: Duration)
        requires
            spec_suff_fits(*self, num as int),
        ensures
            spec_duration_nanos(r) == num * spec_suff_nanos(*self),
    {
        match self {
            DurationSuff::Days => {
                assert(num * 60 * 60 * 24 * 1_000_000_000 == num * (86400 * 1_000_000_000)) by (nonlinear_arith);
                duration_from_secs(num * 60 * 60 * 24)
            },
            DurationSuff::Hours => {
                assert(num * 60 * 60 * 1_000_000_000 == num * (3600 * 1_000_000_000)) by (nonlinear_arith);
                duration_from_secs(num * 60 * 60)
            },
            DurationSuff::Minutes => {
                assert(num * 60 * 1_000_000_000 == num * (60 * 1_000_000_000)) by (nonlinear_arith);
                duration_from_secs(num * 60)
            },
            DurationSuff::Seconds => duration_from_secs(num),
            DurationSuff::MilliSeconds => duration_from_millis(num),
            DurationSuff::MicroSeconds => duration_from_micros(num),
            DurationSuff::NanoSeconds => duration_from_nanos(num),
        }
    }
}

/// The words of the units, longest first.
pub open spec fn spec_suffix_words() -> Seq<Seq<char>> {
    seq![
        "microseconds"@, "milliseconds"@, "nanoseconds"@, "microsecond"@, "millisecond"@,
        "nanosecond"@, "microsec"@, "millisec"@, "minutes"@, "nanosec"@, "seconds"@,
        "minute"@, "second"@, "hours"@, "mrsec"@, "days"@, "hour"@, "msec"@,
        "day"@, "min"@, "mrs"@, "sec"@, "ds"@, "hs"@, "ns"@, "ms"@
    ]
}

/// The units of [spec_suffix_words], in the same order.
pub open spec fn spec_suffix_units() -> Seq<DurationSuff> {
    seq![
        DurationSuff::MicroSeconds, DurationSuff::MilliSeconds, DurationSuff::NanoSeconds,
        DurationSuff::MicroSeconds, DurationSuff::MilliSeconds, DurationSuff::NanoSeconds,
        DurationSuff::MicroSeconds, DurationSuff::MilliSeconds, DurationSuff::Minutes,
        DurationSuff::NanoSeconds, DurationSuff::Seconds, DurationSuff::Minutes,
        DurationSuff::Seconds, DurationSuff::Hours, DurationSuff::MicroSeconds,
        DurationSuff::Days, DurationSuff::Hours, DurationSuff::MilliSeconds,
        DurationSuff::Days, DurationSuff::Minutes, DurationSuff::MicroSeconds,
        DurationSuff::Seconds, DurationSuff::Days, DurationSuff::Hours,
        DurationSuff::NanoSeconds, DurationSuff::MilliSeconds
    ]
}

/// The unit that `s` begins with and the length of its word.
pub open spec fn spec_suffix(s: Seq<char>) -> Option<(DurationSuff, nat)> {
    match spec_first_keyword(spec_suffix_words(), s, 0) {
        Some(j) => Some((spec_suffix_units()[j], spec_suffix_words()[j].len())),
        None => None,
    }
}

/// How many nanoseconds a unit word names, read from its first letters:
/// `n…` nanoseconds, `mic…` and `mr…` microseconds, `mil…` and `ms…`
/// milliseconds, `min…` minutes, `s…` seconds, `h…` hours, `d…` days; 0 for
/// any other word.
pub open spec fn spec_word_nanos(w: Seq<char>) -> int {
    if w.len() == 0 {
        0
    } else if w[0] == 'n' {
        1
    } else if w[0] == 's' {
        1_000_000_000
    } else if w[0] == 'h' {
        3_600_000_000_000
    } else if w[0] == 'd' {
        86_400_000_000_000
    } else if w[0] == 'm' && w.len() > 1 && w[1] == 'r' {
        1_000
    } else if w[0] == 'm' && w.len() > 1 && w[1] == 's' {
        1_000_000
    } else if w[0] == 'm' && w.len() > 2 && w[1] == 'i' && w[2] == 'c' {
        1_000
    } else if w[0] == 'm' && w.len() > 2 && w[1] == 'i' && w[2] == 'l' {
        1_000_000
    } else if w[0] == 'm' && w.len() > 2 && w[1] == 'i' && w[2] == 'n' {
        60_000_000_000
    } else {
        0
    }
}

proof fn lemma_suffix_table()
    ensures
        spec_suffix_words().len() == spec_suffix_units().len(),
        forall|j: int| 0 <= j < spec_suffix_words().len() ==> spec_suff_nanos(#[trigger] spec_suffix_units()[j]) == spec_word_nanos(spec_suffix_words()[j]),
{
        reveal_strlit("microseconds");
        reveal_strlit("milliseconds");
        reveal_strlit("nanoseconds");
        reveal_strlit("microsecond");
        reveal_strlit("millisecond");
        reveal_strlit("nanosecond");
        reveal_strlit("microsec");
        reveal_strlit("millisec");
        reveal_strlit("minutes");
        reveal_strlit("nanosec");
        reveal_strlit("seconds");
        reveal_strlit("minute");
        reveal_strlit("second");
        reveal_strlit("hours");
        reveal_strlit("mrsec");
        reveal_strlit("days");
        reveal_strlit("hour");
        reveal_strlit("msec");
        reveal_strlit("day");
        reveal_strlit("min");
        reveal_strlit("mrs");
        reveal_strlit("sec");
        reveal_strlit("ds");
        reveal_strlit("hs");
        reveal_strlit("ns");
        reveal_strlit("ms");
    assert(spec_suff_nanos(spec_suffix_units()[0]) == spec_word_nanos(spec_suffix_words()[0]));
    assert(spec_suff_nanos(spec_suffix_units()[1]) == spec_word_nanos(spec_suffix_words()[1]));
    assert(spec_suff_nanos(spec_suffix_units()[2]) == spec_word_nanos(spec_suffix_words()[2]));
    assert(spec_suff_nanos(spec_suffix_units()[3]) == spec_word_nanos(spec_suffix_words()[3]));
    assert(spec_suff_nanos(spec_suffix_units()[4]) == spec_word_nanos(spec_suffix_words()[4]));
    assert(spec_suff_nanos(spec_suffix_units()[5]) == spec_word_nanos(spec_suffix_words()[5]));
    assert(spec_suff_nanos(spec_suffix_units()[6]) == spec_word_nanos(spec_suffix_words()[6]));
    assert(spec_suff_nanos(spec_suffix_units()[7]) == spec_word_nanos(spec_suffix_words()[7]));
    assert(spec_suff_nanos(spec_suffix_units()[8]) == spec_word_nanos(spec_suffix_words()[8]));
    assert(spec_suff_nanos(spec_suffix_units()[9]) == spec_word_nanos(spec_suffix_words()[9]));
    assert(spec_suff_nanos(spec_suffix_units()[10]) == spec_word_nanos(spec_suffix_words()[10]));
    assert(spec_suff_nanos(spec_suffix_units()[11]) == spec_word_nanos(spec_suffix_words()[11]));
    assert(spec_suff_nanos(spec_suffix_units()[12]) == spec_word_nanos(spec_suffix_words()[12]));
    assert(spec_suff_nanos(spec_suffix_units()[13]) == spec_word_nanos(spec_suffix_words()[13]));
    assert(spec_suff_nanos(spec_suffix_units()[14]) == spec_word_nanos(spec_suffix_words()[14]));
    assert(spec_suff_nanos(spec_suffix_units()[15]) == spec_word_nanos(spec_suffix_words()[15]));
    assert(spec_suff_nanos(spec_suffix_units()[16]) == spec_word_nanos(spec_suffix_words()[16]));
    assert(spec_suff_nanos(spec_suffix_units()[17]) == spec_word_nanos(spec_suffix_words()[17]));
    assert(spec_suff_nanos(spec_suffix_units()[18]) == spec_word_nanos(spec_suffix_words()[18]));
    assert(spec_suff_nanos(spec_suffix_units()[19]) == spec_word_nanos(spec_suffix_words()[19]));
    assert(spec_suff_nanos(spec_suffix_units()[20]) == spec_word_nanos(spec_suffix_words()[20]));
    assert(spec_suff_nanos(spec_suffix_units()[21]) == spec_word_nanos(spec_suffix_words()[21]));
    assert(spec_suff_nanos(spec_suffix_units()[22]) == spec_word_nanos(spec_suffix_words()[22]));
    assert(spec_suff_nanos(spec_suffix_units()[23]) == spec_word_nanos(spec_suffix_words()[23]));
    assert(spec_suff_nanos(spec_suffix_units()[24]) == spec_word_nanos(spec_suffix_words()[24]));
    assert(spec_suff_nanos(spec_suffix_units()[25]) == spec_word_nanos(spec_suffix_words()[25]));
    assert forall|j: int| 0 <= j < spec_suffix_words().len() implies spec_suff_nanos(#[trigger] spec_suffix_units()[j]) == spec_word_nanos(spec_suffix_words()[j]) by {
    }
}

/// Each unit word names the unit it spells: the unit of the word that a
/// text begins with is as many nanoseconds as the word says by its first
/// letters ([spec_word_nanos]); so `sec`, `second` and `seconds` are
/// seconds, `min`, `minute` and `minutes` minutes, and so on.
pub proof fn lemma_unit_word_meaning(s: Seq<char>)
    ensures
        spec_suffix(s) matches Some((u, k)) ==> k <= s.len() && spec_suff_nanos(u) == spec_word_nanos(s.take(k as int))
            && spec_word_nanos(s.take(k as int)) > 0,
{
    lemma_first_keyword(spec_suffix_words(), s, 0);
    lemma_suffix_table();
    if let Some(j) = spec_first_keyword(spec_suffix_words(), s, 0) {
        assert(s.take(spec_suffix_words()[j].len() as int) == spec_suffix_words()[j]);
        assert(spec_suff_nanos(spec_suffix_units()[j]) > 0);
    }
}

/// The parser of the units.
fn suffix_parser() -> (r: Keywords<DurationSuff>)
    ensures
        spec_words(r.keywords@) == spec_suffix_words(),
        forall|j: int| 0 <= j < r.keywords@.len() ==> #[trigger] r.keywords@[j].1 == spec_suffix_units()[j],
        r.max_keyword_len != 0,
{
    let mut kw: Vec<(String, DurationSuff)> = Vec::new();
    kw.push((String::from_str("microseconds"), DurationSuff::MicroSeconds));
    kw.push((String::from_str("milliseconds"), DurationSuff::MilliSeconds));
    kw.push((String::from_str("nanoseconds"), DurationSuff::NanoSeconds));
    kw.push((String::from_str("microsecond"), DurationSuff::MicroSeconds));
    kw.push((String::from_str("millisecond"), DurationSuff::MilliSeconds));
    kw.push((String::from_str("nanosecond"), DurationSuff::NanoSeconds));
    kw.push((String::from_str("microsec"), DurationSuff::MicroSeconds));
    kw.push((String::from_str("millisec"), DurationSuff::MilliSeconds));
    kw.push((String::from_str("minutes"), DurationSuff::Minutes));
    kw.push((String::from_str("nanosec"), DurationSuff::NanoSeconds));
    kw.push((String::from_str("seconds"), DurationSuff::Seconds));
    kw.push((String::from_str("minute"), DurationSuff::Minutes));
    kw.push((String::from_str("second"), DurationSuff::Seconds));
    kw.push((String::from_str("hours"), DurationSuff::Hours));
    kw.push((String::from_str("mrsec"), DurationSuff::MicroSeconds));
    kw.push((String::from_str("days"), DurationSuff::Days));
    kw.push((String::from_str("hour"), DurationSuff::Hours));
    kw.push((String::from_str("msec"), DurationSuff::MilliSeconds));
    kw.push((String::from_str("day"), DurationSuff::Days));
    kw.push((String::from_str("min"), DurationSuff::Minutes));
    kw.push((String::from_str("mrs"), DurationSuff::MicroSeconds));
    kw.push((String::from_str("sec"), DurationSuff::Seconds));
    kw.push((String::from_str("ds"), DurationSuff::Days));
    kw.push((String::from_str("hs"), DurationSuff::Hours));
    kw.push((String::from_str("ns"), DurationSuff::NanoSeconds));
    kw.push((String::from_str("ms"), DurationSuff::MilliSeconds));
    assert(spec_words(kw@) =~= spec_suffix_words());
    Keywords { keywords: kw, max_keyword_len: 12 }
}

/// The number, the unit and the count of characters of a duration at the
/// start of `s`: a number, then white space and a unit, or else a number
/// directly followed by a unit.
pub open spec fn spec_duration_shape(s: Seq<char>) -> Option<(Seq<u8>, crate::parse::digit::DigitBase, DurationSuff, nat)> {
    match spec_parse_number(s) {
        None => None,
        Some((ds, b, k1)) => {
            let w = spec_ws_run(s.skip(k1 as int));
            let spaced = if w > 0 {
                spec_suffix(s.skip((k1 + w) as int))
            } else {
                None
            };
            match spaced {
                Some((suf, k3)) => Some((ds, b, suf, k1 + w + k3)),
                None => match spec_suffix(s.skip(k1 as int)) {
                    Some((suf, k3)) => Some((ds, b, suf, k1 + k3)),
                    None => None,
                },
            }
        },
    }
}

/// The duration in nanoseconds and the count of characters that
/// [DurationParser] gives for `s`: `None` when no duration is there, or its
/// number does not fit in `u64`, or the number of seconds it makes does not
/// fit in `u64`.
pub open spec fn spec_parse_duration(s: Seq<char>) -> Option<(int, nat)> {
    match spec_duration_shape(s) {
        None => None,
        Some((ds, b, suf, k)) => {
            match crate::parse::number::spec_fold_u128(ds, crate::parse::digit::spec_radix(b) as int, 0, 1) {
                Some(v) => if v <= u64::MAX && !crate::parse::number::spec_fold_u128_overflows(
                    ds,
                    crate::parse::digit::spec_radix(b) as int,
                    0,
                    1,
                ) && spec_suff_fits(suf, v) {
                    Some((v * spec_suff_nanos(suf), k))
                } else {
                    None
                },
                None => None,
            }
        },
    }
}

/// The unit at the start of `s` and the length of its word.
fn parse_suffix(suffixes: &Keywords<DurationSuff>, s: &str) -> (r: Option<(DurationSuff, usize)>)
    requires
        spec_words(suffixes.keywords@) == spec_suffix_words(),
        forall|j: int| 0 <= j < suffixes.keywords@.len() ==> #[trigger] suffixes.keywords@[j].1 == spec_suffix_units()[j],
        suffixes.max_keyword_len != 0,
    ensures
        match (r, spec_suffix(s@)) {
            (None, None) => true,
            (Some((a, n)), Some((b, m))) => a == b && n == m && n <= s@.len(),
            _ => false,
        },
{
    match suffixes.parse(s) {
        Some((suf, k)) => {
            let ghost j = spec_first_keyword(spec_words(suffixes.keywords@), s@, 0)->0;
            proof {
                lemma_first_keyword(spec_words(suffixes.keywords@), s@, 0);
            }
            assert(suffixes.keywords@[j].1 == spec_suffix_units()[j]);
            assert(spec_words(suffixes.keywords@)[j] == suffixes.keywords@[j].0@);
            Some((suf, k.0))
        },
        None => None,
    }
}

/// Parser of a duration: a number and a unit (`10 sec`, `10sec`, `5 ms`).
pub struct DurationParser;

impl Parser<Duration> for DurationParser {
    open spec fn accepts(&self, source: Seq<char>, result: Option<(Duration, CharsCount)>) -> bool {
        match (result, spec_parse_duration(source)) {
            (None, None) => true,
            (Some((d, c)), Some((nanos, k))) => spec_duration_nanos(d) == nanos && c.0 == k,
            _ => false,
        }
    }

    fn parse(&self, source: &str) -> (r: Option<(Duration, CharsCount)>) {
        let len = source.unicode_len();
        let (num, k1) = match NumberParser.parse(source) {
            None => {
                return None;
            },
            Some(p) => p,
        };
        let ghost s = source@;
        assert(spec_parse_number(s) == Some((num.digits@, num.base, k1.0 as nat)));
        let suffixes = suffix_parser();
        let w = ws_run(source, k1.0, len);
        let mut found: Option<(DurationSuff, usize)> = None;
        if w > 0 {
            let rest = source.substring_char(k1.0 + w, len);
            assert(rest@ =~= s.skip(k1.0 + w));
            match parse_suffix(&suffixes, rest) {
                Some((suf, k3)) => {
                    found = Some((suf, k1.0 + w + k3));
                },
                None => {},
            }
        }
        if found.is_none() {
            let rest = source.substring_char(k1.0, len);
            assert(rest@ =~= s.skip(k1.0 as int));
            match parse_suffix(&suffixes, rest) {
                Some((suf, k3)) => {
                    found = Some((suf, k1.0 + k3));
                },
                None => {},
            }
        }
        let (suf, count) = match found {
            None => {
                assert(spec_duration_shape(s) is None);
                return None;
            },
            Some(f) => f,
        };
        assert(spec_duration_shape(s) == Some((num.digits@, num.base, suf, count as nat)));
        if num.overflows_u128() {
            return None;
        }
        let v = match num.try_u64() {
            None => {
                return None;
            },
            Some(v) => v,
        };
        let fits = match suf {
            DurationSuff::Days => v <= u64::MAX / 86400,
            DurationSuff::Hours => v <= u64::MAX / 3600,
            DurationSuff::Minutes => v <= u64::MAX / 60,
            _ => true,
        };
        proof {
            let vi = v as int;
            assert(vi <= u64::MAX / 86400 ==> vi * 86400 <= u64::MAX) by (nonlinear_arith);
            assert(vi > u64::MAX / 86400 ==> vi * 86400 > u64::MAX) by (nonlinear_arith);
            assert(vi <= u64::MAX / 3600 ==> vi * 3600 <= u64::MAX) by (nonlinear_arith);
            assert(vi > u64::MAX / 3600 ==> vi * 3600 > u64::MAX) by (nonlinear_arith);
            assert(vi <= u64::MAX / 60 ==> vi * 60 <= u64::MAX) by (nonlinear_arith);
            assert(vi > u64::MAX / 60 ==> vi * 60 > u64::MAX) by (nonlinear_arith);
            assert(fits == spec_suff_fits(suf, vi));
        }
        if !fits {
            return None;
        }
        let d = suf.from(v);
        Some((d, CharsCount(count)))
    }
}

impl DurationParser {
    /// The text of a duration: its count of nanoseconds, microseconds,
    /// milliseconds or seconds, with that unit, where it has a remainder in
    /// the next unit (`10 ns`, `5 microsec`, `3 ms`, `2 sec`); else, where its
    /// minutes have a remainder in hours, its count of seconds followed by
    /// `minutes`; else, where its hours are not a multiple of 60, its hours
    /// (`7 hours`); else its whole days (`1 days`).
    pub fn to_string(duration: Duration) -> (r: String)
        ensures
            r@ == spec_duration_text(spec_duration_nanos(duration)),
    {
        let nanos = duration_as_nanos(&duration);
        if nanos % 1000 > 0 {
            return u128_to_decimal(nanos).concat(" ns");
        }
        let micros = duration_as_micros(&duration);
        if micros % 1000 > 0 {
            return u128_to_decimal(micros).concat(" microsec");
        }
        let millisec = duration_as_millis(&duration);
        if millisec % 1000 > 0 {
            return u128_to_decimal(millisec).concat(" ms");
        }
        let seconds = duration_as_secs(&duration);
        if seconds % 60 > 0 {
            return u128_to_decimal(seconds as u128).concat(" sec");
        }
        let minutes = seconds / 60;
        if minutes % 60 > 0 {
            return u128_to_decimal(seconds as u128).concat(" minutes");
        }
        let hours = minutes / 60;
        if hours % 60 > 0 {
            return u128_to_decimal(hours as u128).concat(" hours");
        }
        let days = hours / 24;
        u128_to_decimal(days as u128).concat(" days")
    }
}

/// The text that [DurationParser::to_string] gives for a duration of
/// `nanos` nanoseconds.
pub open spec fn spec_duration_text(nanos: int) -> Seq<char> {
    let micros = nanos / 1_000;
    let millis = nanos / 1_000_000;
    let secs = nanos / 1_000_000_000;
    let minutes = secs / 60;
    let hours = minutes / 60;
    if nanos % 1000 > 0 {
        spec_decimal(nanos as nat) + " ns"@
    } else if micros % 1000 > 0 {
        spec_decimal(micros as nat) + " microsec"@
    } else if millis % 1000 > 0 {
        spec_decimal(millis as nat) + " ms"@
    } else if secs % 60 > 0 {
        spec_decimal(secs as nat) + " sec"@
    } else if minutes % 60 > 0 {
        spec_decimal(secs as nat) + " minutes"@
    } else if hours % 60 > 0 {
        spec_decimal(hours as nat) + " hours"@
    } else {
        spec_decimal((hours / 24) as nat) + " days"@
    }
}

} // verus!

verus! {

/// The text of a duration reads back as that duration: it is a number, a
/// space and a unit word, and the number times what the word names
/// ([spec_word_nanos]) is the duration. Two kinds of duration are left out,
/// where the text does not read back: a whole number of minutes that is not
/// a whole number of hours, whose text is its count of seconds followed by
/// `minutes`; and a whole number of hours that is a multiple of 60 but not
/// of 24, whose text counts whole days.
pub proof fn lemma_duration_text_reads_back(nanos: nat)
    requires
        !(nanos % 60_000_000_000 == 0 && (nanos / 60_000_000_000) % 60 != 0),
        !(nanos % 3_600_000_000_000 == 0 && (nanos / 3_600_000_000_000) % 60 == 0 && (nanos
            / 3_600_000_000_000) % 24 != 0),
    ensures
        exists|v: nat, w: Seq<char>|
            spec_duration_text(nanos as int) == spec_decimal(v) + seq![' '] + w && v * spec_word_nanos(w) == nanos,
{
    reveal_strlit(" ns");
    reveal_strlit(" microsec");
    reveal_strlit(" ms");
    reveal_strlit(" sec");
    reveal_strlit(" hours");
    reveal_strlit(" days");
    let n = nanos as int;
    let micros = n / 1_000;
    let millis = n / 1_000_000;
    let secs = n / 1_000_000_000;
    let minutes = secs / 60;
    let hours = minutes / 60;
    assert(millis == micros / 1000);
    assert(secs == millis / 1000);
    assert(hours == n / 3_600_000_000_000);
    assert(minutes == n / 60_000_000_000);
    let (v, w): (nat, Seq<char>) = if n % 1000 > 0 {
        (nanos, seq!['n', 's'])
    } else if micros % 1000 > 0 {
        assert(micros * 1000 == n);
        (micros as nat, seq!['m', 'i', 'c', 'r', 'o', 's', 'e', 'c'])
    } else if millis % 1000 > 0 {
        assert(millis * 1_000_000 == n);
        (millis as nat, seq!['m', 's'])
    } else if secs % 60 > 0 {
        assert(secs * 1_000_000_000 == n);
        (secs as nat, seq!['s', 'e', 'c'])
    } else if minutes % 60 > 0 {
        assert(minutes * 60_000_000_000 == n);
        assert(false);
        (0, seq![])
    } else if hours % 60 > 0 {
        assert(hours * 3_600_000_000_000 == n);
        (hours as nat, seq!['h', 'o', 'u', 'r', 's'])
    } else {
        assert(hours * 3_600_000_000_000 == n);
        assert((hours / 24) * 86_400_000_000_000 == n);
        ((hours / 24) as nat, seq!['d', 'a', 'y', 's'])
    };
    assert(spec_duration_text(n) =~= spec_decimal(v) + seq![' '] + w);
}

} // verus!

verus! {

/// A duration read from a text is its number times what its unit word
/// names: the number's digits in their base ([spec_positional]) times
/// [spec_word_nanos] of the word that ends the duration, after the number.
pub proof fn lemma_parse_duration_value(s: Seq<char>)
    ensures
        spec_parse_duration(s) matches Some((ns, k)) ==> spec_parse_number(s) matches Some((ds, b, k1)) && exists|j: int|
            k1 <= j < k <= s.len() && ns == crate::parse::number::spec_positional(
                ds,
                crate::parse::digit::spec_radix(b) as int,
            ) * spec_word_nanos(s.subrange(j, k as int)),
{
    if let Some((ns, k)) = spec_parse_duration(s) {
        let (ds, b, k1) = spec_parse_number(s)->0;
        let radix = crate::parse::digit::spec_radix(b) as int;
        crate::parse::number::lemma_fold_positional(ds, radix, 0, 1);
        let (b0, p) = crate::parse::number::spec_number_prefix(s);
        crate::parse::number::lemma_digit_run_len(s.skip(p as int), b0);
        let w = spec_ws_run(s.skip(k1 as int));
        crate::parse::ws::lemma_ws_run_len(s.skip(k1 as int));
        let j: int = if w > 0 && spec_suffix(s.skip((k1 + w) as int)) is Some {
            (k1 + w) as int
        } else {
            k1 as int
        };
        let (suf, k3) = spec_suffix(s.skip(j))->0;
        lemma_unit_word_meaning(s.skip(j));
        assert(s.skip(j).take(k3 as int) =~= s.subrange(j, k as int));
        assert(ns == crate::parse::number::spec_positional(ds, radix) * spec_word_nanos(s.subrange(j, k as int)));
    }
}

} // verus!

verus! {

/// The two kinds of duration whose text does not read back: a whole number
/// of minutes that is not a whole number of hours is written as its count
/// of seconds followed by `minutes`; a whole number of hours that is a
/// multiple of 60 but not of 24 is written as its whole days, rounded down.
pub proof fn lemma_duration_text_other_counts(nanos: nat)
    ensures
        nanos % 60_000_000_000 == 0 && (nanos / 60_000_000_000) % 60 != 0 ==> exists|v: nat|
            spec_duration_text(nanos as int) == spec_decimal(v) + " minutes"@ && v * 1_000_000_000 == nanos,
        nanos % 3_600_000_000_000 == 0 && (nanos / 3_600_000_000_000) % 60 == 0 && (nanos / 3_600_000_000_000) % 24
            != 0 ==> exists|v: nat|
            spec_duration_text(nanos as int) == spec_decimal(v) + " days"@ && v * 86_400_000_000_000 <= nanos < (v + 1)
                * 86_400_000_000_000,
{
    let n = nanos as int;
    let micros = n / 1_000;
    let millis = n / 1_000_000;
    let secs = n / 1_000_000_000;
    let minutes = secs / 60;
    let hours = minutes / 60;
    assert(millis == micros / 1000);
    assert(secs == millis / 1000);
    assert(hours == n / 3_600_000_000_000);
    assert(minutes == n / 60_000_000_000);
    if nanos % 60_000_000_000 == 0 && (nanos / 60_000_000_000) % 60 != 0 {
        assert(secs * 1_000_000_000 == n);
        assert(spec_duration_text(n) == spec_decimal(secs as nat) + " minutes"@);
    }
    if nanos % 3_600_000_000_000 == 0 && (nanos / 3_600_000_000_000) % 60 == 0 && (nanos / 3_600_000_000_000) % 24 != 0 {
        let v = hours / 24;
        assert(hours * 3_600_000_000_000 == n);
        assert(v * 86_400_000_000_000 <= n < (v + 1) * 86_400_000_000_000);
        assert(spec_duration_text(n) == spec_decimal(v as nat) + " days"@);
    }
}

} // verus!
