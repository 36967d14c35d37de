use logs::parse::combo::{follow, repeat, FollowParser, ParseAdd};
use logs::parse::digit::{Digit, DigitParser};
use logs::parse::duration::DurationParser;
use logs::parse::keyword::KeywordsBuilder;
use logs::parse::number::NumberParser;
use logs::parse::parser::Parser;
use logs::parse::substr::{CharsCount, SubString};
use logs::parse::template::{Template, TemplateItem, TemplateParser};
use logs::parse::wildcard::{Wildcard, WildcardParser, WildcardToken};
use std::time::Duration;

#[test]
fn test1() {
    let parser = DurationParser;
    assert!(parser.parse("10 sec").unwrap().0 == Duration::from_secs(10));
    assert!(parser.parse("10sec").unwrap().0 == Duration::from_secs(10));
    assert!(parser.parse("10 ms").unwrap().0 == Duration::from_millis(10));
}

#[test]
fn duration_suffixes() {
    let parser = DurationParser;
    assert_eq!(parser.parse("2 min").unwrap().0, Duration::from_secs(120));
    assert_eq!(parser.parse("3 hours").unwrap().0, Duration::from_secs(3 * 3600));
    assert_eq!(parser.parse("1 day").unwrap().0, Duration::from_secs(86400));
    assert!(parser.parse("sec").is_none());
}

#[test]
fn duration_to_string_round_trip() {
    let parser = DurationParser;
    let d = Duration::from_secs(3661);
    let text = DurationParser::to_string(d);
    println!("{text}");
    assert!(!text.is_empty());
}

#[test]
fn test_follow_1() {
    let str = "123";

    let parser1 = DigitParser::parser();
    let parser2 = DigitParser::parser();
    let parser = FollowParser::new(parser1, parser2);

    let res = parser.parse(str);
    assert!(res == Some(((Digit(1), Digit(2)), CharsCount(2))))
}

#[test]
fn test_follow_2() {
    let str = "123";

    let parser1 = DigitParser::parser();
    let parser2 = DigitParser::parser();
    let parser = follow(parser1, parser2);

    let res = parser.parse(str);
    assert!(res == Some(((Digit(1), Digit(2)), CharsCount(2))))
}

#[test]
fn test_follow_3() {
    let str = "123";

    let parser1 = DigitParser::parser();
    let parser2 = DigitParser::parser();
    let parser = parser1.follow(&parser2);

    let res = parser.parse(str);
    assert!(res == Some(((Digit(1), Digit(2)), CharsCount(2))))
}

#[test]
fn follow_fails_when_second_fails() {
    let parser = follow(DigitParser::parser(), DigitParser::parser());
    assert!(parser.parse("1a").is_none());
    assert!(parser.parse("").is_none());
}

#[derive(Clone, Debug, PartialEq)]
enum Op {
    Add,
    Sub,
    Add2,
}

#[test]
fn test_kw_parse() {
    let kw_parser = KeywordsBuilder::new("add", &Op::Add)
        .add("+", &Op::Add)
        .add("sub", &Op::Sub)
        .add("-", &Op::Sub)
        .add("++", &Op::Add2)
        .build();

    let res = kw_parser.parse("add");
    println!("{:?}", res);
    assert!(res == Some((Op::Add, CharsCount(3))));

    let res = kw_parser.parse("+");
    println!("{:?}", res);
    assert!(res == Some((Op::Add, CharsCount(1))));

    let res = kw_parser.parse("++");
    println!("{:?}", res);
    assert!(res == Some((Op::Add2, CharsCount(2))));
}

#[test]
fn keyword_longest_first_and_missing() {
    let kw_parser = KeywordsBuilder::new("-", &Op::Sub).add("--", &Op::Add2).build();
    assert!(kw_parser.parse("--x") == Some((Op::Add2, CharsCount(2))));
    assert!(kw_parser.parse("-x") == Some((Op::Sub, CharsCount(1))));
    assert!(kw_parser.parse("x").is_none());
}

#[test]
fn test_map_1() {
    let str = "123";

    let parser1 = DigitParser::parser();
    let parser2 = DigitParser::parser();
    let parser = FollowParser::new(parser1, parser2);
    let parser = parser.parser();
    let parser = logs::parse::combo::map(parser, |p: &(Digit, Digit)| p.0 .0 + p.1 .0);

    let res = parser.parse(str);
    assert!(res == Some((3u8, CharsCount(2))))
}

#[test]
fn test_number() {
    let parser = NumberParser {};
    let res = parser.parse("123 as");
    println!("{res:?}");

    let (num, _) = res.unwrap();
    println!("{:?}", num.try_u128());
    assert!(num.try_u32() == Some(123u32));

    let res = parser.parse("0xFe");
    let (num, _) = res.unwrap();
    println!("{:?}", num.try_u128());
    assert!(num.try_u32() == Some(254u32));
}

#[test]
fn number_bases_and_overflow() {
    let parser = NumberParser {};
    let (num, cc) = parser.parse("0b101").unwrap();
    assert_eq!(num.try_u32(), Some(5));
    assert_eq!(cc, CharsCount(5));
    let (num, _) = parser.parse("0o17").unwrap();
    assert_eq!(num.try_u32(), Some(15));
    let (num, _) = parser.parse("4294967296").unwrap();
    assert_eq!(num.try_u32(), None);
    assert_eq!(num.try_u64(), Some(4294967296));
    assert!(parser.parse("abc").is_none());
}

#[test]
fn repeat_test() {
    let parser1 = DigitParser::parser();
    let parser2 = repeat(parser1, None, None);

    let res = parser2.parse("123");
    println!("{res:?}");
    assert_eq!(Some((vec![Digit(1), Digit(2), Digit(3),], CharsCount(3))), res);
}

#[test]
fn repeat_bounds() {
    let at_least_four = repeat(DigitParser::parser(), Some(4), None);
    assert!(at_least_four.parse("123").is_none());
    let at_most_two = repeat(DigitParser::parser(), None, Some(2));
    assert_eq!(at_most_two.parse("123"), Some((vec![Digit(1), Digit(2)], CharsCount(2))));
}

#[test]
fn test_substr() {
    let str = "abc".to_string();
    let str = &str[..];

    let res = str.substring(CharsCount(1));
    println!("{:?}", res);
    assert!(res == Some("bc"));

    let res = str.substring(CharsCount(2));
    println!("{:?}", res);
    assert!(res == Some("c"));

    let res = str.substring(CharsCount(3));
    println!("{:?}", res);
    assert!(res == Some(""));

    let res = str.substring(CharsCount(4));
    println!("{:?}", res);
    assert!(res == None);
}

#[test]
fn substr_counts_chars_not_bytes() {
    let s = "жук";
    assert_eq!(s.substring(CharsCount(1)), Some("ук"));
    assert_eq!(s.substring(CharsCount(3)), Some(""));
}

#[test]
fn parse_test() {
    let (tmpl, _) = TemplateParser::default().parse("src $id-a.b_y x ${ aa {b} } d").unwrap();
    println!("{tmpl:?}");
}

#[test]
fn to_string_test() {
    let (tmpl, _) = TemplateParser::default().parse("sample $a and $b").unwrap();
    let str = tmpl.to_string(|code: &str| match code {
        "a" => format!("aa"),
        "b" => format!("bb"),
        _ => "".to_string(),
    });
    println!("{str}");
}

fn item_texts(t: &Template) -> Vec<(bool, String)> {
    t.values
        .iter()
        .map(|i| match i {
            TemplateItem::PlainText(s) => (false, s.clone()),
            TemplateItem::Code(s) => (true, s.clone()),
        })
        .collect()
}

#[test]
fn template_items() {
    let (tmpl, _) = TemplateParser::default().parse("sample $a and $b").unwrap();
    assert_eq!(
        item_texts(&tmpl),
        vec![
            (false, "sample ".to_string()),
            (true, "a".to_string()),
            (false, " and ".to_string()),
            (true, "b".to_string()),
        ]
    );
    let str = tmpl.to_string(|code: &str| match code {
        "a" => format!("aa"),
        "b" => format!("bb"),
        _ => "".to_string(),
    });
    assert_eq!(str, "sample aa and bb");
}

#[test]
fn template_braced_code() {
    let (tmpl, _) = TemplateParser::default().parse("x ${ aa {b} } d").unwrap();
    assert_eq!(
        item_texts(&tmpl),
        vec![(false, "x ".to_string()), (true, " aa {b} ".to_string()), (false, " d".to_string()),]
    );
}

#[test]
fn parse_wildcard_test() {
    let (wc, _) = WildcardParser::new().parse("12*a?c**d").unwrap();
    println!("aaa");
    println!("{wc:?}");
    assert!(
        wc == Wildcard {
            seq: vec![
                WildcardToken::PlainText("12".to_string()),
                WildcardToken::MultipleAnyChar,
                WildcardToken::PlainText("a".to_string()),
                WildcardToken::OneAnyChar,
                WildcardToken::PlainText("c".to_string()),
                WildcardToken::MultipleAnyChar,
                WildcardToken::PlainText("d".to_string()),
            ]
        }
    )
}

#[derive(Debug, Clone, Copy)]
struct Sample {
    pattern: &'static str,
    sample: &'static str,
    expect: bool,
}

#[test]
fn wildcard_test() {
    let samples = vec![
        Sample { pattern: "*", sample: "abXXrd", expect: true },
        Sample { pattern: "*log*rs", sample: "./target/doc/logs_tools/actions/viewheaders", expect: true },
        Sample { pattern: "ab???cd", sample: "abXXXcd", expect: true },
        Sample {
            pattern: "*log*rs",
            sample: "./target/debug/incremental/logs-172hjs3xscjc0/s-glbyyu88xb-1rdcwv3-1q7l0skrhptjq/2e8lrs8qt1qb18xz.o",
            expect: false,
        },
        Sample { pattern: "ab*cd", sample: "abXXXcd", expect: true },
        Sample { pattern: "ab*??cd", sample: "abXXXcd", expect: true },
        Sample { pattern: "ab*cd", sample: "abXXrd", expect: false },
        Sample { pattern: "", sample: "abXXrd", expect: false },
        Sample { pattern: "", sample: "", expect: true },
    ];

    for sample in samples {
        let (wc, _) = WildcardParser::new().parse(sample.pattern).unwrap();
        println!(
            "pattern \"{ptrn}\" sample \"{sample}\" expect {expect}",
            ptrn = sample.pattern,
            sample = sample.sample,
            expect = sample.expect,
        );
        let actual = wc.test(sample.sample);
        println!(" actual {actual}");
        assert!(actual == sample.expect)
    }
}

#[test]
fn star_takes_any_run() {
    let (wc, _) = WildcardParser::new().parse("*a").unwrap();
    assert!(wc.test("aba"));
    assert!(wc.test("a"));
    assert!(!wc.test("ab"));
    let (wc2, _) = WildcardParser::new().parse("a*b?c").unwrap();
    assert!(wc2.test("abxbyc"));
    assert!(!wc2.test("abxbc"));
}

#[test]
fn template_counts_chars() {
    let (_, cc) = TemplateParser::default().parse("sample $a and $b").unwrap();
    assert_eq!(cc.0, 16);
}

#[test]
fn duration_text_units() {
    assert_eq!(DurationParser::to_string(Duration::from_nanos(7)), "7 ns");
    assert_eq!(DurationParser::to_string(Duration::from_micros(5)), "5 microsec");
    assert_eq!(DurationParser::to_string(Duration::from_millis(3)), "3 ms");
    assert_eq!(DurationParser::to_string(Duration::from_secs(2)), "2 sec");
    assert_eq!(DurationParser::to_string(Duration::from_secs(240)), "240 minutes");
    assert_eq!(DurationParser::to_string(Duration::from_secs(7 * 3600)), "7 hours");
    assert_eq!(DurationParser::to_string(Duration::from_secs(24 * 3600)), "24 hours");
    assert_eq!(DurationParser::to_string(Duration::from_secs(60 * 3600)), "2 days");
    let parser = DurationParser;
    for d in [Duration::from_nanos(7), Duration::from_millis(3), Duration::from_secs(7 * 3600)] {
        let text = DurationParser::to_string(d);
        assert_eq!(parser.parse(&text).unwrap().0, d, "{text}");
    }
}

#[test]
fn number_conversion_stops_when_power_overflows() {
    let (num, _) = NumberParser.parse("0x10").unwrap();
    assert_eq!(num.try_u128(), Some(16));
    let ones = format!("0b{}", "1".repeat(127));
    let (num, _) = NumberParser.parse(&ones).unwrap();
    assert_eq!(num.try_u128(), Some(u128::MAX >> 1));
    let ones = format!("0b{}", "1".repeat(128));
    let (num, _) = NumberParser.parse(&ones).unwrap();
    assert_eq!(num.try_u128(), None);
    let zeros = format!("0b{}1", "0".repeat(200));
    let (num, _) = NumberParser.parse(&zeros).unwrap();
    assert_eq!(num.try_u128(), None);
    let big = format!("1{}", "0".repeat(38));
    let (num, _) = NumberParser.parse(&big).unwrap();
    assert_eq!(num.try_u128(), None);
}

#[test]
fn template_fold_concat_is_to_string() {
    let (tmpl, _) = TemplateParser::default().parse("sample $a and ${b} end").unwrap();
    let f = |code: &str| format!("<{code}>");
    let folded = tmpl.fold(&String::new(), |acc: &String, c: &str| acc.clone() + &f(c), |acc: &String, s: &str| acc.clone() + s);
    assert_eq!(folded, tmpl.to_string(f));
    assert_eq!(folded, "sample <a> and <b> end");
    let count = tmpl.fold(&0usize, |n: &usize, _c: &str| n + 1, |n: &usize, _s: &str| *n);
    assert_eq!(count, 2);
}

#[test]
fn and_then_maps_the_source_value() {
    let p = logs::parse::combo::and_then(NumberParser, |n: &logs::parse::number::Number| n.try_u32().filter(|v| *v < 100));
    assert_eq!(p.parse("42 rest").map(|(v, c)| (v, c.0)), Some((42u32, 2)));
    assert_eq!(p.parse("420"), None);
    assert_eq!(p.parse("x"), None);
}

#[test]
fn template_to_string_takes_stateful_closure() {
    let (tmpl, _) = TemplateParser::default().parse("$a $b $c").unwrap();
    let mut seen = 0;
    let s = tmpl.to_string(|code: &str| {
        seen += 1;
        format!("{code}{seen}")
    });
    assert_eq!(s, "a1 b2 c3");
    assert_eq!(seen, 3);
}
