use vstd::prelude::*;
use core::marker::PhantomData;
use crate::parse::parser::Parser;
use crate::parse::substr::{CharsCount, SubString};

verus! {

/// Two parsers in sequence: the second one reads where the first one stops.
pub struct FollowParser<P1, P2> {
    pub first: P1,
    pub second: P2,
}

impl<P1, P2> FollowParser<P1, P2> {
    /// The sequence of `p1` then `p2`.
    pub fn new(p1: P1, p2: P2) -> (r: Self)
        ensures
            r.first == p1,
            r.second == p2,
    {
        FollowParser { first: p1, second: p2 }
    }

    /// This parser as a value.
    pub fn parser(self) -> (r: Self)
        ensures
            r == self,
    {
        self
    }
}

/// The sequence of two parsers.
pub fn follow<P1, P2>(left: P1, right: P2) -> (r: FollowParser<P1, P2>)
    ensures
        r.first == left,
        r.second == right,
{
    FollowParser { first: left, second: right }
}

impl<P1, P2> FollowParser<P1, P2> {
    /// `result` is what the first parser gives for `source` taking `c1`
    /// characters, followed by what the second gives for the rest.
    pub open spec fn followed<A, B>(&self, source: Seq<char>, c1: CharsCount, result: Option<((A, B), CharsCount)>) -> bool
        where P1: Parser<A>, P2: Parser<B>
    {
        match result {
            Some(((a, b), c)) => {
                &&& c1.0 <= source.len()
                &&& c1.0 <= c.0
                &&& self.first.accepts(source, Some((a, c1)))
                &&& self.second.accepts(source.skip(c1.0 as int), Some((b, CharsCount((c.0 - c1.0) as usize))))
            },
            None => false,
        }
    }

    /// The first parser gives `a` taking `c1` characters, and the second one
    /// recognises nothing after it.
    pub open spec fn second_fails<A, B>(&self, source: Seq<char>, a: A, c1: CharsCount) -> bool
        where P1: Parser<A>, P2: Parser<B>
    {
        &&& self.first.accepts(source, Some((a, c1)))
        &&& c1.0 <= source.len()
        &&& self.second.accepts(source.skip(c1.0 as int), None)
    }
}

impl<A, B, P1: Parser<A>, P2: Parser<B>> Parser<(A, B)> for FollowParser<P1, P2> {
    open spec fn accepts(&self, source: Seq<char>, result: Option<((A, B), CharsCount)>) -> bool {
        match result {
            None => {
                ||| self.first.accepts(source, None)
                ||| exists|a: A, c1: CharsCount| #[trigger] self.second_fails::<A, B>(source, a, c1)
            },
            Some(_) => exists|c1: CharsCount| #[trigger] self.followed(source, c1, result),
        }
    }

    fn parse(&self, source: &str) -> (r: Option<((A, B), CharsCount)>) {
        match self.first.parse(source) {
            Some((t1, cc1)) => {
                match source.substring(cc1) {
                    Some(next_source) => {
                        match self.second.parse(next_source) {
                            Some((t2, cc2)) => {
                                let cc = cc1.add(cc2);
                                let r = Some(((t1, t2), cc));
                                assert(self.followed(source@, cc1, r));
                                r
                            },
                            None => {
                                assert(self.second_fails::<A, B>(source@, t1, cc1));
                                None
                            },
                        }
                    },
                    None => None,
                }
            },
            None => None,
        }
    }
}

/// Adds a parser after this one.
pub trait ParseAdd<P>: Sized {
    fn follow(self, other: P) -> FollowParser<Self, P>;
}

impl<S, P> ParseAdd<P> for S {
    /// The sequence of this parser and then `other`.
    fn follow(self, other: P) -> (r: FollowParser<S, P>)
        ensures
            r.first == self,
            r.second == other,
    {
        FollowParser { first: self, second: other }
    }
}

/// A parser whose result is mapped by a function.
#[verifier::reject_recursive_types(A)]
#[verifier::reject_recursive_types(B)]
pub struct ResultMapperParser<P, F: Fn(&A) -> B, A, B> {
    source: P,
    mapper: F,
    _p: PhantomData<(A, B)>,
}

impl<P, F: Fn(&A) -> B, A, B> ResultMapperParser<P, F, A, B> {
    /// The mapper accepts every value.
    #[verifier::type_invariant]
    spec fn mapper_total(self) -> bool {
        forall|a: &A| #[trigger] self.mapper.requires((a,))
    }

    /// The parser whose result is mapped.
    pub closed spec fn spec_source(&self) -> P {
        self.source
    }

    /// The function that maps the result.
    pub closed spec fn spec_mapper(&self) -> F {
        self.mapper
    }

}

impl<P: Parser<A>, F: Fn(&A) -> B, A, B> ResultMapperParser<P, F, A, B> {
    /// `result` holds the mapped value of `a`, which the source gives for
    /// `source`, and the count of characters that the source takes.
    pub open spec fn mapped_from(&self, source: Seq<char>, a: A, result: Option<(B, CharsCount)>) -> bool {
        match result {
            Some((b, c)) => self.spec_source().accepts(source, Some((a, c))) && self.spec_mapper().ensures((&a,), b),
            None => false,
        }
    }
}

/// `source` with its result mapped by `f`.
pub fn map<A, B, P: Parser<A>, F: Fn(&A) -> B>(source: P, f: F) -> (r: ResultMapperParser<P, F, A, B>)
    requires
        forall|a: &A| #[trigger] f.requires((a,)),
    ensures
        r.spec_source() == source,
        r.spec_mapper() == f,
{
    ResultMapperParser { source, mapper: f, _p: PhantomData }
}

impl<A, B, P: Parser<A>, F: Fn(&A) -> B> Parser<B> for ResultMapperParser<P, F, A, B> {
    open spec fn accepts(&self, source: Seq<char>, result: Option<(B, CharsCount)>) -> bool {
        match result {
            None => self.spec_source().accepts(source, None),
            Some(_) => exists|a: A| #[trigger] self.mapped_from(source, a, result),
        }
    }

    fn parse(&self, source: &str) -> (r: Option<(B, CharsCount)>) {
        proof {
            use_type_invariant(self);
        }
        match self.source.parse(source) {
            Some((src, cc)) => {
                let dest = (self.mapper)(&src);
                let ghost g = src;
                assert(self.spec_source().accepts(source@, Some((g, cc))));
                assert(self.mapped_from(source@, g, Some((dest, cc))));
                Some((dest, cc))
            },
            None => {
                assert(self.accepts(source@, None));
                None
            },
        }
    }
}

/// A parser whose result goes through a function that may reject it.
#[verifier::reject_recursive_types(A)]
#[verifier::reject_recursive_types(B)]
pub struct ResultAndThenParser<P, F: Fn(&A) -> Option<B>, A, B> {
    source: P,
    mapper: F,
    _p: PhantomData<(A, B)>,
}

impl<P, F: Fn(&A) -> Option<B>, A, B> ResultAndThenParser<P, F, A, B> {
    /// The mapper accepts every value.
    #[verifier::type_invariant]
    spec fn mapper_total(self) -> bool {
        forall|a: &A| #[trigger] self.mapper.requires((a,))
    }

    /// The parser whose result is mapped.
    pub closed spec fn spec_source(&self) -> P {
        self.source
    }

    /// The function that maps the result.
    pub closed spec fn spec_mapper(&self) -> F {
        self.mapper
    }
}

impl<P: Parser<A>, F: Fn(&A) -> Option<B>, A, B> ResultAndThenParser<P, F, A, B> {
    /// `result` holds the value that the function gives for `a`, which the
    /// source gives for `source`, and the count of characters that the source
    /// takes.
    pub open spec fn mapped_from(&self, source: Seq<char>, a: A, result: Option<(B, CharsCount)>) -> bool {
        match result {
            Some((b, c)) => self.spec_source().accepts(source, Some((a, c))) && self.spec_mapper().ensures((&a,), Some(b)),
            None => false,
        }
    }

    /// The source gives `a` taking `c` characters and the function rejects it.
    pub open spec fn rejected(&self, source: Seq<char>, a: A, c: CharsCount) -> bool {
        self.spec_source().accepts(source, Some((a, c))) && self.spec_mapper().ensures((&a,), None)
    }
}

/// Where the source gives one result for `source` (`src`) and the function
/// one value for each input (`g` of it), the mapped parser gives what `g`
/// makes of the source's value, with the source's count of characters;
/// nothing where the source gives nothing or `g` rejects its value.
pub proof fn lemma_and_then_maps<A, B, P: Parser<A>, F: Fn(&A) -> Option<B>>(
    p: ResultAndThenParser<P, F, A, B>,
    source: Seq<char>,
    src: Option<(A, CharsCount)>,
    g: spec_fn(A) -> Option<B>,
    r: Option<(B, CharsCount)>,
)
    requires
        forall|o: Option<(A, CharsCount)>| #[trigger] p.spec_source().accepts(source, o) ==> o == src,
        forall|a: &A, o: Option<B>| #[trigger] p.spec_mapper().ensures((a,), o) ==> o == g(*a),
        p.accepts(source, r),
    ensures
        r == (match src {
            Some((a, c)) => match g(a) {
                Some(b) => Some((b, c)),
                None => None,
            },
            None => None,
        }),
{
    match r {
        Some(_) => {
            let a = choose|a: A| #[trigger] p.mapped_from(source, a, r);
            let (b, c) = r->0;
            assert(p.spec_source().accepts(source, Some((a, c))));
            assert(p.spec_mapper().ensures((&a,), Some(b)));
        },
        None => {
            if !p.spec_source().accepts(source, None) {
                let (a, c) = choose|a: A, c: CharsCount| #[trigger] p.rejected(source, a, c);
                assert(p.spec_source().accepts(source, Some((a, c))));
                assert(p.spec_mapper().ensures((&a,), None));
            }
        },
    }
}

/// `source` with its result mapped by `f`, failing where `f` gives `None`.
pub fn and_then<A, B, P: Parser<A>, F: Fn(&A) -> Option<B>>(source: P, f: F) -> (r: ResultAndThenParser<P, F, A, B>)
    requires
        forall|a: &A| #[trigger] f.requires((a,)),
    ensures
        r.spec_source() == source,
        r.spec_mapper() == f,
{
    ResultAndThenParser { source, mapper: f, _p: PhantomData }
}

impl<A, B, P: Parser<A>, F: Fn(&A) -> Option<B>> Parser<B> for ResultAndThenParser<P, F, A, B> {
    open spec fn accepts(&self, source: Seq<char>, result: Option<(B, CharsCount)>) -> bool {
        match result {
            None => {
                ||| self.spec_source().accepts(source, None)
                ||| exists|a: A, c: CharsCount| #[trigger] self.rejected(source, a, c)
            },
            Some(_) => exists|a: A| #[trigger] self.mapped_from(source, a, result),
        }
    }

    fn parse(&self, source: &str) -> (r: Option<(B, CharsCount)>) {
        proof {
            use_type_invariant(self);
        }
        match self.source.parse(source) {
            Some((src, cc)) => {
                let dest = (self.mapper)(&src);
                let ghost g = src;
                match dest {
                    Some(v) => {
                        let r = Some((v, cc));
                        assert(self.mapped_from(source@, g, r));
                        r
                    },
                    None => {
                        assert(self.rejected(source@, g, cc));
                        None
                    },
                }
            },
            None => None,
        }
    }
}

} // verus!

verus! {

/// The sum of a sequence of character counts.
pub open spec fn spec_sum_counts(counts: Seq<CharsCount>) -> int
    decreases counts.len(),
{
    if counts.len() == 0 {
        0
    } else {
        spec_sum_counts(counts.drop_last()) + counts.last().0
    }
}

/// A parser applied again and again, each time where the last one stopped.
pub struct Repeat<P: Parser<A>, A> {
    parser: P,
    min_match_count: Option<usize>,
    max_match_count: Option<usize>,
    _p: PhantomData<A>,
}

impl<P: Parser<A>, A> Repeat<P, A> {
    /// Without an upper bound, the parser never succeeds without taking a
    /// character (otherwise the repetition would not end).
    #[verifier::type_invariant]
    spec fn ends(self) -> bool {
        self.max_match_count is None ==> forall|s: Seq<char>, a: A|
            !#[trigger] self.parser.accepts(s, Some((a, CharsCount(0))))
    }

    /// The repeated parser.
    pub closed spec fn spec_parser(&self) -> P {
        self.parser
    }

    /// The least number of repetitions, if any.
    pub closed spec fn spec_min(&self) -> Option<usize> {
        self.min_match_count
    }

    /// The greatest number of repetitions, if any.
    pub closed spec fn spec_max(&self) -> Option<usize> {
        self.max_match_count
    }

    /// The parser gives `items[i]`, taking `counts[i]` characters, where the
    /// previous repetitions stopped.
    pub open spec fn step(&self, source: Seq<char>, items: Seq<A>, counts: Seq<CharsCount>, i: int) -> bool {
        &&& spec_sum_counts(counts.take(i)) + counts[i].0 <= source.len()
        &&& self.spec_parser().accepts(
            source.skip(spec_sum_counts(counts.take(i))),
            Some((items[i], counts[i])),
        )
    }

    /// Each repetition of `items` is a step of the run.
    pub open spec fn run(&self, source: Seq<char>, items: Seq<A>, counts: Seq<CharsCount>) -> bool {
        &&& items.len() == counts.len()
        &&& forall|i: int| 0 <= i < items.len() ==> #[trigger] self.step(source, items, counts, i)
    }

    /// After `items`, the repetition stops: the upper bound is reached, or
    /// the parser recognises nothing more.
    pub open spec fn stops(&self, source: Seq<char>, items: Seq<A>, counts: Seq<CharsCount>) -> bool {
        ||| (self.spec_max() matches Some(m) && items.len() == m)
        ||| ((self.spec_max() matches Some(m) ==> items.len() < m) && self.spec_parser().accepts(
            source.skip(spec_sum_counts(counts)),
            None,
        ))
    }

    /// A whole repetition over `source` that gives `result`.
    pub open spec fn repeats(
        &self,
        source: Seq<char>,
        items: Seq<A>,
        counts: Seq<CharsCount>,
        result: Option<(Vec<A>, CharsCount)>,
    ) -> bool {
        &&& self.run(source, items, counts)
        &&& self.stops(source, items, counts)
        &&& if self.spec_min() matches Some(mi) && items.len() < mi {
            result is None
        } else {
            result matches Some((v, c)) && v@ == items && c.0 == spec_sum_counts(counts)
        }
    }
}

/// `element_parser` repeated at least `min_count` and at most `max_count`
/// times.
pub fn repeat<P: Parser<A>, A>(element_parser: P, min_count: Option<usize>, max_count: Option<usize>) -> (r: Repeat<P, A>)
    requires
        max_count is None ==> forall|s: Seq<char>, a: A|
            !#[trigger] element_parser.accepts(s, Some((a, CharsCount(0)))),
    ensures
        r.spec_parser() == element_parser,
        r.spec_min() == min_count,
        r.spec_max() == max_count,
{
    Repeat { parser: element_parser, min_match_count: min_count, max_match_count: max_count, _p: PhantomData }
}

impl<P: Parser<A>, A> Parser<Vec<A>> for Repeat<P, A> {
    open spec fn accepts(&self, source: Seq<char>, result: Option<(Vec<A>, CharsCount)>) -> bool {
        exists|items: Seq<A>, counts: Seq<CharsCount>| #[trigger] self.repeats(source, items, counts, result)
    }

    fn parse(&self, source: &str) -> (r: Option<(Vec<A>, CharsCount)>) {
        proof {
            use_type_invariant(self);
        }
        let mut res: Vec<A> = Vec::new();
        let mut src: &str = source;
        let mut ccount = CharsCount(0);
        let ghost mut counts: Seq<CharsCount> = Seq::empty();
        let total = source.unicode_len();
        loop
            invariant
                total == source@.len(),
                self.max_match_count is None ==> forall|s: Seq<char>, a: A|
                    !#[trigger] self.parser.accepts(s, Some((a, CharsCount(0)))),
                self.run(source@, res@, counts),
                ccount.0 == spec_sum_counts(counts),
                ccount.0 <= total,
                src@ == source@.skip(ccount.0 as int),
                self.max_match_count matches Some(m) ==> res@.len() <= m,
            ensures
                self.run(source@, res@, counts),
                self.stops(source@, res@, counts),
                ccount.0 == spec_sum_counts(counts),
                ccount.0 <= total,
            decreases src@.len() + (if self.max_match_count is Some {
                self.max_match_count->0 - res@.len()
            } else {
                0
            }),
        {
            match self.max_match_count {
                Some(m) => {
                    if res.len() >= m {
                        break;
                    }
                },
                None => {},
            }
            match self.parser.parse(src) {
                None => {
                    break;
                },
                Some((v, cc)) => {
                    let ghost old_counts = counts;
                    let ghost old_items = res@;
                    let ghost gv = v;
                    assert(self.parser.accepts(source@.skip(spec_sum_counts(old_counts)), Some((gv, cc))));
                    res.push(v);
                    proof {
                        counts = counts.push(cc);
                        assert(counts.drop_last() =~= old_counts);
                        assert(counts.take(old_counts.len() as int) =~= old_counts);
                        assert forall|i: int| 0 <= i < res@.len() implies #[trigger] self.step(source@, res@, counts, i) by {
                            if i < old_items.len() {
                                assert(counts.take(i) =~= old_counts.take(i));
                                assert(res@[i] == old_items[i]);
                                assert(counts[i] == old_counts[i]);
                                assert(self.step(source@, old_items, old_counts, i));
                            } else {
                                assert(i == old_items.len());
                                assert(res@[i] == gv);
                                assert(counts[i] == cc);
                            }
                        }
                        assert(self.run(source@, res@, counts));
                    }
                    ccount = ccount.add(cc);
                    src = match src.substring(cc) {
                        Some(rest) => rest,
                        None => src,
                    };
                    assert(src@ =~= source@.skip(ccount.0 as int));
                },
            }
        }
        let ghost items = res@;
        let short = match self.min_match_count {
            Some(mi) => res.len() < mi,
            None => false,
        };
        if short {
            assert(self.repeats(source@, items, counts, None));
            return None;
        }
        let r = Some((res, ccount));
        assert(self.repeats(source@, items, counts, r));
        r
    }
}


/// What one of two parsers recognised: the first one's value, or the
/// second one's.
#[derive(Debug, Clone, PartialEq)]
pub enum Choice<A, B> {
    Left(A),
    Right(B),
}

/// Two parsers tried in turn: the second one only where the first one
/// recognises nothing.
pub struct AlternativeParser<P1, P2> {
    pub first: P1,
    pub second: P2,
}

/// The first parser, or else the second one.
pub fn alternative<P1, P2>(left: P1, right: P2) -> (r: AlternativeParser<P1, P2>)
    ensures
        r.first == left,
        r.second == right,
{
    AlternativeParser { first: left, second: right }
}

impl<A, B, P1: Parser<A>, P2: Parser<B>> Parser<Choice<A, B>> for AlternativeParser<P1, P2> {
    open spec fn accepts(&self, source: Seq<char>, result: Option<(Choice<A, B>, CharsCount)>) -> bool {
        match result {
            Some((Choice::Left(a), c)) => self.first.accepts(source, Some((a, c))),
            Some((Choice::Right(b), c)) => self.first.accepts(source, None) && self.second.accepts(
                source,
                Some((b, c)),
            ),
            None => self.first.accepts(source, None) && self.second.accepts(source, None),
        }
    }

    fn parse(&self, source: &str) -> (r: Option<(Choice<A, B>, CharsCount)>) {
        match self.first.parse(source) {
            Some((res, cc)) => Some((Choice::Left(res), cc)),
            None => match self.second.parse(source) {
                Some((res, cc)) => Some((Choice::Right(res), cc)),
                None => None,
            },
        }
    }
}

} // verus!
