use vstd::prelude::*;
use crate::parse::substr::CharsCount;

verus! {

/// The common interface of the parsers: recognise a value at the start of a
/// string and say how many characters it takes.
pub trait Parser<A> {
    /// Whether `result` is what this parser gives for `source`: `None` when
    /// nothing is recognised, or the value and the count of characters it
    /// takes from the start of `source`.
    spec fn accepts(&self, source: Seq<char>, result: Option<(A, CharsCount)>) -> bool;

    /// Recognise a value at the start of `source`.
    fn parse(&self, source: &str) -> (r: Option<(A, CharsCount)>)
        ensures
            self.accepts(source@, r),
            r matches Some((_, c)) ==> c.0 <= source@.len(),
    ;
}

impl<'a, A, P: Parser<A>> Parser<A> for &'a P {
    open spec fn accepts(&self, source: Seq<char>, result: Option<(A, CharsCount)>) -> bool {
        (**self).accepts(source, result)
    }

    fn parse(&self, source: &str) -> (r: Option<(A, CharsCount)>) {
        (**self).parse(source)
    }
}

} // verus!
