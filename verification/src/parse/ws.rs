use vstd::prelude::*;
use crate::parse::parser::Parser;
use crate::parse::substr::CharsCount;

verus! {

/// A run of white space.
#[derive(Debug, Clone, Copy, PartialEq, Eq, Structural)]
pub struct WhiteSpace;

/// Whether `c` is a white-space character: space, tab, line feed or
/// carriage return.
pub open spec fn spec_is_ws(c: char) -> bool {
    c == ' ' || c == '\t' || c == '\n' || c == '\r'
}

/// The length of the run of white space at the start of `s`.
pub open spec fn spec_ws_run(s: Seq<char>) -> nat
    decreases s.len(),
{
    if s.len() > 0 && spec_is_ws(s[0]) {
        1 + spec_ws_run(s.skip(1))
    } else {
        0
    }
}

/// Parser of one or more white-space characters.
#[derive(Debug, Clone, Copy)]
pub struct WhiteSpaceParser;

impl WhiteSpaceParser {
    /// This parser as a value.
    pub fn parser(self) -> (r: WhiteSpaceParser)
        ensures
            r == self,
    {
        self
    }
}

/// A run of white space is no longer than the text it starts.
pub proof fn lemma_ws_run_len(s: Seq<char>)
    ensures
        spec_ws_run(s) <= s.len(),
    decreases s.len(),
{
    if s.len() > 0 && spec_is_ws(s[0]) {
        lemma_ws_run_len(s.skip(1));
    }
}

/// The length of the run of white space that starts at character `from`.
pub fn ws_run(source: &str, from: usize, len: usize) -> (r: usize)
    requires
        len == source@.len(),
        from <= len,
    ensures
        r == spec_ws_run(source@.skip(from as int)),
        from + r <= len,
{
    let mut i = from;
    let ghost s = source@;
    while i < len
        invariant
            from <= i <= len,
            len == s.len(),
            s == source@,
            (i - from) + spec_ws_run(s.skip(i as int)) == spec_ws_run(s.skip(from as int)),
        decreases len - i,
    {
        let c = source.get_char(i);
        assert(s.skip(i as int)[0] == c);
        if c == ' ' || c == '\t' || c == '\n' || c == '\r' {
            assert(s.skip(i as int).skip(1) =~= s.skip(i + 1));
            i = i + 1;
        } else {
            proof {
                lemma_ws_run_len(s.skip(from as int));
            }
            return i - from;
        }
    }
    proof {
        lemma_ws_run_len(s.skip(from as int));
    }
    i - from
}

impl Parser<WhiteSpace> for WhiteSpaceParser {
    open spec fn accepts(&self, source: Seq<char>, result: Option<(WhiteSpace, CharsCount)>) -> bool {
        if spec_ws_run(source) > 0 {
            result == Some((WhiteSpace, CharsCount(spec_ws_run(source) as usize)))
        } else {
            result is None
        }
    }

    fn parse(&self, source: &str) -> (r: Option<(WhiteSpace, CharsCount)>) {
        let len = source.unicode_len();
        let n = ws_run(source, 0, len);
        assert(source@.skip(0) =~= source@);
        if n > 0 {
            Some((WhiteSpace, CharsCount(n)))
        } else {
            None
        }
    }
}

} // verus!
