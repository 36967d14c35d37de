use vstd::prelude::*;

verus! {

/// A count of characters (not bytes) consumed from the start of a string.
#[derive(Debug, Clone, Copy, PartialEq, Eq)]
pub struct CharsCount(pub usize);

impl CharsCount {
    /// `true` when no character is counted.
    pub fn is_zero(&self) -> (r: bool)
        ensures
            r == (self.0 == 0),
    {
        self.0 == 0
    }

    /// One character less, or `None` when the count is already zero.
    pub fn decrase(&self) -> (r: Option<Self>)
        ensures
            self.0 > 0 ==> r == Some(CharsCount((self.0 - 1) as usize)),
            self.0 == 0 ==> r is None,
    {
        if self.0 > 0 {
            Some(CharsCount(self.0 - 1))
        } else {
            None
        }
    }

    /// The sum of two counts.
    pub fn add(self, rhs: CharsCount) -> (r: CharsCount)
        requires
            self.0 + rhs.0 <= usize::MAX,
        ensures
            r.0 == self.0 + rhs.0,
    {
        CharsCount(self.0 + rhs.0)
    }
}

/// What is left of `s` once its first `n` characters are dropped, if it has
/// that many.
pub open spec fn spec_substring(s: Seq<char>, n: int) -> Option<Seq<char>> {
    if 0 <= n <= s.len() {
        Some(s.skip(n))
    } else {
        None
    }
}

/// The rest of a string after a number of characters.
pub trait SubString where Self: Sized {
    fn substring(self, offset: CharsCount) -> Option<Self>;
}

impl<'a> SubString for &'a str {
    /// `Some` of the text after the first `offset` characters, or `None` when
    /// the string is shorter than `offset`.
    fn substring(self, offset: CharsCount) -> (r: Option<&'a str>)
        ensures
            offset.0 <= self@.len() ==> (r matches Some(t) && t@ == self@.skip(offset.0 as int)),
            offset.0 > self@.len() ==> r is None,
            self@.len() <= usize::MAX,
    {
        let len = self.unicode_len();
        if offset.0 <= len {
            let rest = self.substring_char(offset.0, len);
            proof {
                assert(rest@ =~= self@.skip(offset.0 as int));
            }
            Some(rest)
        } else {
            None
        }
    }
}

} // verus!
