use vstd::prelude::*;
use vstd::string::StringExecFns;
use crate::parse::parser::Parser;
use crate::parse::substr::CharsCount;

verus! {

/// Whether `s` begins with `p`.
pub open spec fn spec_starts_with(s: Seq<char>, p: Seq<char>) -> bool {
    p.len() <= s.len() && s.take(p.len() as int) == p
}

/// The length in bytes of the UTF-8 encoding of `s`.
pub open spec fn spec_byte_len(s: Seq<char>) -> nat {
    (vstd::utf8::encode_utf8(s).len() as usize) as nat
}

/// The first word, from position `from` on, that `s` begins with.
pub open spec fn spec_first_keyword(words: Seq<Seq<char>>, s: Seq<char>, from: int) -> Option<int>
    decreases words.len() - from,
{
    if from < 0 || from >= words.len() {
        None
    } else if spec_starts_with(s, words[from]) {
        Some(from)
    } else {
        spec_first_keyword(words, s, from + 1)
    }
}

/// The first keyword found is a keyword at or after `from` that `s`
/// begins with.
pub proof fn lemma_first_keyword(words: Seq<Seq<char>>, s: Seq<char>, from: int)
    ensures
        spec_first_keyword(words, s, from) matches Some(j) ==> from <= j < words.len()
            && spec_starts_with(s, words[j]),
    decreases words.len() - from,
{
    if 0 <= from < words.len() && !spec_starts_with(s, words[from]) {
        lemma_first_keyword(words, s, from + 1);
    }
}

/// The words of a keyword table.
pub open spec fn spec_words<A>(kws: Seq<(String, A)>) -> Seq<Seq<char>> {
    Seq::new(kws.len(), |i: int| kws[i].0@)
}

/// Where keyword `i` goes when it is added to `order`, which is sorted by
/// decreasing length: before the first keyword that is not longer than it.
pub open spec fn spec_insert_position(order: Seq<int>, lens: Seq<nat>, i: int, from: int) -> int
    decreases order.len() - from,
{
    if from < 0 || from >= order.len() {
        order.len() as int
    } else if lens[order[from]] <= lens[i] {
        from
    } else {
        spec_insert_position(order, lens, i, from + 1)
    }
}

/// The order of the first `n` keywords after a build: by decreasing length,
/// and among keywords of one length the later one first.
pub open spec fn spec_build_order(lens: Seq<nat>, n: int) -> Seq<int>
    decreases n,
{
    if n <= 0 {
        Seq::empty()
    } else {
        let prev = spec_build_order(lens, n - 1);
        prev.insert(spec_insert_position(prev, lens, n - 1, 0), n - 1)
    }
}

/// The byte lengths of the keywords.
pub open spec fn spec_keyword_lens<A>(kws: Seq<(String, A)>) -> Seq<nat> {
    Seq::new(kws.len(), |i: int| spec_byte_len(kws[i].0@))
}

/// Parser of keywords: the first keyword that the source begins with gives
/// its value. Built by [KeywordsBuilder], which stores the keywords longest
/// first.
#[derive(Clone, Debug)]
pub struct Keywords<A: Clone> {
    /// Keywords and their values.
    pub keywords: Vec<(String, A)>,
    /// The length of the longest keyword, in bytes.
    pub max_keyword_len: usize,
}

/// Collects the keywords of a [Keywords] parser.
#[derive(Clone, Debug)]
pub struct KeywordsBuilder<A: Clone> {
    pub keywords: Vec<(String, A)>,
}

impl<A: Clone> KeywordsBuilder<A> {
    /// A builder with one keyword.
    pub fn new(word: &str, value: &A) -> (r: Self)
        ensures
            r.keywords@.len() == 1,
            r.keywords@[0].0@ == word@,
            cloned(*value, r.keywords@[0].1),
    {
        let mut kw: Vec<(String, A)> = Vec::new();
        kw.push((String::from_str(word), value.clone()));
        KeywordsBuilder { keywords: kw }
    }

    /// This builder with one more keyword at the end.
    pub fn add(self, word: &str, value: &A) -> (r: Self)
        ensures
            r.keywords@.len() == self.keywords@.len() + 1,
            r.keywords@.take(self.keywords@.len() as int) == self.keywords@,
            r.keywords@.last().0@ == word@,
            cloned(*value, r.keywords@.last().1),
    {
        let mut kw = self.keywords;
        kw.push((String::from_str(word), value.clone()));
        assert(kw@.take(kw@.len() - 1) =~= self.keywords@);
        KeywordsBuilder { keywords: kw }
    }

    /// The parser: the keywords sorted by decreasing length in bytes, those
    /// of equal length in the reverse of the order they were added in.
    pub fn build(&self) -> (r: Keywords<A>)
        ensures
            ({
                let order = spec_build_order(spec_keyword_lens(self.keywords@), self.keywords@.len() as int);
                &&& r.keywords@.len() == self.keywords@.len()
                &&& forall|j: int| 0 <= j < order.len() ==> 0 <= #[trigger] order[j] < self.keywords@.len()
                &&& forall|j: int, k: int| 0 <= j < k < order.len() ==> #[trigger] order[j] != #[trigger] order[k]
                &&& forall|j: int|
                    0 <= j < r.keywords@.len() ==> {
                        &&& #[trigger] r.keywords@[j].0@ == self.keywords@[order[j]].0@
                        &&& cloned(self.keywords@[order[j]].1, r.keywords@[j].1)
                    }
            }),
            r.max_keyword_len == 0 <==> forall|j: int|
                0 <= j < self.keywords@.len() ==> #[trigger] spec_keyword_lens(self.keywords@)[j] == 0,
            forall|j: int|
                0 <= j < self.keywords@.len() ==> #[trigger] spec_keyword_lens(self.keywords@)[j] <= r.max_keyword_len,
            self.keywords@.len() > 0 ==> exists|j: int|
                0 <= j < self.keywords@.len() && #[trigger] spec_keyword_lens(self.keywords@)[j] == r.max_keyword_len,
            forall|j: int, k: int|
                0 <= j < k < r.keywords@.len() ==> spec_byte_len(#[trigger] r.keywords@[j].0@) >= spec_byte_len(
                    #[trigger] r.keywords@[k].0@,
                ),
    {
        let ghost lens = spec_keyword_lens(self.keywords@);
        let n = self.keywords.len();
        let mut out: Vec<(String, A)> = Vec::new();
        let mut out_lens: Vec<usize> = Vec::new();
        let ghost mut order: Seq<int> = Seq::empty();
        let mut max_len: usize = 0;
        let mut i: usize = 0;
        while i < n
            invariant
                i <= n,
                n == self.keywords@.len(),
                lens == spec_keyword_lens(self.keywords@),
                order == spec_build_order(lens, i as int),
                out@.len() == i,
                out_lens@.len() == i,
                order.len() == i,
                forall|j: int| 0 <= j < i ==> 0 <= #[trigger] order[j] < i,
                forall|j: int, k: int| 0 <= j < k < i ==> #[trigger] order[j] != #[trigger] order[k],
                forall|j: int| 0 <= j < i ==> #[trigger] out@[j].0@ == self.keywords@[order[j]].0@,
                forall|j: int| 0 <= j < i ==> cloned(self.keywords@[order[j]].1, #[trigger] out@[j].1),
                forall|j: int| 0 <= j < i ==> #[trigger] out_lens@[j] == lens[order[j]],
                max_len == 0 <==> forall|j: int| 0 <= j < i ==> #[trigger] lens[j] == 0,
                forall|j: int| 0 <= j < i ==> #[trigger] lens[j] <= max_len,
                i > 0 ==> exists|j: int| 0 <= j < i && #[trigger] lens[j] == max_len,
                forall|j: int, k: int| 0 <= j < k < i ==> #[trigger] out_lens@[j] >= #[trigger] out_lens@[k],
            decreases n - i,
        {
            let word = self.keywords[i].0.clone();
            let value = self.keywords[i].1.clone();
            assert(cloned(self.keywords@[i as int].1, value));
            let wlen = word.as_str().len();
            assert(wlen == lens[i as int]);
            if wlen > max_len {
                max_len = wlen;
            }
            let mut pos: usize = 0;
            while pos < out_lens.len() && out_lens[pos] > wlen
                invariant
                    pos <= out_lens@.len(),
                    out_lens@.len() == order.len(),
                    forall|j: int| 0 <= j < order.len() ==> out_lens@[j] == lens[order[j]],
                    wlen == lens[i as int],
                    spec_insert_position(order, lens, i as int, 0) == spec_insert_position(order, lens, i as int, pos as int),
                    forall|j: int| 0 <= j < pos ==> #[trigger] out_lens@[j] > wlen,
                decreases out_lens@.len() - pos,
            {
                pos = pos + 1;
            }
            assert(spec_insert_position(order, lens, i as int, pos as int) == pos);
            let ghost ol0 = out_lens@;
            out.insert(pos, (word, value));
            out_lens.insert(pos, wlen);
            proof {
                assert forall|j: int, k: int| 0 <= j < k < i + 1 implies #[trigger] out_lens@[j] >= #[trigger] out_lens@[k] by {
                    if pos < ol0.len() {
                        assert(ol0[pos as int] <= wlen);
                    }
                    if k < pos {
                        assert(out_lens@[j] == ol0[j] && out_lens@[k] == ol0[k]);
                    } else if k == pos {
                        assert(out_lens@[j] == ol0[j]);
                    } else if j < pos {
                        assert(out_lens@[j] == ol0[j] && out_lens@[k] == ol0[k - 1]);
                    } else if j == pos {
                        assert(out_lens@[k] == ol0[k - 1]);
                        assert(ol0[k - 1] <= ol0[pos as int]);
                    } else {
                        assert(out_lens@[j] == ol0[j - 1] && out_lens@[k] == ol0[k - 1]);
                    }
                }
                let o0 = order;
                order = order.insert(pos as int, i as int);
                assert forall|j: int, k: int| 0 <= j < k < i + 1 implies #[trigger] order[j] != #[trigger] order[k] by {
                    if j < pos && k < pos {
                        assert(order[j] == o0[j] && order[k] == o0[k]);
                    } else if j < pos && k == pos {
                        assert(order[j] == o0[j]);
                    } else if j < pos {
                        assert(order[j] == o0[j] && order[k] == o0[k - 1]);
                    } else if j == pos {
                        assert(order[k] == o0[k - 1]);
                    } else {
                        assert(order[j] == o0[j - 1] && order[k] == o0[k - 1]);
                    }
                }
                assert forall|j: int| 0 <= j < i + 1 implies 0 <= #[trigger] order[j] < i + 1 by {
                    if j > pos {
                        assert(order[j] == order.remove(pos as int)[j - 1]);
                    }
                }
                assert forall|j: int| 0 <= j < i + 1 implies #[trigger] out@[j].0@ == self.keywords@[order[j]].0@ by {
                    if j > pos {
                        assert(order[j] == order.remove(pos as int)[j - 1]);
                    }
                }
                assert forall|j: int| 0 <= j < i + 1 implies cloned(self.keywords@[order[j]].1, #[trigger] out@[j].1) by {
                    if j > pos {
                        assert(order[j] == order.remove(pos as int)[j - 1]);
                    }
                }
                assert forall|j: int| 0 <= j < i + 1 implies #[trigger] out_lens@[j] == lens[order[j]] by {
                    if j > pos {
                        assert(order[j] == order.remove(pos as int)[j - 1]);
                    }
                }
            }
            i = i + 1;
        }
        proof {
            assert forall|j: int, k: int| 0 <= j < k < out@.len() implies spec_byte_len(#[trigger] out@[j].0@)
                >= spec_byte_len(#[trigger] out@[k].0@) by {
                assert(out_lens@[j] >= out_lens@[k]);
            }
        }
        Keywords { keywords: out, max_keyword_len: max_len }
    }
}

/// Whether `s` begins with `p`, computed.
pub fn starts_with(s: &str, p: &str) -> (r: bool)
    ensures
        r == spec_starts_with(s@, p@),
{
    let slen = s.unicode_len();
    let plen = p.unicode_len();
    if plen > slen {
        return false;
    }
    let mut i: usize = 0;
    while i < plen
        invariant
            i <= plen <= slen,
            slen == s@.len(),
            plen == p@.len(),
            forall|j: int| 0 <= j < i ==> s@[j] == p@[j],
        decreases plen - i,
    {
        if s.get_char(i) != p.get_char(i) {
            assert(s@.take(plen as int)[i as int] != p@[i as int]);
            return false;
        }
        i = i + 1;
    }
    assert(s@.take(plen as int) =~= p@);
    true
}

impl<A: Clone> Parser<A> for Keywords<A> {
    open spec fn accepts(&self, source: Seq<char>, result: Option<(A, CharsCount)>) -> bool {
        if self.max_keyword_len == 0 {
            result is None
        } else {
            match spec_first_keyword(spec_words(self.keywords@), source, 0) {
                None => result is None,
                Some(j) => result matches Some((a, c)) && c.0 == self.keywords@[j].0@.len()
                    && cloned(self.keywords@[j].1, a),
            }
        }
    }

    fn parse(&self, source: &str) -> (r: Option<(A, CharsCount)>) {
        if self.max_keyword_len == 0 {
            return None;
        }
        let n = self.keywords.len();
        let mut i: usize = 0;
        while i < n
            invariant
                i <= n,
                n == self.keywords@.len(),
                self.max_keyword_len != 0,
                spec_first_keyword(spec_words(self.keywords@), source@, 0) == spec_first_keyword(spec_words(self.keywords@), source@, i as int),
            decreases n - i,
        {
            let kw = self.keywords[i].0.as_str();
            assert(kw@ == self.keywords@[i as int].0@);
            if starts_with(source, kw) {
                assert(spec_first_keyword(spec_words(self.keywords@), source@, i as int) == Some(i as int));
                let value = self.keywords[i].1.clone();
                assert(cloned(self.keywords@[i as int].1, value));
                let count = kw.unicode_len();
                return Some((value, CharsCount(count)));
            }
            i = i + 1;
        }
        None
    }
}

impl<A: Clone> Keywords<A> {
    /// This parser as a value.
    pub fn parser(self) -> (r: Self)
        ensures
            r == self,
    {
        self
    }
}

} // verus!
