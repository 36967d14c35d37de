use vstd::prelude::*;
use crate::parse::parser::Parser;
use crate::parse::substr::CharsCount;
use crate::text::{chars_of, string_from_chars};

verus! {

/// A token of a wildcard pattern.
#[derive(Debug, Clone, PartialEq)]
pub enum WildcardToken {
    /// Text that must appear as it is.
    PlainText(String),
    /// `?`: any one character.
    OneAnyChar,
    /// `*`: any number of characters.
    MultipleAnyChar,
}

/// A token of a wildcard pattern, by its text.
pub ghost enum WildcardTokenView {
    PlainText(Seq<char>),
    OneAnyChar,
    MultipleAnyChar,
}

impl View for WildcardToken {
    type V = WildcardTokenView;

    open spec fn view(&self) -> WildcardTokenView {
        match self {
            WildcardToken::PlainText(s) => WildcardTokenView::PlainText(s@),
            WildcardToken::OneAnyChar => WildcardTokenView::OneAnyChar,
            WildcardToken::MultipleAnyChar => WildcardTokenView::MultipleAnyChar,
        }
    }
}

/// A pattern to match text against.
///
/// The pattern holds plain text and two special characters:
///
/// - `?` - any one character
/// - `*` - any characters, none or more
///
/// | Pattern    | Text               | Result    |
/// |------------|--------------------|-----------|
/// | "ab*cd"    | "abXXXcd"          | true      |
/// | "ab*??cd"  | "abXXXcd"          | true      |
/// | "ab???cd"  | "abXXXcd"          | true      |
/// | "ab*cd"    | "abXXrd"           | false     |
/// | "*"        | "abXXrd"           | true      |
/// | ""         | "abXXrd"           | false     |
/// | ""         | ""                 | true      |
#[derive(Debug, Clone, PartialEq)]
pub struct Wildcard {
    pub seq: Vec<WildcardToken>,
}

/// The views of a list of tokens.
pub open spec fn spec_tokens_view(tokens: Seq<WildcardToken>) -> Seq<WildcardTokenView> {
    Seq::new(tokens.len(), |i: int| tokens[i]@)
}

impl View for Wildcard {
    type V = Seq<WildcardTokenView>;

    open spec fn view(&self) -> Seq<WildcardTokenView> {
        spec_tokens_view(self.seq@)
    }
}

/// Parser of wildcard patterns.
#[derive(Debug, Clone)]
pub struct WildcardParser {
    /// An empty pattern is allowed.
    pub allow_empty: bool,
}

impl WildcardParser {
    /// A parser that allows the empty pattern.
    pub fn new() -> (r: Self)
        ensures
            r.allow_empty,
    {
        WildcardParser { allow_empty: true }
    }

    /// A builder of a parser, that allows the empty pattern unless told.
    pub fn create() -> (r: WildcardParserBuilder)
        ensures
            r.allow_empty,
    {
        WildcardParserBuilder { allow_empty: true }
    }
}

/// Builder of [WildcardParser].
pub struct WildcardParserBuilder {
    pub allow_empty: bool,
}

impl WildcardParserBuilder {
    /// Whether the empty pattern is allowed.
    pub fn allow_empty(self, allow: bool) -> (r: Self)
        ensures
            r.allow_empty == allow,
    {
        WildcardParserBuilder { allow_empty: allow }
    }

    /// The parser.
    pub fn build(self) -> (r: WildcardParser)
        ensures
            r.allow_empty == self.allow_empty,
    {
        WildcardParser { allow_empty: self.allow_empty }
    }
}

/// The state of the tokenizer: the tokens so far and the pending text.
pub open spec fn spec_tokenize(s: Seq<char>) -> (Seq<WildcardTokenView>, Seq<char>)
    decreases s.len(),
{
    if s.len() == 0 {
        (Seq::empty(), Seq::empty())
    } else {
        let (toks, buff) = spec_tokenize(s.drop_last());
        let c = s.last();
        let flushed = if buff.len() > 0 {
            toks.push(WildcardTokenView::PlainText(buff))
        } else {
            toks
        };
        if c == '?' {
            (flushed.push(WildcardTokenView::OneAnyChar), Seq::empty())
        } else if c == '*' {
            (flushed.push(WildcardTokenView::MultipleAnyChar), Seq::empty())
        } else {
            (toks, buff.push(c))
        }
    }
}

/// The tokens of a pattern before normalisation.
pub open spec fn spec_tokens(s: Seq<char>) -> Seq<WildcardTokenView> {
    let (toks, buff) = spec_tokenize(s);
    if buff.len() > 0 {
        toks.push(WildcardTokenView::PlainText(buff))
    } else {
        toks
    }
}

/// One token added to a normalised list: adjacent texts are joined, and a
/// `*` right after a `*` is dropped.
pub open spec fn spec_normalize_step(acc: Seq<WildcardTokenView>, tok: WildcardTokenView) -> Seq<WildcardTokenView> {
    if acc.len() == 0 {
        acc.push(tok)
    } else {
        match (acc.last(), tok) {
            (WildcardTokenView::PlainText(a), WildcardTokenView::PlainText(b)) => acc.drop_last().push(
                WildcardTokenView::PlainText(a + b),
            ),
            (WildcardTokenView::MultipleAnyChar, WildcardTokenView::MultipleAnyChar) => acc,
            _ => acc.push(tok),
        }
    }
}

/// The normalised form of a list of tokens.
pub open spec fn spec_normalize(toks: Seq<WildcardTokenView>) -> Seq<WildcardTokenView>
    decreases toks.len(),
{
    if toks.len() == 0 {
        Seq::empty()
    } else {
        spec_normalize_step(spec_normalize(toks.drop_last()), toks.last())
    }
}

/// What the parser gives for a pattern: the normalised tokens, or `None`
/// for an empty pattern when it is not allowed.
pub open spec fn spec_parse_wildcard(allow_empty: bool, s: Seq<char>) -> Option<Seq<WildcardTokenView>> {
    if s.len() == 0 {
        if allow_empty {
            Some(Seq::empty())
        } else {
            None
        }
    } else {
        Some(spec_normalize(spec_tokens(s)))
    }
}

fn flush(res: &mut Vec<WildcardToken>, buff: &mut Vec<char>)
    ensures
        old(buff)@.len() > 0 ==> spec_tokens_view(final(res)@) == spec_tokens_view(old(res)@).push(
            WildcardTokenView::PlainText(old(buff)@),
        ),
        old(buff)@.len() == 0 ==> final(res)@ == old(res)@,
        final(buff)@.len() == 0,
{
    if buff.len() > 0 {
        let s = string_from_chars(buff);
        res.push(WildcardToken::PlainText(s));
        assert(spec_tokens_view(res@) =~= spec_tokens_view(old(res)@).push(WildcardTokenView::PlainText(old(buff)@)));
        *buff = Vec::new();
    }
}

impl WildcardToken {
    /// A copy of this token.
    pub fn copy(&self) -> (r: WildcardToken)
        ensures
            r@ == self@,
    {
        match self {
            WildcardToken::PlainText(s) => WildcardToken::PlainText(s.clone()),
            WildcardToken::OneAnyChar => WildcardToken::OneAnyChar,
            WildcardToken::MultipleAnyChar => WildcardToken::MultipleAnyChar,
        }
    }
}

impl Wildcard {
    /// Joins adjacent plain texts and drops a `*` that follows a `*`:
    ///
    ///     [ ... , MultipleAnyChar, MultipleAnyChar, ... ] => [ ..., MultipleAnyChar, ... ]
    ///     [ ..., PlainText(str1), PlainText(str2), ... ] => [ ..., PlainText(str1 + str2), ... ]
    fn normalize(self) -> (r: Self)
        ensures
            r@ == spec_normalize(self@),
    {
        let mut acc: Vec<WildcardToken> = Vec::new();
        let n = self.seq.len();
        let mut i: usize = 0;
        assert(self@.take(0) =~= Seq::<WildcardTokenView>::empty());
        while i < n
            invariant
                i <= n,
                n == self.seq@.len(),
                spec_tokens_view(acc@) == spec_normalize(self@.take(i as int)),
            decreases n - i,
        {
            let ghost prev = spec_tokens_view(acc@);
            assert(self@.take(i + 1).drop_last() =~= self@.take(i as int));
            assert(self@.take(i + 1).last() == self@[i as int]);
            let tok = self.seq[i].copy();
            assert(tok@ == self@[i as int]);
            if acc.len() == 0 {
                acc.push(tok);
            } else {
                let last_idx = acc.len() - 1;
                assert(prev.last() == acc@[last_idx as int]@);
                match (&acc[last_idx], &tok) {
                    (WildcardToken::PlainText(s1), WildcardToken::PlainText(s2)) => {
                        let mut joined = chars_of(s1.as_str());
                        let tail = chars_of(s2.as_str());
                        let mut k: usize = 0;
                        let ghost start = joined@;
                        while k < tail.len()
                            invariant
                                k <= tail@.len(),
                                joined@ == start + tail@.take(k as int),
                            decreases tail@.len() - k,
                        {
                            joined.push(tail[k]);
                            assert(joined@ =~= start + tail@.take(k + 1));
                            k = k + 1;
                        }
                        assert(tail@.take(k as int) =~= tail@);
                        let js = string_from_chars(&joined);
                        acc.pop();
                        acc.push(WildcardToken::PlainText(js));
                    },
                    (WildcardToken::MultipleAnyChar, WildcardToken::MultipleAnyChar) => {},
                    _ => {
                        acc.push(tok);
                    },
                }
            }
            assert(spec_tokens_view(acc@) =~= spec_normalize_step(prev, self@[i as int]));
            i = i + 1;
        }
        assert(self@.take(n as int) =~= self@);
        Wildcard { seq: acc }
    }
}

/// Parser of wildcard patterns.
impl Parser<Wildcard> for WildcardParser {
    open spec fn accepts(&self, source: Seq<char>, result: Option<(Wildcard, CharsCount)>) -> bool {
        match (result, spec_parse_wildcard(self.allow_empty, source)) {
            (None, None) => true,
            (Some((w, c)), Some(toks)) => w@ == toks && c.0 == source.len(),
            _ => false,
        }
    }

    fn parse(&self, source: &str) -> (r: Option<(Wildcard, CharsCount)>) {
        let chars = chars_of(source);
        if self.allow_empty && chars.len() == 0 {
            let w = Wildcard { seq: Vec::new() };
            assert(w@ =~= Seq::<WildcardTokenView>::empty());
            return Some((w, CharsCount(0)));
        }
        let n = chars.len();
        let mut res: Vec<WildcardToken> = Vec::new();
        let mut buff: Vec<char> = Vec::new();
        let mut i: usize = 0;
        assert(chars@.take(0) =~= Seq::<char>::empty());
        while i < n
            invariant
                i <= n,
                n == chars@.len(),
                spec_tokenize(chars@.take(i as int)) == (spec_tokens_view(res@), buff@),
            decreases n - i,
        {
            let chr = chars[i];
            assert(chars@.take(i + 1).drop_last() =~= chars@.take(i as int));
            assert(chars@.take(i + 1).last() == chr);
            if chr == '?' {
                flush(&mut res, &mut buff);
                res.push(WildcardToken::OneAnyChar);
            } else if chr == '*' {
                flush(&mut res, &mut buff);
                res.push(WildcardToken::MultipleAnyChar);
            } else {
                buff.push(chr);
            }
            proof {
                let (t, b) = spec_tokenize(chars@.take(i + 1));
                assert(spec_tokens_view(res@) =~= t);
                assert(buff@ =~= b);
            }
            i = i + 1;
        }
        assert(chars@.take(n as int) =~= chars@);
        flush(&mut res, &mut buff);
        if n == 0 {
            return None;
        }
        let w = Wildcard { seq: res };
        Some((w.normalize(), CharsCount(n)))
    }
}

} // verus!

verus! {

/// Whether the tokens from `i` on match the text from `j` on: a plain text
/// must stand there as it is, `?` takes one character, and `*` takes any
/// number of characters, none or more (every split is tried).
pub open spec fn spec_glob_at(toks: Seq<WildcardTokenView>, text: Seq<char>, i: int, j: int) -> bool
    decreases toks.len() - i, text.len() - j,
{
    if i < 0 || j < 0 || i > toks.len() || j > text.len() {
        false
    } else if i == toks.len() {
        j == text.len()
    } else {
        match toks[i] {
            WildcardTokenView::PlainText(s) => j + s.len() <= text.len() && text.subrange(j, j + s.len()) == s
                && spec_glob_at(toks, text, i + 1, j + s.len()),
            WildcardTokenView::OneAnyChar => j < text.len() && spec_glob_at(toks, text, i + 1, j + 1),
            WildcardTokenView::MultipleAnyChar => spec_glob_at(toks, text, i + 1, j) || (j < text.len()
                && spec_glob_at(toks, text, i, j + 1)),
        }
    }
}

/// Whether the whole `text` matches the tokens; no tokens match only the
/// empty text.
pub open spec fn spec_wildcard_test(toks: Seq<WildcardTokenView>, text: Seq<char>) -> bool {
    spec_glob_at(toks, text, 0, 0)
}

/// Whether `pat` stands in `text` at `at`.
fn stands_at(text: &Vec<char>, pat: &Vec<char>, at: usize) -> (r: bool)
    requires
        at + pat@.len() <= text@.len(),
    ensures
        r == (text@.subrange(at as int, at + pat@.len()) == pat@),
{
    let m = pat.len();
    let mut k: usize = 0;
    while k < m
        invariant
            k <= m,
            m == pat@.len(),
            at + m <= text@.len(),
            text@.len() == text.len(),
            forall|j: int| 0 <= j < k ==> text@[at + j] == pat@[j],
        decreases m - k,
    {
        if text[at + k] != pat[k] {
            assert(text@.subrange(at as int, at + m)[k as int] != pat@[k as int]);
            return false;
        }
        k = k + 1;
    }
    assert(text@.subrange(at as int, at + m) =~= pat@);
    true
}

impl Wildcard {
    /// Whether `text` matches this pattern; see [spec_wildcard_test].
    pub fn test(&self, text: &str) -> (r: bool)
        ensures
            r == spec_wildcard_test(self@, text@),
    {
        let t = chars_of(text);
        let m = t.len();
        let n = self.seq.len();
        // `next[j]`: whether the tokens from `i` on match the text from `j` on.
        let mut next: Vec<bool> = Vec::new();
        let mut j: usize = 0;
        while j < m
            invariant
                j <= m,
                m == t@.len(),
                n == self@.len(),
                next@.len() == j,
                forall|k: int| 0 <= k < j ==> next@[k] == spec_glob_at(self@, t@, n as int, k),
            decreases m - j,
        {
            next.push(false);
            j = j + 1;
        }
        next.push(true);
        let mut i: usize = n;
        while i > 0
            invariant
                i <= n,
                n == self@.len(),
                m == t@.len(),
                next@.len() == m + 1,
                forall|k: int| 0 <= k <= m ==> next@[k] == spec_glob_at(self@, t@, i as int, k),
            decreases i,
        {
            i = i - 1;
            assert(self.seq@[i as int]@ == self@[i as int]);
            let mut cur: Vec<bool> = Vec::new();
            match &self.seq[i] {
                WildcardToken::PlainText(sample) => {
                    let pat = chars_of(sample.as_str());
                    let pl = pat.len();
                    let mut j: usize = 0;
                    while j < m
                        invariant
                            j <= m,
                            m == t@.len(),
                            pl == pat@.len(),
                            self@[i as int] == WildcardTokenView::PlainText(pat@),
                            i < n,
                            n == self@.len(),
                            cur@.len() == j,
                            next@.len() == m + 1,
                            forall|k: int| 0 <= k <= m ==> next@[k] == spec_glob_at(self@, t@, i + 1, k),
                            forall|k: int| 0 <= k < j ==> cur@[k] == spec_glob_at(self@, t@, i as int, k),
                        decreases m - j,
                    {
                        let v = if pl <= m - j {
                            stands_at(&t, &pat, j) && next[j + pl]
                        } else {
                            false
                        };
                        cur.push(v);
                        j = j + 1;
                    }
                    let v = if pl == 0 {
                        next[m]
                    } else {
                        false
                    };
                    assert(t@.subrange(m as int, m as int) =~= Seq::<char>::empty());
                    proof {
                        if pl == 0 {
                            assert(pat@ =~= Seq::<char>::empty());
                        }
                    }
                    let ghost c0 = cur@;
                    cur.push(v);
                    assert(forall|k: int| 0 <= k < m ==> cur@[k] == c0[k]);
                    assert(cur@[m as int] == spec_glob_at(self@, t@, i as int, m as int));
                    assert(forall|k: int| 0 <= k <= m ==> cur@[k] == spec_glob_at(self@, t@, i as int, k));
                },
                WildcardToken::OneAnyChar => {
                    let mut j: usize = 0;
                    while j < m
                        invariant
                            j <= m,
                            m == t@.len(),
                            self@[i as int] == WildcardTokenView::OneAnyChar,
                            i < n,
                            n == self@.len(),
                            cur@.len() == j,
                            next@.len() == m + 1,
                            forall|k: int| 0 <= k <= m ==> next@[k] == spec_glob_at(self@, t@, i + 1, k),
                            forall|k: int| 0 <= k < j ==> cur@[k] == spec_glob_at(self@, t@, i as int, k),
                        decreases m - j,
                    {
                        let v = next[j + 1];
                        cur.push(v);
                        j = j + 1;
                    }
                    let ghost c0 = cur@;
                    cur.push(false);
                    assert(forall|k: int| 0 <= k < m ==> cur@[k] == c0[k]);
                    assert(cur@[m as int] == spec_glob_at(self@, t@, i as int, m as int));
                    assert(forall|k: int| 0 <= k <= m ==> cur@[k] == spec_glob_at(self@, t@, i as int, k));
                },
                WildcardToken::MultipleAnyChar => {
                    let mut j: usize = 0;
                    while j < m
                        invariant
                            j <= m,
                            m == t@.len(),
                            cur@.len() == j,
                        decreases m - j,
                    {
                        cur.push(false);
                        j = j + 1;
                    }
                    cur.push(false);
                    let last = next[m];
                    cur.set(m, last);
                    let mut j: usize = m;
                    while j > 0
                        invariant
                            j <= m,
                            m == t@.len(),
                            self@[i as int] == WildcardTokenView::MultipleAnyChar,
                            i < n,
                            n == self@.len(),
                            cur@.len() == m + 1,
                            next@.len() == m + 1,
                            forall|k: int| 0 <= k <= m ==> next@[k] == spec_glob_at(self@, t@, i + 1, k),
                            forall|k: int| j <= k <= m ==> cur@[k] == spec_glob_at(self@, t@, i as int, k),
                        decreases j,
                    {
                        j = j - 1;
                        let v = next[j] || cur[j + 1];
                        cur.set(j, v);
                    }
                    assert(forall|k: int| 0 <= k <= m ==> cur@[k] == spec_glob_at(self@, t@, i as int, k));
                },
            }
            next = cur;
        }
        assert(t@ == text@);
        next[0]
    }
}

/// No two plain texts stand next to each other among the tokens.
pub open spec fn spec_no_adjacent_text(toks: Seq<WildcardTokenView>) -> bool {
    forall|i: int| 0 <= i < toks.len() - 1 ==> !(#[trigger] toks[i] is PlainText && toks[i + 1] is PlainText)
}

/// Normalised tokens have no two plain texts next to each other.
pub proof fn lemma_normalize_no_adjacent_text(toks: Seq<WildcardTokenView>)
    ensures
        spec_no_adjacent_text(spec_normalize(toks)),
    decreases toks.len(),
{
    if toks.len() > 0 {
        let acc = spec_normalize(toks.drop_last());
        lemma_normalize_no_adjacent_text(toks.drop_last());
        let r = spec_normalize(toks);
        let tok = toks.last();
        if acc.len() > 0 {
            match (acc.last(), tok) {
                (WildcardTokenView::PlainText(a), WildcardTokenView::PlainText(b)) => {
                    assert forall|i: int| 0 <= i < r.len() - 1 implies !(#[trigger] r[i] is PlainText && r[i
                        + 1] is PlainText) by {
                        assert(r[i] == acc[i]);
                        if i + 1 < r.len() - 1 {
                            assert(r[i + 1] == acc[i + 1]);
                        }
                    }
                },
                (WildcardTokenView::MultipleAnyChar, WildcardTokenView::MultipleAnyChar) => {},
                _ => {
                    assert forall|i: int| 0 <= i < r.len() - 1 implies !(#[trigger] r[i] is PlainText && r[i
                        + 1] is PlainText) by {
                        assert(r[i] == acc[i]);
                        if i + 1 < acc.len() {
                            assert(r[i + 1] == acc[i + 1]);
                        }
                    }
                },
            }
        }
    }
}

} // verus!
