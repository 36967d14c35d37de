use vstd::prelude::*;
use crate::parse::combo::Choice;
use crate::parse::parser::Parser;
use crate::parse::substr::CharsCount;
use crate::text::{chars_of, string_from_chars, is_alphabetic, is_numeric, spec_is_alphabetic, spec_is_numeric};

verus! {

/// A template: a list of [TemplateItem].
#[derive(Debug, Clone)]
pub struct Template {
    /// The items of the template.
    pub values: Vec<TemplateItem>,
}

/// An item of a template.
#[derive(Debug, Clone)]
pub enum TemplateItem {
    /// Plain text.
    PlainText(String),
    /// Code to interpret.
    Code(String),
}

/// An item of a template, by its text.
pub ghost enum TemplateItemView {
    PlainText(Seq<char>),
    Code(Seq<char>),
}

impl View for TemplateItem {
    type V = TemplateItemView;

    open spec fn view(&self) -> TemplateItemView {
        match self {
            TemplateItem::PlainText(s) => TemplateItemView::PlainText(s@),
            TemplateItem::Code(s) => TemplateItemView::Code(s@),
        }
    }
}

impl View for Template {
    type V = Seq<TemplateItemView>;

    open spec fn view(&self) -> Seq<TemplateItemView> {
        Seq::new(self.values@.len(), |i: int| self.values@[i]@)
    }
}

/// Parser of templates.
///
/// Grammar
///
/// ```text
/// template ::= { code | id | escape | plain }
/// code ::= '${' inner '}'          // inner: any text with balanced braces
/// id ::= '$' id_start { id_cont }  // allowed when `id` is set
/// id_start ::= letter | digit (num_first) | '_' (underscore_first)
///            | '-' (dash_first) | '.' (dot_first)
/// id_cont ::= letter | digit | '_' (underscore) | '-' (dash) | '.' (dot)
/// escape ::= '\' any_char
/// ```
#[derive(Debug, Clone, Copy)]
pub struct TemplateParser {
    /// An empty source is a template of no items (otherwise no template).
    pub empty: bool,
    /// `$name` references are allowed.
    pub id: bool,
    /// `-` may continue a name.
    pub dash: bool,
    /// `.` may continue a name.
    pub dot: bool,
    /// `_` may continue a name.
    pub underscore: bool,
    /// A digit may begin a name.
    pub num_first: bool,
    /// `_` may begin a name.
    pub underscore_first: bool,
    /// `.` may begin a name.
    pub dot_first: bool,
    /// `-` may begin a name.
    pub dash_first: bool,
}

impl TemplateParser {
    /// The parser that allows everything.
    pub open spec fn spec_default() -> TemplateParser {
        TemplateParser {
            empty: true,
            id: true,
            dash: true,
            dot: true,
            underscore: true,
            num_first: true,
            underscore_first: true,
            dot_first: true,
            dash_first: true,
        }
    }
}

impl Default for TemplateParser {
    /// Everything allowed.
    fn default() -> (r: Self)
        ensures
            r == TemplateParser::spec_default(),
    {
        TemplateParser {
            empty: true,
            id: true,
            dash: true,
            dot: true,
            underscore: true,
            num_first: true,
            underscore_first: true,
            dot_first: true,
            dash_first: true,
        }
    }
}

/// Where the template parser is.
#[derive(Debug, Clone, Copy, PartialEq, Eq, Structural)]
pub enum TemplateMode {
    Text,
    Escape,
    Begin,
    Id,
    Code,
}

/// The state of the template parser after some characters.
pub ghost struct TemplateRun {
    pub mode: TemplateMode,
    pub level: int,
    pub buff: Seq<char>,
    pub res: Seq<TemplateItemView>,
    /// The brace level stayed within `u16`.
    pub ok: bool,
}

/// Whether `c` may begin a name.
pub open spec fn spec_id_start(p: TemplateParser, c: char) -> bool {
    ||| (spec_is_alphabetic(c) && p.id)
    ||| (p.id && p.num_first && '0' <= c && c <= '9')
    ||| (p.id && p.underscore_first && c == '_')
    ||| (p.id && p.dash_first && c == '-')
    ||| (p.id && p.dot_first && c == '.')
}

/// Whether `c` may continue a name.
pub open spec fn spec_id_cont(p: TemplateParser, c: char) -> bool {
    ||| spec_is_alphabetic(c)
    ||| spec_is_numeric(c)
    ||| (c == '_' && p.underscore)
    ||| (c == '-' && p.dash)
    ||| (c == '.' && p.dot)
}

/// One character through the template parser.
pub open spec fn spec_template_step(p: TemplateParser, st: TemplateRun, c: char) -> TemplateRun {
    match st.mode {
        TemplateMode::Text => if c == '\\' {
            TemplateRun { mode: TemplateMode::Escape, ..st }
        } else if c == '$' {
            TemplateRun { mode: TemplateMode::Begin, level: 0, ..st }
        } else {
            TemplateRun { buff: st.buff.push(c), ..st }
        },
        TemplateMode::Escape => TemplateRun { mode: TemplateMode::Text, buff: st.buff.push(c), ..st },
        TemplateMode::Begin => {
            let res = if st.buff.len() > 0 {
                st.res.push(TemplateItemView::PlainText(st.buff))
            } else {
                st.res
            };
            if spec_id_start(p, c) {
                TemplateRun { mode: TemplateMode::Id, buff: seq![c], res, ..st }
            } else if c == '{' {
                TemplateRun { mode: TemplateMode::Code, level: st.level + 1, buff: Seq::empty(), res, ..st }
            } else {
                TemplateRun { mode: TemplateMode::Text, buff: Seq::empty(), res, ..st }
            }
        },
        TemplateMode::Id => if spec_id_cont(p, c) {
            TemplateRun { buff: st.buff.push(c), ..st }
        } else {
            TemplateRun {
                mode: TemplateMode::Text,
                buff: seq![c],
                res: st.res.push(TemplateItemView::Code(st.buff)),
                ..st
            }
        },
        TemplateMode::Code => if c == '{' {
            if st.level >= u16::MAX {
                TemplateRun { ok: false, ..st }
            } else {
                TemplateRun { buff: st.buff.push(c), level: st.level + 1, ..st }
            }
        } else if c == '}' {
            if st.level - 1 == 0 {
                TemplateRun {
                    mode: TemplateMode::Text,
                    level: 0,
                    buff: Seq::empty(),
                    res: st.res.push(TemplateItemView::Code(st.buff)),
                    ..st
                }
            } else {
                TemplateRun { buff: st.buff.push(c), level: st.level - 1, ..st }
            }
        } else {
            TemplateRun { buff: st.buff.push(c), ..st }
        },
    }
}

/// The state of the template parser after the characters of `s`; once the
/// brace level leaves `u16` the state stays as it was.
pub open spec fn spec_template_run(p: TemplateParser, s: Seq<char>) -> TemplateRun
    decreases s.len(),
{
    if s.len() == 0 {
        TemplateRun { mode: TemplateMode::Text, level: 0, buff: Seq::empty(), res: Seq::empty(), ok: true }
    } else {
        let prev = spec_template_run(p, s.drop_last());
        if prev.ok {
            spec_template_step(p, prev, s.last())
        } else {
            prev
        }
    }
}

/// The items of a template after its last character: what is left in the
/// buffer is plain text, or code after a name or an open brace; after a
/// lone `$` or `\` it is dropped.
pub open spec fn spec_template_finish(st: TemplateRun) -> Seq<TemplateItemView> {
    if st.buff.len() == 0 {
        st.res
    } else {
        match st.mode {
            TemplateMode::Text => st.res.push(TemplateItemView::PlainText(st.buff)),
            TemplateMode::Id => st.res.push(TemplateItemView::Code(st.buff)),
            TemplateMode::Code => st.res.push(TemplateItemView::Code(st.buff)),
            _ => st.res,
        }
    }
}

/// What the template parser gives for `s`: the items, or `None` (for an
/// empty source when empty templates are not allowed, and when braces nest
/// deeper than `u16::MAX`).
pub open spec fn spec_parse_template(p: TemplateParser, s: Seq<char>) -> Option<Seq<TemplateItemView>> {
    if s.len() == 0 {
        if p.empty {
            Some(Seq::empty())
        } else {
            None
        }
    } else {
        let st = spec_template_run(p, s);
        if st.ok {
            Some(spec_template_finish(st))
        } else {
            None
        }
    }
}

fn push_item(res: &mut Vec<TemplateItem>, code: bool, buff: &Vec<char>)
    ensures
        final(res)@.len() == old(res)@.len() + 1,
        forall|i: int| 0 <= i < old(res)@.len() ==> #[trigger] final(res)@[i] == old(res)@[i],
        final(res)@.last()@ == (if code {
            TemplateItemView::Code(buff@)
        } else {
            TemplateItemView::PlainText(buff@)
        }),
{
    let s = string_from_chars(buff);
    if code {
        res.push(TemplateItem::Code(s));
    } else {
        res.push(TemplateItem::PlainText(s));
    }
}

/// The views of a list of items.
pub open spec fn spec_items_view(items: Seq<TemplateItem>) -> Seq<TemplateItemView> {
    Seq::new(items.len(), |i: int| items[i]@)
}

impl Parser<Template> for TemplateParser {
    open spec fn accepts(&self, source: Seq<char>, result: Option<(Template, CharsCount)>) -> bool {
        match (result, spec_parse_template(*self, source)) {
            (None, None) => true,
            (Some((t, c)), Some(items)) => t@ == items && c.0 == source.len(),
            _ => false,
        }
    }

    fn parse(&self, source: &str) -> (r: Option<(Template, CharsCount)>) {
        let chars = chars_of(source);
        if chars.len() == 0 {
            return if self.empty {
                let t = Template { values: Vec::new() };
                assert(t@ =~= Seq::<TemplateItemView>::empty());
                Some((t, CharsCount(0)))
            } else {
                None
            };
        }
        let mut mode = TemplateMode::Text;
        let mut level: u16 = 0;
        let mut buff: Vec<char> = Vec::new();
        let mut res: Vec<TemplateItem> = Vec::new();
        let n = chars.len();
        let mut i: usize = 0;
        assert(chars@.take(0) =~= Seq::<char>::empty());
        while i < n
            invariant
                i <= n,
                n == chars@.len(),
                chars@ == source@,
                mode == TemplateMode::Begin ==> level == 0,
                mode == TemplateMode::Code ==> level >= 1,
                ({
                    let st = spec_template_run(*self, chars@.take(i as int));
                    &&& st.ok
                    &&& st.mode == mode
                    &&& st.level == level
                    &&& st.buff == buff@
                    &&& st.res == spec_items_view(res@)
                }),
            decreases n - i,
        {
            let chr = chars[i];
            let ghost prev = spec_template_run(*self, chars@.take(i as int));
            assert(chars@.take(i + 1).drop_last() =~= chars@.take(i as int));
            assert(chars@.take(i + 1).last() == chr);
            let ghost next = spec_template_step(*self, prev, chr);
            match mode {
                TemplateMode::Text => {
                    if chr == '\\' {
                        mode = TemplateMode::Escape;
                    } else if chr == '$' {
                        mode = TemplateMode::Begin;
                        level = 0;
                    } else {
                        buff.push(chr);
                    }
                },
                TemplateMode::Escape => {
                    mode = TemplateMode::Text;
                    buff.push(chr);
                },
                TemplateMode::Begin => {
                    if buff.len() > 0 {
                        push_item(&mut res, false, &buff);
                        assert(spec_items_view(res@) =~= prev.res.push(TemplateItemView::PlainText(prev.buff)));
                    }
                    buff = Vec::new();
                    let alpha = is_alphabetic(chr);
                    if (alpha && self.id) || (self.id && self.num_first && '0' <= chr && chr <= '9')
                        || (self.id && self.underscore_first && chr == '_') || (self.id
                        && self.dash_first && chr == '-') || (self.id && self.dot_first && chr
                        == '.') {
                        buff.push(chr);
                        mode = TemplateMode::Id;
                    } else if chr == '{' {
                        mode = TemplateMode::Code;
                        level = level + 1;
                    } else {
                        mode = TemplateMode::Text;
                    }
                },
                TemplateMode::Id => {
                    let alpha = is_alphabetic(chr);
                    let numeric = is_numeric(chr);
                    if alpha || numeric || (chr == '_' && self.underscore) || (chr == '-'
                        && self.dash) || (chr == '.' && self.dot) {
                        buff.push(chr);
                    } else {
                        push_item(&mut res, true, &buff);
                        assert(spec_items_view(res@) =~= prev.res.push(TemplateItemView::Code(prev.buff)));
                        buff = Vec::new();
                        buff.push(chr);
                        mode = TemplateMode::Text;
                    }
                },
                TemplateMode::Code => {
                    if chr == '{' {
                        if level == u16::MAX {
                            assert(!spec_template_run(*self, chars@.take(i + 1)).ok);
                            proof {
                                lemma_template_stuck(*self, chars@, i as int + 1);
                            }
                            assert(chars@.take(n as int) =~= chars@);
                            return None;
                        }
                        buff.push(chr);
                        level = level + 1;
                    } else if chr == '}' {
                        level = level - 1;
                        if level == 0 {
                            mode = TemplateMode::Text;
                            push_item(&mut res, true, &buff);
                            assert(spec_items_view(res@) =~= prev.res.push(TemplateItemView::Code(prev.buff)));
                            buff = Vec::new();
                        } else {
                            buff.push(chr);
                        }
                    } else {
                        buff.push(chr);
                    }
                },
            }
            assert(buff@ =~= next.buff);
            assert(spec_items_view(res@) =~= next.res);
            i = i + 1;
        }
        assert(chars@.take(n as int) =~= chars@);
        let ghost st = spec_template_run(*self, chars@);
        if buff.len() > 0 {
            match mode {
                TemplateMode::Text => {
                    push_item(&mut res, false, &buff);
                    assert(spec_items_view(res@) =~= st.res.push(TemplateItemView::PlainText(st.buff)));
                },
                TemplateMode::Id => {
                    push_item(&mut res, true, &buff);
                    assert(spec_items_view(res@) =~= st.res.push(TemplateItemView::Code(st.buff)));
                },
                TemplateMode::Code => {
                    push_item(&mut res, true, &buff);
                    assert(spec_items_view(res@) =~= st.res.push(TemplateItemView::Code(st.buff)));
                },
                _ => {},
            }
        }
        let t = Template { values: res };
        assert(t@ =~= spec_items_view(t.values@));
        Some((t, CharsCount(n)))
    }
}

/// Once the brace level leaves `u16`, it stays so.
proof fn lemma_template_stuck(p: TemplateParser, s: Seq<char>, k: int)
    requires
        0 <= k <= s.len(),
        !spec_template_run(p, s.take(k)).ok,
    ensures
        !spec_template_run(p, s).ok,
    decreases s.len() - k,
{
    if k < s.len() {
        assert(s.take(k + 1).drop_last() =~= s.take(k));
        lemma_template_stuck(p, s, k + 1);
    } else {
        assert(s.take(k) =~= s);
    }
}

} // verus!

verus! {

/// The text of an item: its code or its plain text.
pub open spec fn spec_item_text(item: TemplateItemView) -> Seq<char> {
    match item {
        TemplateItemView::PlainText(t) => t,
        TemplateItemView::Code(t) => t,
    }
}

/// Whether an item is code.
pub open spec fn spec_item_is_code(item: TemplateItemView) -> bool {
    item is Code
}

/// The text of a rendered template: each code item replaced by its output
/// in `outs`, each plain text kept.
pub open spec fn spec_render(items: Seq<TemplateItemView>, outs: Seq<Seq<char>>) -> Seq<char>
    decreases items.len(),
{
    if items.len() == 0 {
        Seq::empty()
    } else {
        spec_render(items.drop_last(), outs.drop_last()) + (if spec_item_is_code(items.last()) {
            outs.last()
        } else {
            spec_item_text(items.last())
        })
    }
}

/// `out` is a possible output of `f` for code `code`.
pub open spec fn spec_code_output<F: FnMut(&str) -> String>(f: F, code: Seq<char>, out: Seq<char>) -> bool {
    exists|x: &str, y: String| x@ == code && y@ == out && #[trigger] f.ensures((x,), y)
}

/// `v` is a possible value of the code or text function (as `item` is code
/// or not) for `acc` and `x`.
pub open spec fn spec_map_gives<A, F1: FnMut(&A, &str) -> A, F2: FnMut(&A, &str) -> A>(
    code_map: F1,
    text_map: F2,
    acc: A,
    item: TemplateItemView,
    x: &str,
    v: A,
) -> bool {
    if spec_item_is_code(item) {
        code_map.ensures((&acc, x), v)
    } else {
        text_map.ensures((&acc, x), v)
    }
}

/// `v` is a possible value of a step of a fold from `acc` over `item`.
pub open spec fn spec_fold_step<A, F1: FnMut(&A, &str) -> A, F2: FnMut(&A, &str) -> A>(
    code_map: F1,
    text_map: F2,
    acc: A,
    item: TemplateItemView,
    v: A,
) -> bool {
    exists|x: &str| x@ == spec_item_text(item) && #[trigger] spec_map_gives(code_map, text_map, acc, item, x, v)
}

impl Template {
    /// The outputs `outs` of `f` make `r` the rendering of this template.
    pub open spec fn rendered<F: FnMut(&str) -> String>(&self, f: F, outs: Seq<Seq<char>>, r: Seq<char>) -> bool {
        &&& outs.len() == self@.len()
        &&& forall|i: int|
            0 <= i < self@.len() && spec_item_is_code(#[trigger] self@[i]) ==> spec_code_output(
                f,
                spec_item_text(self@[i]),
                outs[i],
            )
        &&& r == spec_render(self@, outs)
    }

    /// The template as text: each code item replaced by what `f` gives for
    /// it, each plain text kept.
    pub fn to_string<F: FnMut(&str) -> String>(&self, mut f: F) -> (r: String)
        requires
            forall|x: &str| #[trigger] f.requires((x,)),
        ensures
            exists|outs: Seq<Seq<char>>| #[trigger] self.rendered(f, outs, r@),
    {
        let ghost f0 = f;
        let mut buff: Vec<char> = Vec::new();
        let ghost mut outs: Seq<Seq<char>> = Seq::empty();
        let n = self.values.len();
        let mut i: usize = 0;
        while i < n
            invariant
                i <= n,
                n == self@.len(),
                f == f0,
                forall|x: &str| #[trigger] f.requires((x,)),
                outs.len() == i,
                forall|j: int|
                    0 <= j < i && spec_item_is_code(#[trigger] self@[j]) ==> spec_code_output(
                        f,
                        spec_item_text(self@[j]),
                        outs[j],
                    ),
                buff@ == spec_render(self@.take(i as int), outs),
            decreases n - i,
        {
            let ghost items = self@.take(i as int + 1);
            let ghost old_outs = outs;
            let ghost old_buff = buff@;
            assert(items.drop_last() =~= self@.take(i as int));
            assert(items.last() == self@[i as int]);
            match &self.values[i] {
                TemplateItem::Code(s) => {
                    let x = s.as_str();
                    let out = f(x);
                    let out_chars = chars_of(out.as_str());
                    proof {
                        assert(f.ensures((x,), out));
                        assert(spec_code_output(f, spec_item_text(self@[i as int]), out@));
                        outs = outs.push(out@);
                        assert(outs.drop_last() =~= outs.take(i as int));
                    }
                    let mut k: usize = 0;
                    let ghost start = buff@;
                    while k < out_chars.len()
                        invariant
                            k <= out_chars@.len(),
                            buff@ == start + out_chars@.take(k as int),
                        decreases out_chars@.len() - k,
                    {
                        buff.push(out_chars[k]);
                        assert(buff@ =~= start + out_chars@.take(k + 1));
                        k = k + 1;
                    }
                    assert(out_chars@.take(k as int) =~= out_chars@);
                    assert(outs.drop_last() =~= old_outs);
                    assert(spec_item_is_code(items.last()));
                    assert(buff@ =~= spec_render(items, outs));
                },
                TemplateItem::PlainText(s) => {
                    let text_chars = chars_of(s.as_str());
                    proof {
                        outs = outs.push(Seq::empty());
                        assert(outs.drop_last() =~= outs.take(i as int));
                    }
                    let mut k: usize = 0;
                    let ghost start = buff@;
                    while k < text_chars.len()
                        invariant
                            k <= text_chars@.len(),
                            buff@ == start + text_chars@.take(k as int),
                        decreases text_chars@.len() - k,
                    {
                        buff.push(text_chars[k]);
                        assert(buff@ =~= start + text_chars@.take(k + 1));
                        k = k + 1;
                    }
                    assert(text_chars@.take(k as int) =~= text_chars@);
                    assert(outs.drop_last() =~= old_outs);
                    assert(!spec_item_is_code(items.last()));
                    assert(buff@ =~= spec_render(items, outs));
                },
            }
            proof {
                assert(outs.drop_last() =~= outs.take(i as int));
                assert forall|j: int|
                    0 <= j < i + 1 && spec_item_is_code(#[trigger] self@[j]) implies spec_code_output(
                        f,
                        spec_item_text(self@[j]),
                        outs[j],
                    ) by {
                }
            }
            i = i + 1;
        }
        assert(self@.take(n as int) =~= self@);
        let r = string_from_chars(&buff);
        assert(self.rendered(f, outs, r@));
        r
    }

    /// The values of a fold: `vals[0]` is a clone of `initial`, each next
    /// value is what the code or text function gives for the last value and
    /// the item, and `r` is the last value.
    pub open spec fn folded<A: Clone, F1: FnMut(&A, &str) -> A, F2: FnMut(&A, &str) -> A>(
        &self,
        initial: A,
        code_map: F1,
        text_map: F2,
        vals: Seq<A>,
        r: A,
    ) -> bool {
        &&& vals.len() == self@.len() + 1
        &&& cloned(initial, vals[0])
        &&& forall|i: int|
            0 <= i < self@.len() ==> #[trigger] spec_fold_step(code_map, text_map, vals[i], self@[i], vals[i + 1])
        &&& r == vals.last()
    }

    /// Folds the items: code items through `code_map`, plain text through
    /// `text_map`, from a clone of `initial`.
    pub fn fold<A: Clone, F1: FnMut(&A, &str) -> A, F2: FnMut(&A, &str) -> A>(
        &self,
        initial: &A,
        mut code_map: F1,
        mut text_map: F2,
    ) -> (r: A)
        requires
            forall|a: &A, x: &str| #[trigger] code_map.requires((a, x)),
            forall|a: &A, x: &str| #[trigger] text_map.requires((a, x)),
        ensures
            exists|vals: Seq<A>| #[trigger] self.folded(*initial, code_map, text_map, vals, r),
    {
        let ghost (c0, t0) = (code_map, text_map);
        let mut result = initial.clone();
        let ghost mut vals: Seq<A> = seq![result];
        let n = self.values.len();
        let mut i: usize = 0;
        while i < n
            invariant
                i <= n,
                n == self@.len(),
                code_map == c0,
                text_map == t0,
                forall|a: &A, x: &str| #[trigger] code_map.requires((a, x)),
                forall|a: &A, x: &str| #[trigger] text_map.requires((a, x)),
                vals.len() == i + 1,
                cloned(*initial, vals[0]),
                forall|j: int|
                    0 <= j < i ==> #[trigger] spec_fold_step(code_map, text_map, vals[j], self@[j], vals[j + 1]),
                result == vals.last(),
            decreases n - i,
        {
            let ghost before = result;
            match &self.values[i] {
                TemplateItem::Code(s) => {
                    let x = s.as_str();
                    result = code_map(&result, x);
                    assert(spec_map_gives(code_map, text_map, before, self@[i as int], x, result));
                },
                TemplateItem::PlainText(s) => {
                    let x = s.as_str();
                    result = text_map(&result, x);
                    assert(spec_map_gives(code_map, text_map, before, self@[i as int], x, result));
                },
            }
            proof {
                assert(spec_fold_step(code_map, text_map, before, self@[i as int], result));
                vals = vals.push(result);
            }
            i = i + 1;
        }
        assert(self.folded(*initial, code_map, text_map, vals, result));
        result
    }
}



/// The items folded in order from `initial`: each code item's text through
/// `code_step`, each plain text through `text_step`.
pub open spec fn spec_fold_items<A>(
    items: Seq<TemplateItemView>,
    initial: A,
    code_step: spec_fn(A, Seq<char>) -> A,
    text_step: spec_fn(A, Seq<char>) -> A,
) -> A
    decreases items.len(),
{
    if items.len() == 0 {
        initial
    } else {
        let acc = spec_fold_items(items.drop_last(), initial, code_step, text_step);
        if spec_item_is_code(items.last()) {
            code_step(acc, spec_item_text(items.last()))
        } else {
            text_step(acc, spec_item_text(items.last()))
        }
    }
}

proof fn lemma_fold_prefix<A, F1: FnMut(&A, &str) -> A, F2: FnMut(&A, &str) -> A>(
    items: Seq<TemplateItemView>,
    initial: A,
    code_map: F1,
    text_map: F2,
    code_step: spec_fn(A, Seq<char>) -> A,
    text_step: spec_fn(A, Seq<char>) -> A,
    vals: Seq<A>,
    i: int,
)
    requires
        0 <= i <= items.len(),
        vals.len() == items.len() + 1,
        vals[0] == initial,
        forall|j: int| 0 <= j < items.len() ==> #[trigger] spec_fold_step(code_map, text_map, vals[j], items[j], vals[j + 1]),
        forall|a: A, x: &str, v: A| #[trigger] code_map.ensures((&a, x), v) ==> v == code_step(a, x@),
        forall|a: A, x: &str, v: A| #[trigger] text_map.ensures((&a, x), v) ==> v == text_step(a, x@),
    ensures
        vals[i] == spec_fold_items(items.take(i), initial, code_step, text_step),
    decreases i,
{
    if i == 0 {
        assert(items.take(0) =~= Seq::<TemplateItemView>::empty());
    } else {
        lemma_fold_prefix(items, initial, code_map, text_map, code_step, text_step, vals, i - 1);
        assert(items.take(i).drop_last() =~= items.take(i - 1));
        assert(items.take(i).last() == items[i - 1]);
        let j = i - 1;
        assert(spec_fold_step(code_map, text_map, vals[j], items[j], vals[j + 1]));
        assert(j + 1 == i);
        let x = choose|x: &str| x@ == spec_item_text(items[i - 1]) && #[trigger] spec_map_gives(code_map, text_map, vals[i - 1], items[i - 1], x, vals[i]);
        if spec_item_is_code(items[i - 1]) {
            assert(code_map.ensures((&vals[i - 1], x), vals[i]));
        } else {
            assert(text_map.ensures((&vals[i - 1], x), vals[i]));
        }
    }
}

/// Where the code and text functions give one value each (`code_step` and
/// `text_step` of the last value and the item's text) and `initial` clones
/// to itself, a fold gives the items folded in order from `initial`, one
/// step per item.
pub proof fn lemma_fold_in_order<A: Clone, F1: FnMut(&A, &str) -> A, F2: FnMut(&A, &str) -> A>(
    t: Template,
    initial: A,
    code_map: F1,
    text_map: F2,
    code_step: spec_fn(A, Seq<char>) -> A,
    text_step: spec_fn(A, Seq<char>) -> A,
    vals: Seq<A>,
    r: A,
)
    requires
        t.folded(initial, code_map, text_map, vals, r),
        forall|c: A| #[trigger] cloned(initial, c) ==> c == initial,
        forall|a: A, x: &str, v: A| #[trigger] code_map.ensures((&a, x), v) ==> v == code_step(a, x@),
        forall|a: A, x: &str, v: A| #[trigger] text_map.ensures((&a, x), v) ==> v == text_step(a, x@),
    ensures
        r == spec_fold_items(t@, initial, code_step, text_step),
{
    assert(cloned(initial, vals[0]));
    lemma_fold_prefix(t@, initial, code_map, text_map, code_step, text_step, vals, t@.len() as int);
    assert(t@.take(t@.len() as int) =~= t@);
}

proof fn lemma_render_items(items: Seq<TemplateItemView>, outs: Seq<Seq<char>>, g: spec_fn(Seq<char>) -> Seq<char>)
    requires
        outs.len() == items.len(),
        forall|i: int| 0 <= i < items.len() && spec_item_is_code(#[trigger] items[i]) ==> outs[i] == g(spec_item_text(items[i])),
    ensures
        spec_render(items, outs) == spec_fold_items(
            items,
            Seq::<char>::empty(),
            |acc: Seq<char>, c: Seq<char>| acc + g(c),
            |acc: Seq<char>, s: Seq<char>| acc + s,
        ),
    decreases items.len(),
{
    if items.len() > 0 {
        let n = items.len() - 1;
        assert forall|i: int| 0 <= i < items.drop_last().len() && spec_item_is_code(#[trigger] items.drop_last()[i]) implies outs.drop_last()[i] == g(spec_item_text(items.drop_last()[i])) by {
            assert(items.drop_last()[i] == items[i]);
        }
        lemma_render_items(items.drop_last(), outs.drop_last(), g);
        if spec_item_is_code(items[n]) {
            assert(outs.last() == g(spec_item_text(items.last())));
        }
    }
}

/// Where `f` gives one text for each code (`g` of it), rendering a template
/// is folding its items from the empty text, each code item adding `g` of
/// its code and each plain text adding itself.
pub proof fn lemma_render_is_fold<F: FnMut(&str) -> String>(
    t: Template,
    f: F,
    g: spec_fn(Seq<char>) -> Seq<char>,
    outs: Seq<Seq<char>>,
    r: Seq<char>,
)
    requires
        t.rendered(f, outs, r),
        forall|x: &str, y: String| #[trigger] f.ensures((x,), y) ==> y@ == g(x@),
    ensures
        r == spec_fold_items(
            t@,
            Seq::<char>::empty(),
            |acc: Seq<char>, c: Seq<char>| acc + g(c),
            |acc: Seq<char>, s: Seq<char>| acc + s,
        ),
{
    assert forall|i: int| 0 <= i < t@.len() && spec_item_is_code(#[trigger] t@[i]) implies outs[i] == g(spec_item_text(t@[i])) by {
        assert(spec_code_output(f, spec_item_text(t@[i]), outs[i]));
        let (x, y) = choose|x: &str, y: String| x@ == spec_item_text(t@[i]) && y@ == outs[i] && #[trigger] f.ensures((x,), y);
        assert(f.ensures((x,), y));
    }
    lemma_render_items(t@, outs, g);
}

/// `out` is a value that mapping `item`, of text `x`, can give: a code
/// item through `code_map` to the left, plain text through `text_map` to
/// the right.
pub open spec fn spec_map_out<A, B, F1: FnMut(&str) -> A, F2: FnMut(&str) -> B>(
    code_map: F1,
    text_map: F2,
    item: TemplateItemView,
    x: &str,
    out: Choice<A, B>,
) -> bool {
    match (item, out) {
        (TemplateItemView::Code(_), Choice::Left(a)) => code_map.ensures((x,), a),
        (TemplateItemView::PlainText(_), Choice::Right(b)) => text_map.ensures((x,), b),
        _ => false,
    }
}

/// `out` is what mapping `item` can give.
pub open spec fn spec_mapped<A, B, F1: FnMut(&str) -> A, F2: FnMut(&str) -> B>(
    code_map: F1,
    text_map: F2,
    item: TemplateItemView,
    out: Choice<A, B>,
) -> bool {
    exists|x: &str| x@ == spec_item_text(item) && #[trigger] spec_map_out(code_map, text_map, item, x, out)
}

impl Template {
    /// Each item mapped: code items through `code_map` to the left, plain
    /// text through `text_map` to the right, in order.
    pub fn map<A, B, F1: FnMut(&str) -> A, F2: FnMut(&str) -> B>(&self, mut code_map: F1, mut text_map: F2) -> (r: Vec<Choice<A, B>>)
        requires
            forall|x: &str| #[trigger] code_map.requires((x,)),
            forall|x: &str| #[trigger] text_map.requires((x,)),
        ensures
            r@.len() == self@.len(),
            forall|i: int| 0 <= i < self@.len() ==> spec_mapped(code_map, text_map, self@[i], #[trigger] r@[i]),
    {
        let ghost (c0, t0) = (code_map, text_map);
        let mut result: Vec<Choice<A, B>> = Vec::new();
        let n = self.values.len();
        let mut i: usize = 0;
        while i < n
            invariant
                i <= n,
                n == self@.len(),
                code_map == c0,
                text_map == t0,
                result@.len() == i,
                forall|x: &str| #[trigger] code_map.requires((x,)),
                forall|x: &str| #[trigger] text_map.requires((x,)),
                forall|j: int| 0 <= j < i ==> spec_mapped(code_map, text_map, self@[j], #[trigger] result@[j]),
            decreases n - i,
        {
            let ghost before = result@;
            match &self.values[i] {
                TemplateItem::Code(s) => {
                    let x = s.as_str();
                    let a = code_map(x);
                    proof {
                        assert(self@[i as int] == TemplateItemView::Code(s@));
                        assert(spec_map_out(code_map, text_map, self@[i as int], x, Choice::<A, B>::Left(a)));
                    }
                    result.push(Choice::Left(a));
                },
                TemplateItem::PlainText(s) => {
                    let x = s.as_str();
                    let b = text_map(x);
                    proof {
                        assert(self@[i as int] == TemplateItemView::PlainText(s@));
                        assert(spec_map_out(code_map, text_map, self@[i as int], x, Choice::<A, B>::Right(b)));
                    }
                    result.push(Choice::Right(b));
                },
            }
            proof {
                assert forall|j: int| 0 <= j < i + 1 implies spec_mapped(
                    code_map,
                    text_map,
                    self@[j],
                    #[trigger] result@[j],
                ) by {
                    if j < i {
                        assert(result@[j] == before[j]);
                    }
                }
            }
            i = i + 1;
        }
        result
    }
}

} // verus!
