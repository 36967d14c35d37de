//! Templates of file paths: text with `${...}` codes for the time, random
//! letters, environment variables and named variables.

use vstd::prelude::*;
use vstd::string::StringExecFns;
use rand::RngCore;
use crate::parse::parser::Parser;
use crate::parse::substr::SubString;
use crate::parse::substr::CharsCount;
use crate::parse::keyword::{starts_with, spec_starts_with};
use crate::parse::number::{NumberParser, Number, spec_parse_number, spec_fold_u128, spec_fold_u128_overflows};
use crate::parse::digit::spec_radix;
use crate::parse::template::{
    TemplateParser, TemplateItem, TemplateItemView, spec_parse_template, spec_code_output,
};

verus! {

/// A random number from the thread's generator (`rand::thread_rng` and
/// `RngCore::next_u64`); nothing is promised of its value.
#[verifier::external_body]
fn random_u64() -> u64 {
    rand::thread_rng().next_u64()
}

/// The letters random parts are made of.
pub open spec fn spec_random_letters() -> Seq<char> {
    seq![
        '0', '1', '2', '3', '4', '5', '6', '7', '8', '9', 'a', 'b', 'c', 'd', 'e', 'f', 'g', 'h',
        'i', 'j', 'k', 'l', 'm', 'n', 'o', 'p', 'q', 'r', 's', 't', 'u', 'v', 'w', 'x', 'y', 'z',
    ]
}

/// The letter that a random draw picks: the draw modulo the number of
/// letters.
pub open spec fn spec_random_letter(draw: u64) -> char {
    spec_random_letters()[(draw % 36) as int]
}

/// The letter that the random draw `draw` picks; see [spec_random_letter].
pub fn random_letter(draw: u64) -> (c: char)
    ensures
        c == spec_random_letter(draw),
{
    let letters = "0123456789abcdefghijklmnopqrstuvwxyz";
    proof {
        reveal_strlit("0123456789abcdefghijklmnopqrstuvwxyz");
        assert(letters@ =~= spec_random_letters());
    }
    let idx = (draw % 36) as usize;
    letters.get_char(idx)
}

/// Something that makes a part of a path.
pub trait PathValue {
    fn generate(&mut self) -> String;
}

/// Plain text in a path.
pub struct PlainValue(pub String);

impl PathValue for PlainValue {
    fn generate(&mut self) -> (r: String)
        ensures
            r@ == old(self).0@,
            *final(self) == *old(self),
    {
        String::from_str(self.0.as_str())
    }
}

/// A part of a path template.
#[derive(Debug)]
pub enum PathPart {
    /// Plain text.
    Plain(String),
    /// The current time, in this format.
    DateTime(String),
    /// This many random letters and digits.
    Random(u32),
    /// The value of the parser's variable of this name, as it is when the
    /// path is made.
    Variable(String),
}

/// A part of a path template, by its text.
pub ghost enum PathPartView {
    Plain(Seq<char>),
    DateTime(Seq<char>),
    Random(u32),
    Variable(Seq<char>),
}

impl View for PathPart {
    type V = PathPartView;

    open spec fn view(&self) -> PathPartView {
        match self {
            PathPart::Plain(s) => PathPartView::Plain(s@),
            PathPart::DateTime(s) => PathPartView::DateTime(s@),
            PathPart::Random(n) => PathPartView::Random(*n),
            PathPart::Variable(s) => PathPartView::Variable(s@),
        }
    }
}

/// A template of file paths.
#[derive(Debug)]
pub struct PathTemplate {
    pub generators: Vec<PathPart>,
}

impl PathPart {
    /// A copy of this part.
    pub fn copy_part(&self) -> (r: PathPart)
        ensures
            r@ == self@,
    {
        match self {
            PathPart::Plain(s) => PathPart::Plain(String::from_str(s.as_str())),
            PathPart::DateTime(s) => PathPart::DateTime(String::from_str(s.as_str())),
            PathPart::Random(n) => PathPart::Random(*n),
            PathPart::Variable(s) => PathPart::Variable(String::from_str(s.as_str())),
        }
    }
}

impl PathTemplate {
    /// A copy of this template, with the same parts.
    pub fn clone(&self) -> (r: PathTemplate)
        ensures
            r@ == self@,
    {
        let mut generators: Vec<PathPart> = Vec::new();
        let mut i: usize = 0;
        while i < self.generators.len()
            invariant
                i <= self.generators@.len(),
                generators@.len() == i,
                forall|j: int| 0 <= j < i ==> #[trigger] generators@[j]@ == self.generators@[j]@,
            decreases self.generators.len() - i,
        {
            generators.push(self.generators[i].copy_part());
            i = i + 1;
        }
        let r = PathTemplate { generators };
        assert(r@ =~= self@);
        r
    }
}

/// The views of the parts of a template.
pub open spec fn spec_parts_view(parts: Seq<PathPart>) -> Seq<PathPartView> {
    Seq::new(parts.len(), |i: int| parts[i]@)
}

impl View for PathTemplate {
    type V = Seq<PathPartView>;

    open spec fn view(&self) -> Seq<PathPartView> {
        spec_parts_view(self.generators@)
    }
}

/// The value of the first pair of `pairs` named `name`.
pub open spec fn spec_lookup(pairs: Seq<(Seq<char>, Seq<char>)>, name: Seq<char>) -> Option<Seq<char>>
    decreases pairs.len(),
{
    if pairs.len() == 0 {
        None
    } else if pairs[0].0 == name {
        Some(pairs[0].1)
    } else {
        spec_lookup(pairs.drop_first(), name)
    }
}

/// The names and values of pairs of strings.
pub open spec fn spec_pairs(v: Seq<(String, String)>) -> Seq<(Seq<char>, Seq<char>)> {
    Seq::new(v.len(), |i: int| (v[i].0@, v[i].1@))
}

/// The count that a `rnd:` code gives: the number at the start of the text,
/// where it fits in a `u32`.
pub open spec fn spec_random_count(s: Seq<char>) -> Option<u32> {
    match spec_parse_number(s) {
        Some((ds, b, _)) => if spec_fold_u128_overflows(ds, spec_radix(b) as int, 0, 1) {
            None
        } else {
            match spec_fold_u128(ds, spec_radix(b) as int, 0, 1) {
                Some(v) => if v <= u32::MAX {
                    Some(v as u32)
                } else {
                    None
                },
                None => None,
            }
        },
        None => None,
    }
}

/// The part a code makes: `time:F` the time in format `F`, `env:N` the
/// value of environment variable `N`, `rnd:K` `K` random letters, and any
/// other code the variable it names, where it is set; `None` where the code
/// names nothing.
pub open spec fn spec_code_part(
    code: Seq<char>,
    vars: Seq<(Seq<char>, Seq<char>)>,
    env: Seq<(Seq<char>, Seq<char>)>,
) -> Option<PathPartView> {
    if spec_starts_with(code, seq!['t', 'i', 'm', 'e', ':']) && code.len() > 5 {
        Some(PathPartView::DateTime(code.skip(5)))
    } else if spec_starts_with(code, seq!['e', 'n', 'v', ':']) && code.len() > 4 {
        match spec_lookup(env, code.skip(4)) {
            Some(v) => Some(PathPartView::Plain(v)),
            None => None,
        }
    } else if spec_starts_with(code, seq!['r', 'n', 'd', ':']) && code.len() > 4 {
        match spec_random_count(code.skip(4)) {
            Some(n) => Some(PathPartView::Random(n)),
            None => None,
        }
    } else {
        match spec_lookup(vars, code) {
            Some(_) => Some(PathPartView::Variable(code)),
            None => None,
        }
    }
}

/// The message of the error for a code that names nothing.
pub open spec fn spec_code_error(code: Seq<char>) -> Seq<char> {
    if spec_starts_with(code, seq!['e', 'n', 'v', ':']) && code.len() > 4 {
        "env variable err: environment variable not found: "@ + code.skip(4)
    } else if spec_starts_with(code, seq!['r', 'n', 'd', ':']) && code.len() > 4 {
        "can't parse "@ + code.skip(4) + " as a count"@
    } else {
        "can't read internal variable "@ + code
    }
}

/// The parts that template items make, or the error of the first code that
/// names nothing.
pub open spec fn spec_path_parts(
    items: Seq<TemplateItemView>,
    vars: Seq<(Seq<char>, Seq<char>)>,
    env: Seq<(Seq<char>, Seq<char>)>,
) -> Result<Seq<PathPartView>, Seq<char>>
    decreases items.len(),
{
    if items.len() == 0 {
        Ok(Seq::empty())
    } else {
        let part = match items[0] {
            TemplateItemView::PlainText(t) => Some(PathPartView::Plain(t)),
            TemplateItemView::Code(c) => spec_code_part(c, vars, env),
        };
        match part {
            None => Err(spec_code_error(items[0]->Code_0)),
            Some(p) => match spec_path_parts(items.drop_first(), vars, env) {
                Ok(rest) => Ok(seq![p] + rest),
                Err(e) => Err(e),
            },
        }
    }
}

/// `parts` put before what `r` gives.
pub open spec fn spec_prepend_parts(
    parts: Seq<PathPartView>,
    r: Result<Seq<PathPartView>, Seq<char>>,
) -> Result<Seq<PathPartView>, Seq<char>> {
    match r {
        Ok(rest) => Ok(parts + rest),
        Err(e) => Err(e),
    }
}

/// What a template parse of `source` gives: the parts of its items, or the
/// error of the first code that names nothing; a source that is no template
/// gives no parts.
pub open spec fn spec_parse_path(
    source: Seq<char>,
    vars: Seq<(Seq<char>, Seq<char>)>,
    env: Seq<(Seq<char>, Seq<char>)>,
) -> Result<Seq<PathPartView>, Seq<char>> {
    match spec_parse_template(TemplateParser::spec_default(), source) {
        Some(items) => spec_path_parts(items, vars, env),
        None => Ok(Seq::empty()),
    }
}

/// The value of the first pair named `name`.
fn lookup(pairs: &Vec<(String, String)>, name: &str) -> (r: Option<String>)
    ensures
        match spec_lookup(spec_pairs(pairs@), name@) {
            Some(v) => r matches Some(x) && x@ == v,
            None => r is None,
        },
{
    let mut i: usize = 0;
    proof {
        assert(spec_pairs(pairs@).skip(0) =~= spec_pairs(pairs@));
    }
    while i < pairs.len()
        invariant
            i <= pairs.len(),
            spec_lookup(spec_pairs(pairs@), name@) == spec_lookup(spec_pairs(pairs@).skip(i as int), name@),
        decreases pairs.len() - i,
    {
        proof {
            assert(spec_pairs(pairs@).skip(i as int).drop_first() =~= spec_pairs(pairs@).skip(i + 1));
            assert(spec_pairs(pairs@).skip(i as int)[0] == (pairs@[i as int].0@, pairs@[i as int].1@));
        }
        if crate::text::same_text(pairs[i].0.as_str(), name) {
            return Some(String::from_str(pairs[i].1.as_str()));
        }
        i = i + 1;
    }
    proof {
        assert(spec_pairs(pairs@).skip(i as int) =~= Seq::<(Seq<char>, Seq<char>)>::empty());
    }
    None
}

/// The part a code makes, where it names something.
fn code_part(code: &str, vars: &Vec<(String, String)>, env: &Vec<(String, String)>) -> (r: Option<PathPart>)
    ensures
        match spec_code_part(code@, spec_pairs(vars@), spec_pairs(env@)) {
            Some(p) => r matches Some(x) && x@ == p,
            None => r is None,
        },
{
    proof {
        reveal_strlit("time:");
        reveal_strlit("env:");
        reveal_strlit("rnd:");
        assert("time:"@ =~= seq!['t', 'i', 'm', 'e', ':']);
        assert("env:"@ =~= seq!['e', 'n', 'v', ':']);
        assert("rnd:"@ =~= seq!['r', 'n', 'd', ':']);
    }
    let len = code.unicode_len();
    if starts_with(code, "time:") && len > 5 {
        let rest = code.substring_char(5, len);
        proof {
            assert(rest@ =~= code@.skip(5));
        }
        return Some(PathPart::DateTime(String::from_str(rest)));
    }
    if starts_with(code, "env:") && len > 4 {
        let rest = code.substring_char(4, len);
        proof {
            assert(rest@ =~= code@.skip(4));
        }
        return match lookup(env, rest) {
            Some(v) => Some(PathPart::Plain(v)),
            None => None,
        };
    }
    if starts_with(code, "rnd:") && len > 4 {
        let rest = code.substring_char(4, len);
        proof {
            assert(rest@ =~= code@.skip(4));
        }
        return match NumberParser.parse(rest) {
            Some((num, _)) => {
                if num.overflows_u128() {
                    None
                } else {
                    match num.try_u32() {
                        Some(n) => Some(PathPart::Random(n)),
                        None => None,
                    }
                }
            },
            None => None,
        };
    }
    match lookup(vars, code) {
        Some(_) => Some(PathPart::Variable(String::from_str(code))),
        None => None,
    }
}

/// The part of a path that one part of a template gives: its text, the time
/// as `f` formats it, random letters, or the value that `vars` give the
/// variable it names (nothing where they do not set it).
pub open spec fn spec_part_output<F: Fn(&str) -> String>(
    vars: Seq<(Seq<char>, Seq<char>)>,
    f: F,
    p: PathPartView,
    out: Seq<char>,
) -> bool {
    match p {
        PathPartView::Variable(name) => out == match spec_lookup(vars, name) {
            Some(v) => v,
            None => Seq::<char>::empty(),
        },
        PathPartView::Plain(t) => out == t,
        PathPartView::DateTime(fmt) => spec_code_output(f, fmt, out),
        PathPartView::Random(n) => exists|draws: Seq<u64>|
            draws.len() == n && #[trigger] spec_letters_of(draws) == out,
    }
}

/// The letters that the random draws `draws` pick, one each.
pub open spec fn spec_letters_of(draws: Seq<u64>) -> Seq<char> {
    Seq::new(draws.len(), |i: int| spec_random_letter(draws[i]))
}

/// The text of the letters that the random draws `draws` pick, one letter
/// per draw, in order.
pub fn random_text(draws: &Vec<u64>) -> (r: String)
    ensures
        r@ == spec_letters_of(draws@),
{
    let mut chars: Vec<char> = Vec::new();
    let mut k: usize = 0;
    while k < draws.len()
        invariant
            k <= draws@.len(),
            chars@ == spec_letters_of(draws@.take(k as int)),
        decreases draws.len() - k,
    {
        chars.push(random_letter(draws[k]));
        proof {
            assert(draws@.take(k + 1).drop_last() =~= draws@.take(k as int));
            assert(chars@ =~= spec_letters_of(draws@.take(k + 1)));
        }
        k = k + 1;
    }
    proof {
        assert(draws@.take(k as int) =~= draws@);
    }
    crate::text::string_from_chars(&chars)
}

/// The concatenation of texts.
pub open spec fn spec_concat(outs: Seq<Seq<char>>) -> Seq<char>
    decreases outs.len(),
{
    if outs.len() == 0 {
        Seq::empty()
    } else {
        spec_concat(outs.drop_last()) + outs.last()
    }
}

impl PathTemplate {
    /// `r` is a path this template gives: one output per part, in order.
    pub open spec fn generated<F: Fn(&str) -> String>(
        &self,
        vars: Seq<(Seq<char>, Seq<char>)>,
        f: F,
        outs: Seq<Seq<char>>,
        r: Seq<char>,
    ) -> bool {
        &&& outs.len() == self@.len()
        &&& forall|i: int| 0 <= i < outs.len() ==> spec_part_output(vars, f, self@[i], #[trigger] outs[i])
        &&& r == spec_concat(outs)
    }

    /// A path from the template: plain parts as they are, the time as
    /// `format_time` formats it, random letters and digits, and the values
    /// that `variables` (a parser's variables, as they are now) give the
    /// variables named.
    pub fn generate<F: Fn(&str) -> String>(&self, variables: &Vec<(String, String)>, format_time: F) -> (r: String)
        requires
            forall|s: &str| #[trigger] format_time.requires((s,)),
        ensures
            exists|outs: Seq<Seq<char>>| #[trigger] self.generated(spec_pairs(variables@), format_time, outs, r@),
    {
        let mut out = String::from_str("");
        let ghost mut outs: Seq<Seq<char>> = Seq::empty();
        proof {
            reveal_strlit("");
        }
        let mut i: usize = 0;
        while i < self.generators.len()
            invariant
                i <= self.generators.len(),
                forall|s: &str| #[trigger] format_time.requires((s,)),
                outs.len() == i,
                forall|j: int| 0 <= j < i ==> spec_part_output(spec_pairs(variables@), format_time, self@[j], #[trigger] outs[j]),
                out@ == spec_concat(outs),
            decreases self.generators.len() - i,
        {
            let part_text = self.part_text(i, variables, &format_time);
            let ghost o = part_text@;
            out.append(part_text.as_str());
            proof {
                let old_outs = outs;
                outs = outs.push(o);
                assert(outs.drop_last() =~= old_outs);
                assert forall|j: int| 0 <= j < i + 1 implies spec_part_output(spec_pairs(variables@), format_time, self@[j], #[trigger] outs[j]) by {
                    if j < i {
                        assert(outs[j] == old_outs[j]);
                    }
                }
            }
            i = i + 1;
        }
        proof {
            assert(self.generated(spec_pairs(variables@), format_time, outs, out@));
        }
        out
    }

    /// The text of part `i`.
    fn part_text<F: Fn(&str) -> String>(&self, i: usize, variables: &Vec<(String, String)>, format_time: &F) -> (r: String)
        requires
            i < self.generators.len(),
            forall|s: &str| #[trigger] format_time.requires((s,)),
        ensures
            spec_part_output(spec_pairs(variables@), *format_time, self@[i as int], r@),
    {
        match &self.generators[i] {
            PathPart::Variable(name) => {
                assert(self@[i as int] == PathPartView::Variable(name@));
                match lookup(variables, name.as_str()) {
                    Some(v) => v,
                    None => {
                        let e = String::from_str("");
                        proof {
                            reveal_strlit("");
                            assert(e@ =~= Seq::<char>::empty());
                        }
                        e
                    },
                }
            },
            PathPart::Plain(t) => String::from_str(t.as_str()),
            PathPart::DateTime(fmt) => {
                let s = format_time(fmt.as_str());
                proof {
                    assert(spec_code_output(*format_time, fmt@, s@));
                }
                s
            },
            PathPart::Random(n) => {
                let mut draws: Vec<u64> = Vec::new();
                let mut k: u32 = 0;
                while k < *n
                    invariant
                        k <= *n,
                        draws@.len() == k,
                    decreases *n - k,
                {
                    draws.push(random_u64());
                    k = k + 1;
                }
                random_text(&draws)
            },
        }
    }
}

/// Parser of path templates, with the named variables it knows.
#[derive(Debug)]
pub struct PathTemplateParser {
    pub variables: Vec<(String, String)>,
}

impl Default for PathTemplateParser {
    fn default() -> (r: Self)
        ensures
            r.variables@.len() == 0,
    {
        PathTemplateParser { variables: Vec::new() }
    }
}

impl PathTemplateParser {
    /// Sets variable `name` to `value`, in place where it is set already.
    pub fn set_variable(&mut self, name: &str, value: &str)
        ensures
            spec_lookup(spec_pairs(final(self).variables@), name@) == Some(value@),
            forall|n: Seq<char>| n != name@ ==> spec_lookup(spec_pairs(final(self).variables@), n)
                == spec_lookup(spec_pairs(old(self).variables@), n),
    {
        let mut i: usize = 0;
        while i < self.variables.len()
            invariant
                i <= self.variables.len(),
                self.variables@ == old(self).variables@,
                forall|j: int| 0 <= j < i ==> #[trigger] self.variables@[j].0@ != name@,
            decreases self.variables.len() - i,
        {
            if crate::text::same_text(self.variables[i].0.as_str(), name) {
                let ghost before = spec_pairs(self.variables@);
                self.variables.set(i, (String::from_str(name), String::from_str(value)));
                proof {
                    let after = spec_pairs(self.variables@);
                    assert(after =~= before.update(i as int, (name@, value@)));
                    lemma_lookup_update(before, i as int, name@, value@);
                }
                return;
            }
            i = i + 1;
        }
        let ghost before = spec_pairs(self.variables@);
        self.variables.push((String::from_str(name), String::from_str(value)));
        proof {
            assert(spec_pairs(self.variables@) =~= before.push((name@, value@)));
            lemma_lookup_push(before, name@, value@);
        }
    }

    /// The parser with variable `name` set to `value`.
    pub fn with_variable(self, name: &str, value: &str) -> (r: Self)
        ensures
            spec_lookup(spec_pairs(r.variables@), name@) == Some(value@),
            forall|n: Seq<char>| n != name@ ==> spec_lookup(spec_pairs(r.variables@), n) == spec_lookup(
                spec_pairs(self.variables@),
                n,
            ),
    {
        let mut p = self;
        p.set_variable(name, value);
        p
    }

    /// Parses a path template, the environment variables being `env`.
    ///
    /// `${time:F}` is the time in format `F`, `${rnd:K}` `K` random letters
    /// and digits, `${env:N}` the value of environment variable `N`, and any
    /// other code the value of the variable it names, which must be set
    /// (`${root}` too). A code that names nothing is an error. A source that
    /// is no template gives an empty template.
    pub fn parse(&self, source: &str, env: &Vec<(String, String)>) -> (r: Result<PathTemplate, String>)
        ensures
            match spec_parse_path(source@, spec_pairs(self.variables@), spec_pairs(env@)) {
                Ok(parts) => r matches Ok(t) && t@ == parts,
                Err(msg) => r matches Err(e) && e@ == msg,
            },
    {
        let tp = TemplateParser::default();
        let ghost vars = spec_pairs(self.variables@);
        let ghost envs = spec_pairs(env@);
        match tp.parse(source) {
            Some((tmpl, _)) => {
                let ghost items = tmpl@;
                let mut parts: Vec<PathPart> = Vec::new();
                let mut i: usize = 0;
                proof {
                    assert(items.skip(0) =~= items);
                    assert(spec_parts_view(parts@) =~= Seq::<PathPartView>::empty());
                    match spec_path_parts(items, vars, envs) {
                        Ok(q) => assert(Seq::<PathPartView>::empty() + q =~= q),
                        Err(_) => {},
                    }
                }
                while i < tmpl.values.len()
                    invariant
                        i <= tmpl.values.len(),
                        items == tmpl@,
                        vars == spec_pairs(self.variables@),
                        envs == spec_pairs(env@),
                        spec_parse_path(source@, vars, envs) == spec_path_parts(items, vars, envs),
                        spec_path_parts(items, vars, envs) == spec_prepend_parts(
                            spec_parts_view(parts@),
                            spec_path_parts(items.skip(i as int), vars, envs),
                        ),
                    decreases tmpl.values.len() - i,
                {
                    let ghost rest = items.skip(i as int);
                    proof {
                        assert(rest[0] == tmpl.values@[i as int]@);
                        assert(rest.drop_first() =~= items.skip(i + 1));
                    }
                    let ghost p0 = spec_parts_view(parts@);
                    let part = match &tmpl.values[i] {
                        TemplateItem::PlainText(t) => Some(PathPart::Plain(String::from_str(t.as_str()))),
                        TemplateItem::Code(c) => match code_part(c.as_str(), &self.variables, env) {
                            Some(p) => Some(p),
                            None => {
                                let msg = code_error(c.as_str());
                                proof {
                                    assert(rest[0] == TemplateItemView::Code(c@));
                                    assert(spec_path_parts(rest, vars, envs) == Err::<Seq<PathPartView>, Seq<char>>(
                                        spec_code_error(c@),
                                    ));
                                }
                                return Err(msg);
                            },
                        },
                    };
                    match part {
                        Some(p) => {
                            let ghost pv = p@;
                            parts.push(p);
                            proof {
                                assert(spec_parts_view(parts@) =~= p0.push(pv));
                                match spec_path_parts(items.skip(i + 1), vars, envs) {
                                    Ok(q) => assert(p0.push(pv) + q =~= p0 + (seq![pv] + q)),
                                    Err(_) => {},
                                }
                            }
                        },
                        None => {},
                    }
                    i = i + 1;
                }
                proof {
                    assert(items.skip(i as int) =~= Seq::<TemplateItemView>::empty());
                    assert(spec_parts_view(parts@) + Seq::<PathPartView>::empty() =~= spec_parts_view(parts@));
                }
                Ok(PathTemplate { generators: parts })
            },
            None => {
                let t = PathTemplate { generators: Vec::new() };
                proof {
                    assert(t@ =~= Seq::<PathPartView>::empty());
                }
                Ok(t)
            },
        }
    }
}

/// The message of the error for `code`, a code that names nothing.
fn code_error(code: &str) -> (r: String)
    ensures
        r@ == spec_code_error(code@),
{
    proof {
        reveal_strlit("env:");
        reveal_strlit("rnd:");
        assert("env:"@ =~= seq!['e', 'n', 'v', ':']);
        assert("rnd:"@ =~= seq!['r', 'n', 'd', ':']);
    }
    let len = code.unicode_len();
    if starts_with(code, "env:") && len > 4 {
        let rest = code.substring_char(4, len);
        let mut m = String::from_str("env variable err: environment variable not found: ");
        m.append(rest);
        proof {
            assert(rest@ =~= code@.skip(4));
        }
        return m;
    }
    if starts_with(code, "rnd:") && len > 4 {
        let rest = code.substring_char(4, len);
        let mut m = String::from_str("can't parse ");
        m.append(rest);
        m.append(" as a count");
        proof {
            assert(rest@ =~= code@.skip(4));
        }
        return m;
    }
    let mut m = String::from_str("can't read internal variable ");
    m.append(code);
    m
}

/// Looking a name up after an update at its first position gives the new
/// value, and other names are looked up as before.
proof fn lemma_lookup_update(p: Seq<(Seq<char>, Seq<char>)>, i: int, name: Seq<char>, value: Seq<char>)
    requires
        0 <= i < p.len(),
        p[i].0 == name,
        forall|j: int| 0 <= j < i ==> #[trigger] p[j].0 != name,
    ensures
        spec_lookup(p.update(i, (name, value)), name) == Some(value),
        forall|n: Seq<char>| n != name ==> spec_lookup(p.update(i, (name, value)), n) == spec_lookup(p, n),
    decreases i,
{
    let q = p.update(i, (name, value));
    if i > 0 {
        assert(q.drop_first() =~= p.drop_first().update(i - 1, (name, value)));
        lemma_lookup_update(p.drop_first(), i - 1, name, value);
        assert(q[0] == p[0]);
        assert forall|n: Seq<char>| n != name implies spec_lookup(q, n) == spec_lookup(p, n) by {
            let pd = p.drop_first();
            assert(q[0] == p[0]);
            assert(spec_lookup(pd.update(i - 1, (name, value)), n) == spec_lookup(pd, n));
        }
    } else {
        assert forall|n: Seq<char>| n != name implies spec_lookup(q, n) == spec_lookup(p, n) by {
            assert(q.drop_first() =~= p.drop_first());
            assert(q[0].0 == name);
        }
    }
}

/// Looking a name up after pushing it, where it was not there, gives the
/// new value, and other names are looked up as before.
proof fn lemma_lookup_push(p: Seq<(Seq<char>, Seq<char>)>, name: Seq<char>, value: Seq<char>)
    requires
        forall|j: int| 0 <= j < p.len() ==> #[trigger] p[j].0 != name,
    ensures
        spec_lookup(p.push((name, value)), name) == Some(value),
        forall|n: Seq<char>| n != name ==> spec_lookup(p.push((name, value)), n) == spec_lookup(p, n),
    decreases p.len(),
{
    let q = p.push((name, value));
    if p.len() > 0 {
        assert(q.drop_first() =~= p.drop_first().push((name, value)));
        lemma_lookup_push(p.drop_first(), name, value);
        assert forall|n: Seq<char>| n != name implies spec_lookup(q, n) == spec_lookup(p, n) by {
            let pd = p.drop_first();
            assert(q[0] == p[0]);
            assert(spec_lookup(pd.push((name, value)), n) == spec_lookup(pd, n));
        }
    } else {
        assert(q.drop_first() =~= Seq::<(Seq<char>, Seq<char>)>::empty());
        assert forall|n: Seq<char>| n != name implies spec_lookup(q, n) == spec_lookup(p, n) by {
            reveal_with_fuel(spec_lookup, 2);
            assert(q[0].0 == name);
            assert(q.len() == 1);
        }
    }
}

} // verus!
