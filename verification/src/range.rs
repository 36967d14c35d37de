//! Ranges of values, such as `1,2,4,8-10`, and lazy walks over them.
//!
//! `1,2,4,8-10` is held as
//! `Multiple([Single(1), Single(2), Single(4), FromToInc(8, 10)])`; a walk
//! over it gives 1, 2, 4, 8, 9, 10 and then nothing.

use vstd::prelude::*;

verus! {

/// Ranges of values.
#[derive(Debug)]
pub enum Range<T> {
    /// One value.
    Single(T),
    /// From the first value up to, and not including, the second.
    FromToExc(T, T),
    /// From the first value up to, and including, the second.
    FromToInc(T, T),
    /// The ranges one after another.
    Multiple(Vec<Range<T>>),
}

/// Values that have a successor and an order.
pub trait Next<T>: Sized {
    /// The value after `v`, if there is one.
    spec fn spec_next(v: T) -> Option<T>;

    /// `a` comes before `b` or is `b`.
    spec fn spec_le(a: T, b: T) -> bool;

    /// `a` comes before `b`.
    spec fn spec_lt(a: T, b: T) -> bool;

    /// The value after `v`, if there is one.
    fn next(v: T) -> (r: Option<T>)
        ensures
            r == Self::spec_next(v),
    ;

    /// `a` comes before `b` or is `b`.
    fn le(a: &T, b: &T) -> (r: bool)
        ensures
            r == Self::spec_le(*a, *b),
    ;

    /// `a` comes before `b`.
    fn lt(a: &T, b: &T) -> (r: bool)
        ensures
            r == Self::spec_lt(*a, *b),
    ;
}

impl Next<u64> for u64 {
    open spec fn spec_next(v: u64) -> Option<u64> {
        if v == u64::MAX {
            None
        } else {
            Some((v + 1) as u64)
        }
    }

    open spec fn spec_le(a: u64, b: u64) -> bool {
        a <= b
    }

    open spec fn spec_lt(a: u64, b: u64) -> bool {
        a < b
    }

    fn next(v: u64) -> (r: Option<u64>) {
        if v == u64::MAX {
            None
        } else {
            Some(v + 1)
        }
    }

    fn le(a: &u64, b: &u64) -> (r: bool) {
        *a <= *b
    }

    fn lt(a: &u64, b: &u64) -> (r: bool) {
        *a < *b
    }
}

impl Next<u32> for u32 {
    open spec fn spec_next(v: u32) -> Option<u32> {
        if v == u32::MAX {
            None
        } else {
            Some((v + 1) as u32)
        }
    }

    open spec fn spec_le(a: u32, b: u32) -> bool {
        a <= b
    }

    open spec fn spec_lt(a: u32, b: u32) -> bool {
        a < b
    }

    fn next(v: u32) -> (r: Option<u32>) {
        if v == u32::MAX {
            None
        } else {
            Some(v + 1)
        }
    }

    fn le(a: &u32, b: &u32) -> (r: bool) {
        *a <= *b
    }

    fn lt(a: &u32, b: &u32) -> (r: bool) {
        *a < *b
    }
}

impl Next<i32> for i32 {
    open spec fn spec_next(v: i32) -> Option<i32> {
        if v == i32::MAX {
            None
        } else {
            Some((v + 1) as i32)
        }
    }

    open spec fn spec_le(a: i32, b: i32) -> bool {
        a <= b
    }

    open spec fn spec_lt(a: i32, b: i32) -> bool {
        a < b
    }

    fn next(v: i32) -> (r: Option<i32>) {
        if v == i32::MAX {
            None
        } else {
            Some(v + 1)
        }
    }

    fn le(a: &i32, b: &i32) -> (r: bool) {
        *a <= *b
    }

    fn lt(a: &i32, b: &i32) -> (r: bool) {
        *a < *b
    }
}

impl Next<u16> for u16 {
    open spec fn spec_next(v: u16) -> Option<u16> {
        if v == u16::MAX {
            None
        } else {
            Some((v + 1) as u16)
        }
    }

    open spec fn spec_le(a: u16, b: u16) -> bool {
        a <= b
    }

    open spec fn spec_lt(a: u16, b: u16) -> bool {
        a < b
    }

    fn next(v: u16) -> (r: Option<u16>) {
        if v == u16::MAX {
            None
        } else {
            Some(v + 1)
        }
    }

    fn le(a: &u16, b: &u16) -> (r: bool) {
        *a <= *b
    }

    fn lt(a: &u16, b: &u16) -> (r: bool) {
        *a < *b
    }
}

impl Next<u8> for u8 {
    open spec fn spec_next(v: u8) -> Option<u8> {
        if v == u8::MAX {
            None
        } else {
            Some((v + 1) as u8)
        }
    }

    open spec fn spec_le(a: u8, b: u8) -> bool {
        a <= b
    }

    open spec fn spec_lt(a: u8, b: u8) -> bool {
        a < b
    }

    fn next(v: u8) -> (r: Option<u8>) {
        if v == u8::MAX {
            None
        } else {
            Some(v + 1)
        }
    }

    fn le(a: &u8, b: &u8) -> (r: bool) {
        *a <= *b
    }

    fn lt(a: &u8, b: &u8) -> (r: bool) {
        *a < *b
    }
}

/// A walk over one value.
#[derive(Clone, Debug)]
pub struct SingleIter<T> {
    pub value: T,
    /// How many times the value was handed out.
    pub ptr: u8,
}

/// A walk from `cur` up to `to`.
#[derive(Clone, Debug)]
pub struct FromToIter<T> {
    pub to: T,
    pub cur: T,
    pub include_to: bool,
    /// `cur` had no successor: the walk is over.
    pub finished: bool,
}

/// A walk over ranges one after another.
#[derive(Debug)]
pub struct IterOnVecIter<T> {
    pub vec: Vec<Range<T>>,
    /// The next range to walk.
    pub cur_item: usize,
    /// The walk over the range before it.
    pub cur_iter: Option<Box<RangeIter<T>>>,
}

/// A walk over a range.
#[derive(Debug)]
pub enum RangeIter<T> {
    Single(SingleIter<T>),
    FromTo(FromToIter<T>),
    Multi(IterOnVecIter<T>),
}

/// What a range stands for.
pub ghost enum RangeModel<T> {
    Single(T),
    FromToExc(T, T),
    FromToInc(T, T),
    Multiple(Seq<RangeModel<T>>),
}

/// What a walk stands for: for ranges one after another, the ranges, the
/// position of the next one and the walk over the one before it.
pub ghost enum WalkModel<T> {
    Single(SingleIter<T>),
    FromTo(FromToIter<T>),
    Multi(Seq<RangeModel<T>>, nat, Option<Box<WalkModel<T>>>),
}

/// The model of a range.
pub open spec fn range_model<T>(r: Range<T>) -> RangeModel<T>
    decreases r,
{
    match r {
        Range::Single(v) => RangeModel::Single(v),
        Range::FromToExc(a, b) => RangeModel::FromToExc(a, b),
        Range::FromToInc(a, b) => RangeModel::FromToInc(a, b),
        Range::Multiple(v) => RangeModel::Multiple(range_models(v@)),
    }
}

/// The models of ranges.
pub open spec fn range_models<T>(s: Seq<Range<T>>) -> Seq<RangeModel<T>>
    decreases s,
{
    if s.len() == 0 {
        Seq::empty()
    } else {
        seq![range_model(s[0])] + range_models(s.drop_first())
    }
}

/// Model `i` of ranges is the model of range `i`.
pub proof fn lemma_range_models<T>(s: Seq<Range<T>>)
    ensures
        range_models(s).len() == s.len(),
        forall|i: int| 0 <= i < s.len() ==> #[trigger] range_models(s)[i] == range_model(s[i]),
    decreases s.len(),
{
    if s.len() > 0 {
        lemma_range_models(s.drop_first());
        assert forall|i: int| 0 <= i < s.len() implies #[trigger] range_models(s)[i] == range_model(s[i]) by {
            if i > 0 {
                assert(s.drop_first()[i - 1] == s[i]);
            }
        }
    }
}

/// The model of a walk.
pub open spec fn walk_model<T>(it: RangeIter<T>) -> WalkModel<T>
    decreases it,
{
    match it {
        RangeIter::Single(s) => WalkModel::Single(s),
        RangeIter::FromTo(f) => WalkModel::FromTo(f),
        RangeIter::Multi(m) => WalkModel::Multi(
            range_models(m.vec@),
            m.cur_item as nat,
            match m.cur_iter {
                Some(b) => Some(Box::new(walk_model(*b))),
                None => None,
            },
        ),
    }
}

/// A measure of a range that a walk over it stays under.
pub open spec fn range_size<T>(r: RangeModel<T>) -> nat
    decreases r,
{
    match r {
        RangeModel::Multiple(v) => 3 + ranges_size(v),
        _ => 3,
    }
}

/// The measures of ranges, summed.
pub open spec fn ranges_size<T>(s: Seq<RangeModel<T>>) -> nat
    decreases s,
{
    if s.len() == 0 {
        0
    } else {
        range_size(s[0]) + ranges_size(s.drop_first())
    }
}

/// A measure of what is left of a walk.
pub open spec fn walk_size<T>(w: WalkModel<T>) -> nat
    decreases w,
{
    match w {
        WalkModel::Multi(s, i, cur) => 1 + ranges_size(s.skip(i as int)) + match cur {
            Some(b) => 1 + walk_size(*b),
            None => 0,
        },
        _ => 1,
    }
}

/// The measure of the ranges from `i` on: that of range `i` and those after it.
pub proof fn lemma_skip_size<T>(s: Seq<RangeModel<T>>, i: int)
    requires
        0 <= i < s.len(),
    ensures
        ranges_size(s.skip(i)) == range_size(s[i]) + ranges_size(s.skip(i + 1)),
{
    assert(s.skip(i)[0] == s[i]);
    assert(s.skip(i).drop_first() =~= s.skip(i + 1));
}

/// A walk that has not started, over `r`.
pub open spec fn walk_start<T>(r: RangeModel<T>) -> WalkModel<T> {
    match r {
        RangeModel::Single(v) => WalkModel::Single(SingleIter { value: v, ptr: 0 }),
        RangeModel::FromToExc(a, b) => WalkModel::FromTo(
            FromToIter { to: b, cur: a, include_to: false, finished: false },
        ),
        RangeModel::FromToInc(a, b) => WalkModel::FromTo(
            FromToIter { to: b, cur: a, include_to: true, finished: false },
        ),
        RangeModel::Multiple(v) => WalkModel::Multi(v, 0, None),
    }
}

/// A walk that has not started measures less than its range.
pub proof fn lemma_start_size<T>(r: RangeModel<T>)
    ensures
        walk_size(walk_start(r)) + 2 <= range_size(r),
{
    match r {
        RangeModel::Multiple(v) => {
            assert(v.skip(0) =~= v);
        },
        _ => {},
    }
}

/// What a walk over one value hands out next, and the walk after it.
pub open spec fn spec_single_step<T>(it: SingleIter<T>) -> (Option<T>, SingleIter<T>) {
    if it.ptr == 0 {
        (Some(it.value), SingleIter { value: it.value, ptr: 1 })
    } else {
        (None, it)
    }
}

/// `cur` is still within the walk's bound.
pub open spec fn spec_has_next<T: Next<T>>(it: FromToIter<T>) -> bool {
    if it.include_to {
        <T as Next<T>>::spec_le(it.cur, it.to)
    } else {
        <T as Next<T>>::spec_lt(it.cur, it.to)
    }
}

/// What a walk from `cur` to `to` hands out next, and the walk after it.
pub open spec fn spec_from_to_step<T: Next<T>>(it: FromToIter<T>) -> (Option<T>, FromToIter<T>) {
    if it.finished || !spec_has_next(it) {
        (None, it)
    } else {
        match <T as Next<T>>::spec_next(it.cur) {
            Some(n) => (Some(it.cur), FromToIter { to: it.to, cur: n, include_to: it.include_to, finished: false }),
            None => (Some(it.cur), FromToIter { to: it.to, cur: it.cur, include_to: it.include_to, finished: true }),
        }
    }
}

/// What a walk hands out next, and the walk after it. Over ranges one
/// after another, the walk over the current range goes on while it hands
/// out values; when it is over, the walk over the next range starts.
pub open spec fn spec_step<T: Next<T>>(w: WalkModel<T>) -> (Option<T>, WalkModel<T>)
    decreases walk_size(w),
{
    match w {
        WalkModel::Single(s) => (spec_single_step(s).0, WalkModel::Single(spec_single_step(s).1)),
        WalkModel::FromTo(f) => (spec_from_to_step(f).0, WalkModel::FromTo(spec_from_to_step(f).1)),
        WalkModel::Multi(s, i, cur) => match cur {
            Some(b) => {
                let inner = spec_step(*b);
                if inner.0 is Some {
                    (inner.0, WalkModel::Multi(s, i, Some(Box::new(inner.1))))
                } else {
                    spec_step(WalkModel::Multi(s, i, None))
                }
            },
            None => {
                if i >= s.len() {
                    (None, w)
                } else {
                    proof {
                        lemma_skip_size(s, i as int);
                        lemma_start_size(s[i as int]);
                    }
                    spec_step(WalkModel::Multi(s, i + 1, Some(Box::new(walk_start(s[i as int])))))
                }
            },
        },
    }
}

/// A range is no larger than the ranges it stands among.
pub proof fn lemma_size_of_one<T>(s: Seq<RangeModel<T>>, i: int)
    requires
        0 <= i < s.len(),
    ensures
        range_size(s[i]) <= ranges_size(s),
    decreases i,
{
    if i > 0 {
        lemma_size_of_one(s.drop_first(), i - 1);
        assert(s.drop_first()[i - 1] == s[i]);
    }
}

impl<T: Copy> Range<T> {
    /// A copy of this range.
    pub fn copy(&self) -> (r: Self)
        ensures
            range_model(r) == range_model(*self),
        decreases range_size(range_model(*self)),
    {
        match self {
            Range::Single(v) => Range::Single(*v),
            Range::FromToExc(a, b) => Range::FromToExc(*a, *b),
            Range::FromToInc(a, b) => Range::FromToInc(*a, *b),
            Range::Multiple(items) => {
                proof {
                    lemma_range_models(items@);
                }
                let mut out: Vec<Range<T>> = Vec::new();
                let mut i: usize = 0;
                while i < items.len()
                    invariant
                        i <= items.len(),
                        out@.len() == i,
                        range_model(*self) == RangeModel::Multiple(range_models(items@)),
                        range_models(items@).len() == items@.len(),
                        forall|j: int| 0 <= j < items@.len() ==> #[trigger] range_models(items@)[j] == range_model(items@[j]),
                        forall|j: int| 0 <= j < i ==> #[trigger] range_model(out@[j]) == range_model(items@[j]),
                    decreases items.len() - i,
                {
                    proof {
                        lemma_size_of_one(range_models(items@), i as int);
                    }
                    let c = items[i].copy();
                    out.push(c);
                    i = i + 1;
                }
                proof {
                    lemma_range_models(out@);
                    assert(range_models(out@) =~= range_models(items@));
                }
                Range::Multiple(out)
            },
        }
    }

    /// A walk over this range.
    pub fn iter(&self) -> (r: RangeIter<T>)
        ensures
            walk_model(r) == walk_start(range_model(*self)),
    {
        match self {
            Range::Single(v) => RangeIter::Single(SingleIter::new(v)),
            Range::FromToExc(from, to) => RangeIter::FromTo(
                FromToIter { to: *to, cur: *from, include_to: false, finished: false },
            ),
            Range::FromToInc(from, to) => RangeIter::FromTo(
                FromToIter { to: *to, cur: *from, include_to: true, finished: false },
            ),
            Range::Multiple(_) => {
                let c = self.copy();
                match c {
                    Range::Multiple(v) => RangeIter::Multi(IterOnVecIter { vec: v, cur_item: 0, cur_iter: None }),
                    _ => RangeIter::Multi(IterOnVecIter { vec: Vec::new(), cur_item: 0, cur_iter: None }),
                }
            },
        }
    }

    /// A walk over this range.
    pub fn into_iter(self) -> (r: RangeIter<T>)
        ensures
            walk_model(r) == walk_start(range_model(self)),
    {
        self.iter()
    }
}

impl<T: Copy> SingleIter<T> {
    /// A walk over `v`.
    pub fn new(v: &T) -> (r: Self)
        ensures
            r == (SingleIter { value: *v, ptr: 0 }),
    {
        SingleIter { value: *v, ptr: 0 }
    }

    /// The value, the first time; nothing after.
    pub fn next(&mut self) -> (r: Option<T>)
        ensures
            (r, *final(self)) == spec_single_step(*old(self)),
    {
        if self.ptr == 0 {
            self.ptr = 1;
            Some(self.value)
        } else {
            None
        }
    }
}

impl<T: Copy + Next<T>> FromToIter<T> {
    /// The current value while it is within the bound, then nothing.
    pub fn next(&mut self) -> (r: Option<T>)
        ensures
            (r, *final(self)) == spec_from_to_step(*old(self)),
    {
        if self.finished {
            return None;
        }
        let has_next = if self.include_to {
            <T as Next<T>>::le(&self.cur, &self.to)
        } else {
            <T as Next<T>>::lt(&self.cur, &self.to)
        };
        if has_next {
            let res = self.cur;
            match <T as Next<T>>::next(self.cur) {
                Some(nxt) => {
                    self.cur = nxt;
                },
                None => {
                    self.finished = true;
                },
            }
            Some(res)
        } else {
            None
        }
    }
}

impl<T: Copy + Next<T>> RangeIter<T> {
    /// The next value of the walk, if there is one.
    pub fn next(&mut self) -> (r: Option<T>)
        ensures
            (r, walk_model(*final(self))) == spec_step(walk_model(*old(self))),
        decreases walk_size(walk_model(*old(self))), 1nat,
    {
        match self {
            RangeIter::Single(s) => s.next(),
            RangeIter::FromTo(f) => f.next(),
            RangeIter::Multi(m) => m.next(),
        }
    }
}

impl<T: Copy + Next<T>> IterOnVecIter<T> {
    /// The next value of the walk over the current range; when that is
    /// over, the first value of the ranges after it.
    pub fn next(&mut self) -> (r: Option<T>)
        ensures
            (r, walk_model(RangeIter::Multi(*final(self)))) == spec_step(walk_model(RangeIter::Multi(*old(self)))),
        decreases walk_size(walk_model(RangeIter::Multi(*old(self)))), 0nat,
    {
        proof {
            lemma_range_models(self.vec@);
        }
        if self.cur_iter.is_some() {
            let mut b = self.cur_iter.take().unwrap();
            let r = (&mut *b).next();
            match r {
                Some(v) => {
                    self.cur_iter = Some(b);
                    return Some(v);
                },
                None => {
                    return self.next();
                },
            }
        }
        if self.cur_item >= self.vec.len() {
            return None;
        }
        proof {
            lemma_skip_size(range_models(self.vec@), self.cur_item as int);
            lemma_start_size(range_models(self.vec@)[self.cur_item as int]);
        }
        let it = self.vec[self.cur_item].iter();
        self.cur_iter = Some(Box::new(it));
        self.cur_item = self.cur_item + 1;
        self.next()
    }
}

/// A walk that has handed out nothing is over: it hands out nothing again,
/// and stays as it is.
pub proof fn lemma_walk_stays_over<T: Next<T>>(w: WalkModel<T>)
    ensures
        spec_step(w).0 is None ==> spec_step(spec_step(w).1) == (None::<T>, spec_step(w).1),
    decreases walk_size(w),
{
    match w {
        WalkModel::Multi(s, i, cur) => match cur {
            Some(b) => {
                lemma_walk_stays_over(WalkModel::Multi(s, i, None));
            },
            None => {
                if i < s.len() {
                    lemma_skip_size(s, i as int);
                    lemma_start_size(s[i as int]);
                    lemma_walk_stays_over(WalkModel::Multi(s, i + 1, Some(Box::new(walk_start(s[i as int])))));
                }
            },
        },
        _ => {},
    }
}

/// Every pair of an item of `a` and an item of `b`: those with the first
/// item of `a` first, in the order of `b`, and so on.
pub open spec fn spec_product<I, II>(a: Seq<I>, b: Seq<II>) -> Seq<(I, II)>
    decreases a.len(),
{
    if a.len() == 0 {
        Seq::empty()
    } else {
        spec_product(a.drop_last(), b) + b.map_values(|y: II| (a.last(), y))
    }
}

/// The product of `a` and `b` holds `a.len() * b.len()` pairs, and pair
/// `i * b.len() + j` is item `i` of `a` with item `j` of `b`.
pub proof fn lemma_product_index<I, II>(a: Seq<I>, b: Seq<II>)
    ensures
        spec_product(a, b).len() == a.len() * b.len(),
        forall|i: int, j: int|
            0 <= i < a.len() && 0 <= j < b.len() ==> #[trigger] spec_product(a, b)[i * b.len() + j] == (a[i], b[j]),
    decreases a.len(),
{
    if a.len() > 0 {
        let p = a.drop_last();
        lemma_product_index(p, b);
        assert(p.len() * b.len() + b.len() == a.len() * b.len()) by (nonlinear_arith)
            requires
                p.len() + 1 == a.len(),
        ;
        assert forall|i: int, j: int| 0 <= i < a.len() && 0 <= j < b.len() implies #[trigger] spec_product(a, b)[i
            * b.len() + j] == (a[i], b[j]) by {
            if i < p.len() {
                assert(i * b.len() + j < p.len() * b.len()) by (nonlinear_arith)
                    requires
                        0 <= i < p.len(),
                        0 <= j < b.len(),
                ;
                assert(p[i] == a[i]);
            } else {
                assert(i * b.len() == p.len() * b.len()) by (nonlinear_arith)
                    requires
                        i == p.len(),
                ;
            }
        }
    }
}

/// Every pair of an item of `a` and an item of `b`, those with the first
/// item of `a` first.
pub fn product<I: Copy, II: Copy>(a: Vec<I>, b: Vec<II>) -> (r: Vec<(I, II)>)
    ensures
        r@ == spec_product(a@, b@),
{
    let mut r: Vec<(I, II)> = Vec::new();
    let mut i: usize = 0;
    while i < a.len()
        invariant
            i <= a.len(),
            r@ == spec_product(a@.take(i as int), b@),
        decreases a.len() - i,
    {
        let ghost head = r@;
        let mut j: usize = 0;
        while j < b.len()
            invariant
                i < a.len(),
                j <= b.len(),
                r@ == head + b@.take(j as int).map_values(|y: II| (a@[i as int], y)),
            decreases b.len() - j,
        {
            r.push((a[i], b[j]));
            proof {
                assert(b@.take(j + 1).map_values(|y: II| (a@[i as int], y)) =~= b@.take(j as int).map_values(
                    |y: II| (a@[i as int], y),
                ).push((a@[i as int], b@[j as int])));
                assert(r@ =~= head + b@.take(j + 1).map_values(|y: II| (a@[i as int], y)));
            }
            j = j + 1;
        }
        proof {
            assert(b@.take(j as int) =~= b@);
            let t = a@.take(i + 1);
            assert(t.drop_last() =~= a@.take(i as int));
            assert(t.last() == a@[i as int]);
        }
        i = i + 1;
    }
    proof {
        assert(a@.take(i as int) =~= a@);
    }
    r
}

/// What the first `n` steps of walk `w` hand out, in order.
pub open spec fn spec_walk_outputs<T: Next<T>>(w: WalkModel<T>, n: nat) -> Seq<Option<T>>
    decreases n,
{
    if n == 0 {
        Seq::empty()
    } else {
        seq![spec_step(w).0] + spec_walk_outputs(spec_step(w).1, (n - 1) as nat)
    }
}

/// Whether the value `k` places after `c` is still within a bound `t`.
pub open spec fn spec_within(include_to: bool, c: int, t: int, k: int) -> bool {
    if include_to {
        c + k <= t
    } else {
        c + k < t
    }
}

/// `to_int` numbers values in their order: `lt` and `le` compare the
/// numbers, a successor is numbered one more, and only the value with the
/// largest number has no successor.
pub open spec fn spec_numbered<T: Next<T>>(to_int: spec_fn(T) -> int) -> bool {
    &&& forall|x: T, y: T| #[trigger] T::spec_lt(x, y) <==> to_int(x) < to_int(y)
    &&& forall|x: T, y: T| #[trigger] T::spec_le(x, y) <==> to_int(x) <= to_int(y)
    &&& forall|x: T| #[trigger] T::spec_next(x) matches Some(y) ==> to_int(y) == to_int(x) + 1
    &&& forall|x: T, y: T| #![trigger T::spec_next(x), to_int(y)] T::spec_next(x) is None ==> to_int(y) <= to_int(x)
    &&& forall|x: T, y: T| #![trigger to_int(x), to_int(y)] to_int(x) == to_int(y) ==> x == y
}

/// For values that `to_int` numbers in their order, a walk from `cur` up to
/// `to` hands out the values numbered `cur + k` while they are within the
/// bound, and nothing after.
proof fn lemma_from_to_walk<T: Next<T>>(to_int: spec_fn(T) -> int, it: FromToIter<T>, n: nat)
    requires
        spec_numbered(to_int),
    ensures
        spec_walk_outputs(WalkModel::FromTo(it), n).len() == n,
        forall|k: int|
            0 <= k < n ==> {
                let o = #[trigger] spec_walk_outputs(WalkModel::FromTo(it), n)[k];
                if !it.finished && spec_within(it.include_to, to_int(it.cur), to_int(it.to), k) {
                    o is Some && to_int(o->0) == to_int(it.cur) + k
                } else {
                    o is None
                }
            },
    decreases n,
{
    if n > 0 {
        let w = WalkModel::FromTo(it);
        let (o0, w1) = spec_step(w);
        let it1 = spec_from_to_step(it).1;
        assert(w1 == WalkModel::FromTo(it1));
        lemma_from_to_walk(to_int, it1, (n - 1) as nat);
        let outs = spec_walk_outputs(w, n);
        let rest = spec_walk_outputs(w1, (n - 1) as nat);
        assert(outs == seq![o0] + rest);
        let c = to_int(it.cur);
        let t = to_int(it.to);
        assert forall|k: int| 0 <= k < n implies {
            let o = #[trigger] outs[k];
            if !it.finished && spec_within(it.include_to, c, t, k) {
                o is Some && to_int(o->0) == c + k
            } else {
                o is None
            }
        } by {
            if k > 0 {
                assert(outs[k] == rest[k - 1]);
                if !it.finished && spec_has_next(it) {
                    match T::spec_next(it.cur) {
                        Some(nx) => {
                            assert(to_int(nx) == c + 1);
                        },
                        None => {
                            assert(to_int(it.to) <= c);
                        },
                    }
                }
            }
        }
    }
}

/// The walk `w` hands out the values `vs`, in order, and then nothing.
pub open spec fn spec_yields<T: Next<T>>(w: WalkModel<T>, vs: Seq<T>) -> bool
    decreases vs.len(),
{
    if vs.len() == 0 {
        spec_step(w).0 is None
    } else {
        spec_step(w).0 == Some(vs[0]) && spec_yields(spec_step(w).1, vs.drop_first())
    }
}

/// A walk that hands out `vs` and then nothing gives, over any number of
/// steps, the values of `vs` in order and then nothing.
pub proof fn lemma_yields_outputs<T: Next<T>>(w: WalkModel<T>, vs: Seq<T>, n: nat)
    requires
        spec_yields(w, vs),
    ensures
        spec_walk_outputs(w, n).len() == n,
        forall|k: int| 0 <= k < n ==> #[trigger] spec_walk_outputs(w, n)[k] == (if k < vs.len() {
            Some(vs[k])
        } else {
            None
        }),
    decreases n,
{
    if n > 0 {
        let (o, w1) = spec_step(w);
        let rest = if vs.len() > 0 { vs.drop_first() } else { vs };
        if vs.len() == 0 {
            lemma_walk_stays_over(w);
            assert(spec_step(w1) == (None::<T>, w1));
            assert(spec_yields(w1, rest));
        }
        lemma_yields_outputs(w1, rest, (n - 1) as nat);
        let outs = spec_walk_outputs(w, n);
        assert(outs == seq![o] + spec_walk_outputs(w1, (n - 1) as nat));
        assert forall|k: int| 0 <= k < n implies #[trigger] outs[k] == (if k < vs.len() {
            Some(vs[k])
        } else {
            None
        }) by {
            if k > 0 {
                assert(outs[k] == spec_walk_outputs(w1, (n - 1) as nat)[k - 1]);
                if k < vs.len() {
                    assert(rest[k - 1] == vs[k]);
                }
            }
        }
    }
}

/// The values of a range, in order: one value; the values of an interval
/// as `interval` gives them; the values of ranges one after another.
pub open spec fn spec_values_of<T>(r: RangeModel<T>, interval: spec_fn(T, T, bool) -> Seq<T>) -> Seq<T>
    decreases range_size(r), 0nat,
{
    match r {
        RangeModel::Single(v) => seq![v],
        RangeModel::FromToExc(a, b) => interval(a, b, false),
        RangeModel::FromToInc(a, b) => interval(a, b, true),
        RangeModel::Multiple(rs) => {
            proof {
                assert(rs.skip(0) =~= rs);
            }
            spec_values_from(rs, 0, interval)
        },
    }
}

/// The values of the ranges `rs` from position `i` on, one range after
/// another.
pub open spec fn spec_values_from<T>(rs: Seq<RangeModel<T>>, i: nat, interval: spec_fn(T, T, bool) -> Seq<T>) -> Seq<T>
    decreases ranges_size(rs.skip(i as int)), 1nat,
{
    if i >= rs.len() {
        Seq::empty()
    } else {
        proof {
            lemma_skip_size(rs, i as int);
        }
        spec_values_of(rs[i as int], interval) + spec_values_from(rs, i + 1, interval)
    }
}

/// Over ranges one after another, the walk over the current one hands out
/// its values and then the walk goes on with the ranges after it.
proof fn lemma_yields_concat<T: Next<T>>(s: Seq<RangeModel<T>>, i: nat, b: WalkModel<T>, vb: Seq<T>, vr: Seq<T>)
    requires
        spec_yields(b, vb),
        spec_yields(WalkModel::Multi(s, i, None), vr),
    ensures
        spec_yields(WalkModel::Multi(s, i, Some(Box::new(b))), vb + vr),
    decreases vb.len(),
{
    let w = WalkModel::Multi(s, i, Some(Box::new(b)));
    if vb.len() == 0 {
        assert(vb + vr =~= vr);
        assert(spec_step(w) == spec_step(WalkModel::Multi(s, i, None)));
        if vr.len() > 0 {
            assert(spec_yields(spec_step(w).1, vr.drop_first()));
        }
    } else {
        let (o, b1) = spec_step(b);
        lemma_yields_concat(s, i, b1, vb.drop_first(), vr);
        assert(spec_step(w) == (o, WalkModel::Multi(s, i, Some(Box::new(b1)))));
        assert((vb + vr).drop_first() =~= vb.drop_first() + vr);
        assert((vb + vr)[0] == vb[0]);
    }
}

/// The intervals that `interval` gives are what walks over them hand out.
pub open spec fn spec_intervals_walked<T: Next<T>>(interval: spec_fn(T, T, bool) -> Seq<T>) -> bool {
    forall|a: T, b: T, inc: bool|
        #[trigger] spec_yields(
            WalkModel::FromTo(FromToIter { to: b, cur: a, include_to: inc, finished: false }),
            interval(a, b, inc),
        )
}

proof fn lemma_yields_range<T: Next<T>>(r: RangeModel<T>, interval: spec_fn(T, T, bool) -> Seq<T>)
    requires
        spec_intervals_walked(interval),
    ensures
        spec_yields(walk_start(r), spec_values_of(r, interval)),
    decreases range_size(r), 0nat,
{
    match r {
        RangeModel::Single(v) => {
            let w = walk_start(r);
            assert(spec_step(w).0 == Some(v));
            assert(seq![v].drop_first() =~= Seq::<T>::empty());
            assert(spec_step(spec_step(w).1).0 is None);
            assert(spec_yields(spec_step(w).1, Seq::<T>::empty()));
            assert(seq![v][0] == v);
            assert(spec_yields(w, seq![v]));
        },
        RangeModel::FromToExc(a, b) => {
            assert(spec_yields(
                WalkModel::FromTo(FromToIter { to: b, cur: a, include_to: false, finished: false }),
                interval(a, b, false),
            ));
        },
        RangeModel::FromToInc(a, b) => {
            assert(spec_yields(
                WalkModel::FromTo(FromToIter { to: b, cur: a, include_to: true, finished: false }),
                interval(a, b, true),
            ));
        },
        RangeModel::Multiple(rs) => {
            assert(rs.skip(0) =~= rs);
            lemma_yields_from(rs, 0, interval);
        },
    }
}

proof fn lemma_yields_from<T: Next<T>>(s: Seq<RangeModel<T>>, i: nat, interval: spec_fn(T, T, bool) -> Seq<T>)
    requires
        spec_intervals_walked(interval),
    ensures
        spec_yields(WalkModel::Multi(s, i, None), spec_values_from(s, i, interval)),
    decreases ranges_size(s.skip(i as int)), 1nat,
{
    let w = WalkModel::Multi(s, i, None);
    if i >= s.len() {
        assert(spec_step(w).0 is None);
    } else {
        lemma_skip_size(s, i as int);
        lemma_start_size(s[i as int]);
        lemma_yields_range(s[i as int], interval);
        lemma_yields_from(s, i + 1, interval);
        lemma_yields_concat(
            s,
            i + 1,
            walk_start(s[i as int]),
            spec_values_of(s[i as int], interval),
            spec_values_from(s, i + 1, interval),
        );
        let v = spec_values_from(s, i, interval);
        assert(spec_step(w) == spec_step(WalkModel::Multi(s, i + 1, Some(Box::new(walk_start(s[i as int]))))));
        if v.len() > 0 {
            assert(spec_yields(spec_step(w).1, v.drop_first()));
        }
    }
}

/// For values that `to_int` numbers in their order, a walk from `cur` up to
/// `to` hands out the values numbered from `cur` on, within the bound.
proof fn lemma_from_to_yields<T: Next<T>>(to_int: spec_fn(T) -> int, it: FromToIter<T>, vs: Seq<T>)
    requires
        spec_numbered(to_int),
        !it.finished,
        vs.len() == (if spec_within(it.include_to, to_int(it.cur), to_int(it.to), 0) {
            (if it.include_to { to_int(it.to) - to_int(it.cur) + 1 } else { to_int(it.to) - to_int(it.cur) })
        } else {
            0
        }),
        forall|k: int| 0 <= k < vs.len() ==> to_int(#[trigger] vs[k]) == to_int(it.cur) + k,
    ensures
        spec_yields(WalkModel::FromTo(it), vs),
    decreases vs.len(),
{
    let w = WalkModel::FromTo(it);
    if vs.len() > 0 {
        assert(to_int(vs[0]) == to_int(it.cur));
        assert(vs[0] == it.cur);
        match T::spec_next(it.cur) {
            Some(nx) => {
                let it1 = FromToIter { to: it.to, cur: nx, include_to: it.include_to, finished: false };
                assert(spec_step(w) == (Some(it.cur), WalkModel::FromTo(it1)));
                let rest = vs.drop_first();
                assert forall|k: int| 0 <= k < rest.len() implies to_int(#[trigger] rest[k]) == to_int(it1.cur) + k by {
                    assert(rest[k] == vs[k + 1]);
                }
                lemma_from_to_yields(to_int, it1, rest);
            },
            None => {
                assert(to_int(it.to) <= to_int(it.cur));
                let it1 = FromToIter { to: it.to, cur: it.cur, include_to: it.include_to, finished: true };
                assert(spec_step(w) == (Some(it.cur), WalkModel::FromTo(it1)));
                assert(vs.len() == 1);
                assert(spec_yields(WalkModel::FromTo(it1), vs.drop_first()));
            },
        }
    }
}

/// A walk over `FromToExc(a, b)` of `u64` hands out `a`, `a + 1`, ... up to
/// and not including `b`, in increasing order, and then nothing; a walk
/// over `FromToInc(a, b)` goes on to `b` itself.
pub proof fn lemma_walk_interval_u64(a: u64, b: u64, n: nat)
    ensures
        forall|k: int| 0 <= k < n ==> #[trigger] spec_walk_outputs(walk_start(RangeModel::FromToExc(a, b)), n)[k] == (
            if a + k < b { Some((a + k) as u64) } else { None }),
        forall|k: int| 0 <= k < n ==> #[trigger] spec_walk_outputs(walk_start(RangeModel::FromToInc(a, b)), n)[k] == (
            if a + k <= b { Some((a + k) as u64) } else { None }),
{
    let f = |x: u64| x as int;
    assert(spec_numbered::<u64>(f));
    lemma_from_to_walk(f, FromToIter { to: b, cur: a, include_to: false, finished: false }, n);
    lemma_from_to_walk(f, FromToIter { to: b, cur: a, include_to: true, finished: false }, n);
}

/// A walk over `FromToExc(a, b)` of `u32` hands out `a`, `a + 1`, ... up to
/// and not including `b`, in increasing order, and then nothing; a walk
/// over `FromToInc(a, b)` goes on to `b` itself.
pub proof fn lemma_walk_interval_u32(a: u32, b: u32, n: nat)
    ensures
        forall|k: int| 0 <= k < n ==> #[trigger] spec_walk_outputs(walk_start(RangeModel::FromToExc(a, b)), n)[k] == (
            if a + k < b { Some((a + k) as u32) } else { None }),
        forall|k: int| 0 <= k < n ==> #[trigger] spec_walk_outputs(walk_start(RangeModel::FromToInc(a, b)), n)[k] == (
            if a + k <= b { Some((a + k) as u32) } else { None }),
{
    let f = |x: u32| x as int;
    assert(spec_numbered::<u32>(f));
    lemma_from_to_walk(f, FromToIter { to: b, cur: a, include_to: false, finished: false }, n);
    lemma_from_to_walk(f, FromToIter { to: b, cur: a, include_to: true, finished: false }, n);
}

/// A walk over `FromToExc(a, b)` of `i32` hands out `a`, `a + 1`, ... up to
/// and not including `b`, in increasing order, and then nothing; a walk
/// over `FromToInc(a, b)` goes on to `b` itself.
pub proof fn lemma_walk_interval_i32(a: i32, b: i32, n: nat)
    ensures
        forall|k: int| 0 <= k < n ==> #[trigger] spec_walk_outputs(walk_start(RangeModel::FromToExc(a, b)), n)[k] == (
            if a + k < b { Some((a + k) as i32) } else { None }),
        forall|k: int| 0 <= k < n ==> #[trigger] spec_walk_outputs(walk_start(RangeModel::FromToInc(a, b)), n)[k] == (
            if a + k <= b { Some((a + k) as i32) } else { None }),
{
    let f = |x: i32| x as int;
    assert(spec_numbered::<i32>(f));
    lemma_from_to_walk(f, FromToIter { to: b, cur: a, include_to: false, finished: false }, n);
    lemma_from_to_walk(f, FromToIter { to: b, cur: a, include_to: true, finished: false }, n);
}

/// A walk over `FromToExc(a, b)` of `u16` hands out `a`, `a + 1`, ... up to
/// and not including `b`, in increasing order, and then nothing; a walk
/// over `FromToInc(a, b)` goes on to `b` itself.
pub proof fn lemma_walk_interval_u16(a: u16, b: u16, n: nat)
    ensures
        forall|k: int| 0 <= k < n ==> #[trigger] spec_walk_outputs(walk_start(RangeModel::FromToExc(a, b)), n)[k] == (
            if a + k < b { Some((a + k) as u16) } else { None }),
        forall|k: int| 0 <= k < n ==> #[trigger] spec_walk_outputs(walk_start(RangeModel::FromToInc(a, b)), n)[k] == (
            if a + k <= b { Some((a + k) as u16) } else { None }),
{
    let f = |x: u16| x as int;
    assert(spec_numbered::<u16>(f));
    lemma_from_to_walk(f, FromToIter { to: b, cur: a, include_to: false, finished: false }, n);
    lemma_from_to_walk(f, FromToIter { to: b, cur: a, include_to: true, finished: false }, n);
}

/// A walk over `FromToExc(a, b)` of `u8` hands out `a`, `a + 1`, ... up to
/// and not including `b`, in increasing order, and then nothing; a walk
/// over `FromToInc(a, b)` goes on to `b` itself.
pub proof fn lemma_walk_interval_u8(a: u8, b: u8, n: nat)
    ensures
        forall|k: int| 0 <= k < n ==> #[trigger] spec_walk_outputs(walk_start(RangeModel::FromToExc(a, b)), n)[k] == (
            if a + k < b { Some((a + k) as u8) } else { None }),
        forall|k: int| 0 <= k < n ==> #[trigger] spec_walk_outputs(walk_start(RangeModel::FromToInc(a, b)), n)[k] == (
            if a + k <= b { Some((a + k) as u8) } else { None }),
{
    let f = |x: u8| x as int;
    assert(spec_numbered::<u8>(f));
    lemma_from_to_walk(f, FromToIter { to: b, cur: a, include_to: false, finished: false }, n);
    lemma_from_to_walk(f, FromToIter { to: b, cur: a, include_to: true, finished: false }, n);
}

/// The `u64` values from `a` up to `b`, including `b` when `inc`, in
/// increasing order; none where `b` comes first.
pub open spec fn spec_interval_u64(a: u64, b: u64, inc: bool) -> Seq<u64> {
    let n: int = if inc { b - a + 1 } else { b - a };
    Seq::new(if n > 0 { n as nat } else { 0 }, |i: int| (a + i) as u64)
}

/// The intervals of `u64` values.
pub open spec fn spec_intervals_u64() -> spec_fn(u64, u64, bool) -> Seq<u64> {
    |a: u64, b: u64, inc: bool| spec_interval_u64(a, b, inc)
}

/// A walk over a range of `u64` values hands out exactly its values, in
/// order, and then nothing: one value; an exclusive interval from its start
/// up to and not including its end; an inclusive one up to its end; ranges
/// one after another, each in turn.
pub proof fn lemma_walk_values_u64(r: Range<u64>, n: nat)
    ensures
        forall|k: int| 0 <= k < n ==> #[trigger] spec_walk_outputs(walk_start(range_model(r)), n)[k] == ({
            let vals = spec_values_of(range_model(r), spec_intervals_u64());
            if k < vals.len() { Some(vals[k]) } else { None }
        }),
{
    let f = |x: u64| x as int;
    assert(spec_numbered::<u64>(f));
    let iv = spec_intervals_u64();
    assert forall|a: u64, b: u64, inc: bool| #[trigger] spec_yields(
        WalkModel::FromTo(FromToIter { to: b, cur: a, include_to: inc, finished: false }),
        iv(a, b, inc),
    ) by {
        lemma_from_to_yields(f, FromToIter { to: b, cur: a, include_to: inc, finished: false }, iv(a, b, inc));
    }
    assert(spec_intervals_walked(iv));
    lemma_yields_range(range_model(r), iv);
    lemma_yields_outputs(walk_start(range_model(r)), spec_values_of(range_model(r), iv), n);
}

/// The `u32` values from `a` up to `b`, including `b` when `inc`, in
/// increasing order; none where `b` comes first.
pub open spec fn spec_interval_u32(a: u32, b: u32, inc: bool) -> Seq<u32> {
    let n: int = if inc { b - a + 1 } else { b - a };
    Seq::new(if n > 0 { n as nat } else { 0 }, |i: int| (a + i) as u32)
}

/// The intervals of `u32` values.
pub open spec fn spec_intervals_u32() -> spec_fn(u32, u32, bool) -> Seq<u32> {
    |a: u32, b: u32, inc: bool| spec_interval_u32(a, b, inc)
}

/// A walk over a range of `u32` values hands out exactly its values, in
/// order, and then nothing: one value; an exclusive interval from its start
/// up to and not including its end; an inclusive one up to its end; ranges
/// one after another, each in turn.
pub proof fn lemma_walk_values_u32(r: Range<u32>, n: nat)
    ensures
        forall|k: int| 0 <= k < n ==> #[trigger] spec_walk_outputs(walk_start(range_model(r)), n)[k] == ({
            let vals = spec_values_of(range_model(r), spec_intervals_u32());
            if k < vals.len() { Some(vals[k]) } else { None }
        }),
{
    let f = |x: u32| x as int;
    assert(spec_numbered::<u32>(f));
    let iv = spec_intervals_u32();
    assert forall|a: u32, b: u32, inc: bool| #[trigger] spec_yields(
        WalkModel::FromTo(FromToIter { to: b, cur: a, include_to: inc, finished: false }),
        iv(a, b, inc),
    ) by {
        lemma_from_to_yields(f, FromToIter { to: b, cur: a, include_to: inc, finished: false }, iv(a, b, inc));
    }
    assert(spec_intervals_walked(iv));
    lemma_yields_range(range_model(r), iv);
    lemma_yields_outputs(walk_start(range_model(r)), spec_values_of(range_model(r), iv), n);
}

/// The `i32` values from `a` up to `b`, including `b` when `inc`, in
/// increasing order; none where `b` comes first.
pub open spec fn spec_interval_i32(a: i32, b: i32, inc: bool) -> Seq<i32> {
    let n: int = if inc { b - a + 1 } else { b - a };
    Seq::new(if n > 0 { n as nat } else { 0 }, |i: int| (a + i) as i32)
}

/// The intervals of `i32` values.
pub open spec fn spec_intervals_i32() -> spec_fn(i32, i32, bool) -> Seq<i32> {
    |a: i32, b: i32, inc: bool| spec_interval_i32(a, b, inc)
}

/// A walk over a range of `i32` values hands out exactly its values, in
/// order, and then nothing: one value; an exclusive interval from its start
/// up to and not including its end; an inclusive one up to its end; ranges
/// one after another, each in turn.
pub proof fn lemma_walk_values_i32(r: Range<i32>, n: nat)
    ensures
        forall|k: int| 0 <= k < n ==> #[trigger] spec_walk_outputs(walk_start(range_model(r)), n)[k] == ({
            let vals = spec_values_of(range_model(r), spec_intervals_i32());
            if k < vals.len() { Some(vals[k]) } else { None }
        }),
{
    let f = |x: i32| x as int;
    assert(spec_numbered::<i32>(f));
    let iv = spec_intervals_i32();
    assert forall|a: i32, b: i32, inc: bool| #[trigger] spec_yields(
        WalkModel::FromTo(FromToIter { to: b, cur: a, include_to: inc, finished: false }),
        iv(a, b, inc),
    ) by {
        lemma_from_to_yields(f, FromToIter { to: b, cur: a, include_to: inc, finished: false }, iv(a, b, inc));
    }
    assert(spec_intervals_walked(iv));
    lemma_yields_range(range_model(r), iv);
    lemma_yields_outputs(walk_start(range_model(r)), spec_values_of(range_model(r), iv), n);
}

/// The `u16` values from `a` up to `b`, including `b` when `inc`, in
/// increasing order; none where `b` comes first.
pub open spec fn spec_interval_u16(a: u16, b: u16, inc: bool) -> Seq<u16> {
    let n: int = if inc { b - a + 1 } else { b - a };
    Seq::new(if n > 0 { n as nat } else { 0 }, |i: int| (a + i) as u16)
}

/// The intervals of `u16` values.
pub open spec fn spec_intervals_u16() -> spec_fn(u16, u16, bool) -> Seq<u16> {
    |a: u16, b: u16, inc: bool| spec_interval_u16(a, b, inc)
}

/// A walk over a range of `u16` values hands out exactly its values, in
/// order, and then nothing: one value; an exclusive interval from its start
/// up to and not including its end; an inclusive one up to its end; ranges
/// one after another, each in turn.
pub proof fn lemma_walk_values_u16(r: Range<u16>, n: nat)
    ensures
        forall|k: int| 0 <= k < n ==> #[trigger] spec_walk_outputs(walk_start(range_model(r)), n)[k] == ({
            let vals = spec_values_of(range_model(r), spec_intervals_u16());
            if k < vals.len() { Some(vals[k]) } else { None }
        }),
{
    let f = |x: u16| x as int;
    assert(spec_numbered::<u16>(f));
    let iv = spec_intervals_u16();
    assert forall|a: u16, b: u16, inc: bool| #[trigger] spec_yields(
        WalkModel::FromTo(FromToIter { to: b, cur: a, include_to: inc, finished: false }),
        iv(a, b, inc),
    ) by {
        lemma_from_to_yields(f, FromToIter { to: b, cur: a, include_to: inc, finished: false }, iv(a, b, inc));
    }
    assert(spec_intervals_walked(iv));
    lemma_yields_range(range_model(r), iv);
    lemma_yields_outputs(walk_start(range_model(r)), spec_values_of(range_model(r), iv), n);
}

/// The `u8` values from `a` up to `b`, including `b` when `inc`, in
/// increasing order; none where `b` comes first.
pub open spec fn spec_interval_u8(a: u8, b: u8, inc: bool) -> Seq<u8> {
    let n: int = if inc { b - a + 1 } else { b - a };
    Seq::new(if n > 0 { n as nat } else { 0 }, |i: int| (a + i) as u8)
}

/// The intervals of `u8` values.
pub open spec fn spec_intervals_u8() -> spec_fn(u8, u8, bool) -> Seq<u8> {
    |a: u8, b: u8, inc: bool| spec_interval_u8(a, b, inc)
}

/// A walk over a range of `u8` values hands out exactly its values, in
/// order, and then nothing: one value; an exclusive interval from its start
/// up to and not including its end; an inclusive one up to its end; ranges
/// one after another, each in turn.
pub proof fn lemma_walk_values_u8(r: Range<u8>, n: nat)
    ensures
        forall|k: int| 0 <= k < n ==> #[trigger] spec_walk_outputs(walk_start(range_model(r)), n)[k] == ({
            let vals = spec_values_of(range_model(r), spec_intervals_u8());
            if k < vals.len() { Some(vals[k]) } else { None }
        }),
{
    let f = |x: u8| x as int;
    assert(spec_numbered::<u8>(f));
    let iv = spec_intervals_u8();
    assert forall|a: u8, b: u8, inc: bool| #[trigger] spec_yields(
        WalkModel::FromTo(FromToIter { to: b, cur: a, include_to: inc, finished: false }),
        iv(a, b, inc),
    ) by {
        lemma_from_to_yields(f, FromToIter { to: b, cur: a, include_to: inc, finished: false }, iv(a, b, inc));
    }
    assert(spec_intervals_walked(iv));
    lemma_yields_range(range_model(r), iv);
    lemma_yields_outputs(walk_start(range_model(r)), spec_values_of(range_model(r), iv), n);
}

} // verus!
