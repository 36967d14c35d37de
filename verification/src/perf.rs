//! Counters of events, by name.

use vstd::prelude::*;
use vstd::string::StringExecFns;

verus! {

/// Named counters that only grow.
pub trait Metrics: Sized {
    /// Counter `name` can grow by one.
    spec fn can_inc(&self, name: Seq<char>) -> bool;

    /// Counts one more event `name`.
    fn inc(&mut self, name: &str)
        requires
            old(self).can_inc(name@),
    ;

    /// A copy of the counters as they are.
    fn snapshot(&self) -> Self;
}

/// Counters that count nothing.
#[derive(Debug, Clone, Copy)]
pub struct DummyCounters;

impl Metrics for DummyCounters {
    open spec fn can_inc(&self, name: Seq<char>) -> bool {
        true
    }

    fn inc(&mut self, name: &str) {
    }

    fn snapshot(&self) -> (r: Self) {
        DummyCounters
    }
}

/// Named counts.
pub type CountsView = Seq<(Seq<char>, u64)>;

/// The count of the first counter named `name`.
pub open spec fn spec_count_of(m: CountsView, name: Seq<char>) -> Option<u64>
    decreases m.len(),
{
    if m.len() == 0 {
        None
    } else if m[0].0 == name {
        Some(m[0].1)
    } else {
        spec_count_of(m.drop_first(), name)
    }
}

/// The position of the first counter named `name`.
pub open spec fn spec_count_position(m: CountsView, name: Seq<char>) -> Option<int>
    decreases m.len(),
{
    if m.len() == 0 {
        None
    } else if m[0].0 == name {
        Some(0)
    } else {
        match spec_count_position(m.drop_first(), name) {
            Some(i) => Some(i + 1),
            None => None,
        }
    }
}

/// `m` with one more event `name`: its counter grows in place, or a new
/// counter of one is added at the end.
pub open spec fn spec_counted(m: CountsView, name: Seq<char>) -> CountsView {
    match spec_count_position(m, name) {
        Some(i) => m.update(i, (name, (m[i].1 + 1) as u64)),
        None => m.push((name, 1u64)),
    }
}

/// The distance between two counts.
pub open spec fn spec_distance(a: u64, b: u64) -> u64 {
    if a >= b {
        (a - b) as u64
    } else {
        (b - a) as u64
    }
}

/// The counters of `b` that `a` lacks.
pub open spec fn spec_missing_from(a: CountsView, b: CountsView) -> CountsView
    decreases b.len(),
{
    if b.len() == 0 {
        Seq::empty()
    } else if spec_count_of(a, b[0].0) is None {
        seq![b[0]] + spec_missing_from(a, b.drop_first())
    } else {
        spec_missing_from(a, b.drop_first())
    }
}

/// The difference of two sets of counters: each counter of `a` with the
/// distance to its count in `b` (or its count where `b` lacks it), then the
/// counters of `b` that `a` lacks.
pub open spec fn spec_diff(a: CountsView, b: CountsView) -> CountsView {
    Seq::new(
        a.len(),
        |i: int|
            (
                a[i].0,
                match spec_count_of(b, a[i].0) {
                    Some(v2) => spec_distance(a[i].1, v2),
                    None => a[i].1,
                },
            ),
    ) + spec_missing_from(a, b)
}

/// Counters kept in memory.
#[derive(Debug, Clone)]
pub struct Counters {
    map: Vec<(String, u64)>,
}

/// The names and counts of counters.
pub open spec fn spec_counts(v: Seq<(String, u64)>) -> CountsView {
    Seq::new(v.len(), |i: int| (v[i].0@, v[i].1))
}

impl View for Counters {
    type V = CountsView;

    closed spec fn view(&self) -> CountsView {
        spec_counts(self.map@)
    }
}

proof fn lemma_count_position(m: CountsView, name: Seq<char>)
    ensures
        spec_count_position(m, name) matches Some(i) ==> 0 <= i < m.len() && m[i].0 == name
            && spec_count_of(m, name) == Some(m[i].1) && forall|j: int| 0 <= j < i ==> #[trigger] m[j].0 != name,
        spec_count_position(m, name) is None ==> spec_count_of(m, name) is None && forall|j: int|
            0 <= j < m.len() ==> #[trigger] m[j].0 != name,
    decreases m.len(),
{
    if m.len() > 0 {
        let d = m.drop_first();
        lemma_count_position(d, name);
        if m[0].0 != name {
            match spec_count_position(d, name) {
                Some(k) => {
                    assert(m[k + 1] == d[k]);
                    assert forall|j: int| 0 <= j < k + 1 implies #[trigger] m[j].0 != name by {
                        if j > 0 {
                            assert(m[j] == d[j - 1]);
                        }
                    }
                },
                None => {
                    assert forall|j: int| 0 <= j < m.len() implies #[trigger] m[j].0 != name by {
                        if j > 0 {
                            assert(m[j] == d[j - 1]);
                        }
                    }
                },
            }
        }
    }
}

proof fn lemma_count_first(m: CountsView, name: Seq<char>, i: int)
    requires
        0 <= i < m.len(),
        m[i].0 == name,
        forall|j: int| 0 <= j < i ==> #[trigger] m[j].0 != name,
    ensures
        spec_count_of(m, name) == Some(m[i].1),
{
    lemma_count_position(m, name);
    if let Some(k) = spec_count_position(m, name) {
        if k < i {
            assert(m[k].0 != name);
        } else if k > i {
            assert(m[i].0 != name);
        }
    } else {
        assert(m[i].0 != name);
    }
}

proof fn lemma_count_none(m: CountsView, name: Seq<char>)
    requires
        forall|j: int| 0 <= j < m.len() ==> #[trigger] m[j].0 != name,
    ensures
        spec_count_of(m, name) is None,
{
    lemma_count_position(m, name);
    if let Some(k) = spec_count_position(m, name) {
        assert(m[k].0 != name);
    }
}

/// Counters with the names of `a`, in the same places, are counted at the
/// same place as in `a`.
proof fn lemma_count_same_names(a: CountsView, m: CountsView, name: Seq<char>)
    requires
        m.len() == a.len(),
        forall|j: int| 0 <= j < a.len() ==> #[trigger] m[j].0 == a[j].0,
    ensures
        spec_count_position(a, name) matches Some(i) ==> spec_count_of(m, name) == Some(m[i].1),
        spec_count_position(a, name) is None ==> spec_count_of(m, name) is None,
{
    lemma_count_position(a, name);
    if let Some(i) = spec_count_position(a, name) {
        assert forall|j: int| 0 <= j < i implies #[trigger] m[j].0 != name by {
            assert(a[j].0 != name);
        }
        lemma_count_first(m, name, i);
    } else {
        assert forall|j: int| 0 <= j < m.len() implies #[trigger] m[j].0 != name by {
            assert(a[j].0 != name);
        }
        lemma_count_none(m, name);
    }
}

/// A counter of two sequences of counters is the first one's where it has
/// one, else the second one's.
proof fn lemma_count_concat(x: CountsView, y: CountsView, name: Seq<char>)
    ensures
        spec_count_of(x + y, name) == (if spec_count_of(x, name) is Some {
            spec_count_of(x, name)
        } else {
            spec_count_of(y, name)
        }),
{
    let xy = x + y;
    lemma_count_position(x, name);
    lemma_count_position(y, name);
    if let Some(i) = spec_count_position(x, name) {
        assert forall|j: int| 0 <= j < i implies #[trigger] xy[j].0 != name by {
            assert(xy[j] == x[j]);
        }
        assert(xy[i] == x[i]);
        lemma_count_first(xy, name, i);
    } else if let Some(k) = spec_count_position(y, name) {
        assert forall|j: int| 0 <= j < x.len() + k implies #[trigger] xy[j].0 != name by {
            if j < x.len() {
                assert(xy[j] == x[j]);
            } else {
                assert(xy[j] == y[j - x.len()]);
            }
        }
        assert(xy[x.len() + k] == y[k]);
        lemma_count_first(xy, name, x.len() + k);
    } else {
        assert forall|j: int| 0 <= j < xy.len() implies #[trigger] xy[j].0 != name by {
            if j < x.len() {
                assert(xy[j] == x[j]);
            } else {
                assert(xy[j] == y[j - x.len()]);
            }
        }
        lemma_count_none(xy, name);
    }
}

/// The counters of `b` that `a` lacks count `name` as `b` does where `a`
/// lacks it, and not at all where `a` has it.
proof fn lemma_count_missing(a: CountsView, b: CountsView, name: Seq<char>)
    ensures
        spec_count_of(spec_missing_from(a, b), name) == (if spec_count_of(a, name) is None {
            spec_count_of(b, name)
        } else {
            None
        }),
    decreases b.len(),
{
    if b.len() > 0 {
        let rest = spec_missing_from(a, b.drop_first());
        lemma_count_missing(a, b.drop_first(), name);
        if spec_count_of(a, b[0].0) is None {
            let one: CountsView = seq![b[0]];
            assert(one.drop_first() =~= Seq::<(Seq<char>, u64)>::empty());
            assert(spec_count_of(one.drop_first(), name) is None);
            lemma_count_concat(one, rest, name);
        }
    }
}

/// The difference of two sets of counters does not depend on which comes
/// first: each name has the same count in `a.diff(b)` as in `b.diff(a)`.
pub proof fn lemma_diff_symmetric(a: Counters, b: Counters, name: Seq<char>)
    ensures
        spec_count_of(spec_diff(a@, b@), name) == spec_count_of(spec_diff(b@, a@), name),
{
    let (x, y) = (a@, b@);
    let mx = Seq::new(
        x.len(),
        |i: int|
            (
                x[i].0,
                match spec_count_of(y, x[i].0) {
                    Some(v2) => spec_distance(x[i].1, v2),
                    None => x[i].1,
                },
            ),
    );
    let my = Seq::new(
        y.len(),
        |i: int|
            (
                y[i].0,
                match spec_count_of(x, y[i].0) {
                    Some(v2) => spec_distance(y[i].1, v2),
                    None => y[i].1,
                },
            ),
    );
    assert(spec_diff(x, y) == mx + spec_missing_from(x, y));
    assert(spec_diff(y, x) == my + spec_missing_from(y, x));
    lemma_count_concat(mx, spec_missing_from(x, y), name);
    lemma_count_concat(my, spec_missing_from(y, x), name);
    lemma_count_missing(x, y, name);
    lemma_count_missing(y, x, name);
    lemma_count_same_names(x, mx, name);
    lemma_count_same_names(y, my, name);
    lemma_count_position(x, name);
    lemma_count_position(y, name);
}

impl Counters {
    pub fn new() -> (r: Self)
        ensures
            r@ == Seq::<(Seq<char>, u64)>::empty(),
    {
        let r = Counters { map: Vec::new() };
        proof {
            assert(r@ =~= Seq::<(Seq<char>, u64)>::empty());
        }
        r
    }

    /// Where the counter `name` stands.
    fn position(&self, name: &str) -> (r: Option<usize>)
        ensures
            match r {
                Some(i) => spec_count_position(self@, name@) == Some(i as int),
                None => spec_count_position(self@, name@) is None,
            },
    {
        proof {
            lemma_count_position(self@, name@);
        }
        let mut i: usize = 0;
        while i < self.map.len()
            invariant
                i <= self.map.len(),
                self@ == spec_counts(self.map@),
                forall|j: int| 0 <= j < i ==> #[trigger] self@[j].0 != name@,
                spec_count_position(self@, name@) matches Some(k) ==> i <= k && k < self@.len()
                    && self@[k].0 == name@ && forall|j: int| 0 <= j < k ==> #[trigger] self@[j].0 != name@,
                spec_count_position(self@, name@) is None ==> forall|j: int|
                    0 <= j < self@.len() ==> #[trigger] self@[j].0 != name@,
            decreases self.map.len() - i,
        {
            if crate::text::same_text(self.map[i].0.as_str(), name) {
                proof {
                    assert(self@[i as int].0 == name@);
                }
                return Some(i);
            }
            i = i + 1;
        }
        None
    }

    /// The count of `name`, if it is counted.
    pub fn get(&self, name: &str) -> (r: Option<u64>)
        ensures
            r == spec_count_of(self@, name@),
    {
        proof {
            lemma_count_position(self@, name@);
        }
        match self.position(name) {
            Some(i) => {
                proof {
                    assert(self@[i as int].1 == self.map@[i as int].1);
                }
                Some(self.map[i].1)
            },
            None => None,
        }
    }

    /// The counters, in the order they were first counted.
    pub fn entries(&self) -> (r: Vec<(String, u64)>)
        ensures
            spec_counts(r@) == self@,
    {
        let mut r: Vec<(String, u64)> = Vec::new();
        let mut i: usize = 0;
        while i < self.map.len()
            invariant
                i <= self.map.len(),
                self@ == spec_counts(self.map@),
                spec_counts(r@) == self@.take(i as int),
            decreases self.map.len() - i,
        {
            let ghost r0 = r@;
            proof {
                assert(spec_counts(r0).len() == r0.len());
            }
            r.push((String::from_str(self.map[i].0.as_str()), self.map[i].1));
            proof {
                assert(self@[i as int] == (self.map@[i as int].0@, self.map@[i as int].1));
                assert forall|j: int| 0 <= j < i + 1 implies #[trigger] spec_counts(r@)[j] == self@.take(i + 1)[j] by {
                    if j < i {
                        assert(r@[j] == r0[j]);
                        assert(spec_counts(r0)[j] == self@.take(i as int)[j]);
                    }
                }
                assert(spec_counts(r@) =~= self@.take(i + 1));
            }
            i = i + 1;
        }
        proof {
            assert(self@.take(i as int) =~= self@);
        }
        r
    }

    /// The difference between these counters and `other`.
    pub fn diff(&self, other: &Counters) -> (r: Self)
        ensures
            r@ == spec_diff(self@, other@),
    {
        let mut map: Vec<(String, u64)> = Vec::new();
        let mut i: usize = 0;
        while i < self.map.len()
            invariant
                i <= self.map.len(),
                self@ == spec_counts(self.map@),
                spec_counts(map@) == spec_diff(self@, other@).take(i as int),
            decreases self.map.len() - i,
        {
            let v1 = self.map[i].1;
            let d = match other.get(self.map[i].0.as_str()) {
                Some(v2) => if v2 >= v1 { v2 - v1 } else { v1 - v2 },
                None => v1,
            };
            let ghost m0 = map@;
            proof {
                assert(spec_counts(m0).len() == m0.len());
            }
            map.push((String::from_str(self.map[i].0.as_str()), d));
            proof {
                assert(self@[i as int] == (self.map@[i as int].0@, self.map@[i as int].1));
                assert forall|j: int| 0 <= j < i + 1 implies #[trigger] spec_counts(map@)[j] == spec_diff(self@, other@).take(i + 1)[j] by {
                    if j < i {
                        assert(map@[j] == m0[j]);
                        assert(spec_counts(m0)[j] == spec_diff(self@, other@).take(i as int)[j]);
                    }
                }
                assert(spec_counts(map@) =~= spec_diff(self@, other@).take(i + 1));
            }
            i = i + 1;
        }
        let ghost head = spec_counts(map@);
        proof {
            assert(head =~= spec_diff(self@, other@).take(self@.len() as int));
            assert(other@.skip(0) =~= other@);
        }
        let mut k: usize = 0;
        while k < other.map.len()
            invariant
                k <= other.map.len(),
                self@ == spec_counts(self.map@),
                other@ == spec_counts(other.map@),
                head.len() == self@.len(),
                spec_counts(map@) + spec_missing_from(self@, other@.skip(k as int)) == head
                    + spec_missing_from(self@, other@),
            decreases other.map.len() - k,
        {
            let ghost rest = other@.skip(k as int);
            proof {
                assert(rest[0] == other@[k as int]);
                assert(rest.drop_first() =~= other@.skip(k + 1));
            }
            let name = other.map[k].0.as_str();
            match self.get(name) {
                None => {
                    let ghost m0 = spec_counts(map@);
                    map.push((String::from_str(name), other.map[k].1));
                    proof {
                        assert(spec_counts(map@) =~= m0.push(other@[k as int]));
                        assert(m0.push(other@[k as int]) + spec_missing_from(self@, other@.skip(k + 1)) =~= m0
                            + (seq![other@[k as int]] + spec_missing_from(self@, other@.skip(k + 1))));
                    }
                },
                Some(_) => {},
            }
            k = k + 1;
        }
        proof {
            assert(other@.skip(k as int) =~= Seq::<(Seq<char>, u64)>::empty());
            assert(spec_counts(map@) + Seq::<(Seq<char>, u64)>::empty() =~= spec_counts(map@));
            assert(spec_diff(self@, other@) =~= head + spec_missing_from(self@, other@));
        }
        Counters { map }
    }
}

impl Metrics for Counters {
    open spec fn can_inc(&self, name: Seq<char>) -> bool {
        spec_count_of(self@, name) != Some(u64::MAX)
    }

    fn inc(&mut self, name: &str)
        ensures
            final(self)@ == spec_counted(old(self)@, name@),
    {
        proof {
            assert(<Counters as Metrics>::can_inc(&*old(self), name@));
            lemma_count_position(self@, name@);
        }
        match self.position(name) {
            Some(i) => {
                let v = self.map[i].1;
                proof {
                    assert(self@[i as int].1 == v);
                    assert(spec_count_of(old(self)@, name@) == Some(v));
                }
                let ghost m0 = self.map@;
                self.map.set(i, (String::from_str(name), v + 1));
                proof {
                    assert(spec_counts(self.map@) =~= spec_counts(m0).update(i as int, (name@, (v + 1) as u64)));
                }
            },
            None => {
                self.map.push((String::from_str(name), 1u64));
            },
        }
        proof {
            assert(self@ =~= spec_counted(old(self)@, name@));
        }
    }

    fn snapshot(&self) -> (r: Self)
        ensures
            r@ == self@,
    {
        Counters { map: self.entries() }
    }
}

} // verus!
