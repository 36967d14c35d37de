//! Counts and total durations of named sections of code.

use vstd::prelude::*;
use vstd::string::StringExecFns;
use crate::text::same_text;

verus! {

/// Named sections: how often each ran, and how long all its runs took, in
/// nanoseconds.
pub type TracksView = Seq<(Seq<char>, u64, u128)>;

/// The longest duration there is, in nanoseconds: `u64::MAX` seconds and
/// a second less one nanosecond.
pub const MAX_DURATION_NANOS: u128 = 18_446_744_073_709_551_615_999_999_999u128;

/// The position of the first section named `name`, from `from` on.
pub open spec fn spec_track_position(m: TracksView, name: Seq<char>, from: int) -> Option<int>
    decreases m.len() - from,
{
    if from < 0 || from >= m.len() {
        None
    } else if m[from].0 == name {
        Some(from)
    } else {
        spec_track_position(m, name, from + 1)
    }
}

/// The table once a run of section `name` that took `nanos` is counted:
/// one more run and `nanos` more in all, or a first run.
pub open spec fn spec_track_add(m: TracksView, name: Seq<char>, nanos: u128) -> TracksView {
    match spec_track_position(m, name, 0) {
        Some(i) => m.update(i, (name, (m[i].1 + 1) as u64, (m[i].2 + nanos) as u128)),
        None => m.push((name, 1u64, nanos)),
    }
}

/// A run of section `name` that took `nanos` can be counted: the count and
/// the total stay within their bounds.
pub open spec fn spec_can_add(m: TracksView, name: Seq<char>, nanos: u128) -> bool {
    &&& nanos <= MAX_DURATION_NANOS
    &&& match spec_track_position(m, name, 0) {
        Some(i) => m[i].1 < u64::MAX && m[i].2 + nanos <= MAX_DURATION_NANOS,
        None => true,
    }
}

/// The table of sections.
#[derive(Debug)]
pub struct TrackTable {
    entries: Vec<(String, u64, u128)>,
}

impl View for TrackTable {
    type V = TracksView;

    closed spec fn view(&self) -> TracksView {
        Seq::new(self.entries@.len(), |i: int| (self.entries@[i].0@, self.entries@[i].1, self.entries@[i].2))
    }
}

/// The position found from `from` is there and named so; none found means
/// no section from `from` on has the name.
proof fn lemma_track_position(m: TracksView, name: Seq<char>, from: int)
    requires
        0 <= from,
    ensures
        spec_track_position(m, name, from) matches Some(i) ==> from <= i < m.len() && m[i].0 == name,
        spec_track_position(m, name, from) is None ==> forall|j: int| from <= j < m.len() ==> #[trigger] m[j].0 != name,
    decreases m.len() - from,
{
    if from < m.len() && m[from].0 != name {
        lemma_track_position(m, name, from + 1);
    }
}

impl TrackTable {
    /// An empty table.
    pub fn new() -> (r: Self)
        ensures
            r@ == Seq::<(Seq<char>, u64, u128)>::empty(),
    {
        let r = TrackTable { entries: Vec::new() };
        assert(r@ =~= Seq::<(Seq<char>, u64, u128)>::empty());
        r
    }

    /// The sections, in the order they first ran.
    pub fn entries(&self) -> (r: &Vec<(String, u64, u128)>)
        ensures
            r@.len() == self@.len(),
            forall|i: int| 0 <= i < r@.len() ==> (#[trigger] r@[i].0@, r@[i].1, r@[i].2) == self@[i],
    {
        &self.entries
    }

    /// Where section `name` stands.
    fn position(&self, name: &str) -> (r: Option<usize>)
        ensures
            match r {
                Some(k) => spec_track_position(self@, name@, 0) == Some(k as int) && k < self@.len(),
                None => spec_track_position(self@, name@, 0) is None,
            },
    {
        let mut i: usize = 0;
        while i < self.entries.len()
            invariant
                i <= self.entries@.len(),
                spec_track_position(self@, name@, 0) == spec_track_position(self@, name@, i as int),
            decreases self.entries@.len() - i,
        {
            assert(self@[i as int].0 == self.entries@[i as int].0@);
            if same_text(self.entries[i].0.as_str(), name) {
                return Some(i);
            }
            i = i + 1;
        }
        None
    }

    /// Whether a run of section `name` that took `nanos` can be counted.
    pub fn can_add(&self, name: &str, nanos: u128) -> (r: bool)
        ensures
            r == spec_can_add(self@, name@, nanos),
    {
        if nanos > MAX_DURATION_NANOS {
            return false;
        }
        proof {
            lemma_track_position(self@, name@, 0);
        }
        match self.position(name) {
            Some(i) => {
                assert(self@[i as int] == (self.entries@[i as int].0@, self.entries@[i as int].1, self.entries@[i as int].2));
                self.entries[i].1 < u64::MAX && self.entries[i].2 <= MAX_DURATION_NANOS - nanos
            },
            None => true,
        }
    }

    /// Counts a run of section `name` that took `nanos`.
    pub fn add(&mut self, name: &str, nanos: u128)
        requires
            spec_can_add(old(self)@, name@, nanos),
        ensures
            final(self)@ == spec_track_add(old(self)@, name@, nanos),
    {
        proof {
            lemma_track_position(self@, name@, 0);
        }
        let ghost m = self@;
        match self.position(name) {
            Some(i) => {
                assert(m[i as int] == (self.entries@[i as int].0@, self.entries@[i as int].1, self.entries@[i as int].2));
                let c = self.entries[i].1 + 1;
                let d = self.entries[i].2 + nanos;
                self.entries.set(i, (String::from_str(name), c, d));
                assert(self@ =~= spec_track_add(m, name@, nanos));
            },
            None => {
                self.entries.push((String::from_str(name), 1u64, nanos));
                assert(self@ =~= spec_track_add(m, name@, nanos));
            },
        }
    }
}

/// The full name of section `name` under `prefix`: the prefix, then the
/// name.
pub fn prefixed(prefix: &str, name: &str) -> (r: String)
    ensures
        r@ == prefix@ + name@,
{
    let mut s = String::from_str(prefix);
    s.append(name);
    s
}

} // verus!
