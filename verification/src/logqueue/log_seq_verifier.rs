use vstd::prelude::*;
use super::err::LoqErr;
use super::log_id::LogQueueFileId;

verus! {

/// The identity of one log file of a queue: its own number and the number
/// of the file it follows, `None` for the first file of a queue.
pub type IdPair = (u128, Option<u128>);

/// The positions below `n` of the files that follow no other file.
pub open spec fn spec_head_positions(s: Seq<IdPair>, n: int) -> Seq<usize>
    decreases n,
{
    if n <= 0 {
        Seq::empty()
    } else if s[n - 1].1 is None {
        spec_head_positions(s, n - 1).push((n - 1) as usize)
    } else {
        spec_head_positions(s, n - 1)
    }
}

/// File `i` follows a number that no file of `s` carries.
pub open spec fn spec_follows_missing(s: Seq<IdPair>, i: int) -> bool {
    match s[i].1 {
        Some(p) => forall|j: int| 0 <= j < s.len() ==> #[trigger] s[j].0 != p,
        None => false,
    }
}

/// The positions below `n` of the files that follow a missing number.
pub open spec fn spec_loose_positions(s: Seq<IdPair>, n: int) -> Seq<usize>
    decreases n,
{
    if n <= 0 {
        Seq::empty()
    } else if spec_follows_missing(s, n - 1) {
        spec_loose_positions(s, n - 1).push((n - 1) as usize)
    } else {
        spec_loose_positions(s, n - 1)
    }
}

/// File `i` has the same identity as another file.
pub open spec fn spec_has_twin(s: Seq<IdPair>, i: int) -> bool {
    exists|j: int| 0 <= j < s.len() && j != i && #[trigger] s[j] == s[i]
}

/// The first position, at `from` or after, of a file that has a twin.
pub open spec fn spec_first_twin(s: Seq<IdPair>, from: int) -> Option<int>
    decreases s.len() - from,
{
    if from < 0 || from >= s.len() {
        None
    } else if spec_has_twin(s, from) {
        Some(from)
    } else {
        spec_first_twin(s, from + 1)
    }
}

/// The positions below `n` of the files whose identity is `key`.
pub open spec fn spec_positions_of(s: Seq<IdPair>, key: IdPair, n: int) -> Seq<usize>
    decreases n,
{
    if n <= 0 {
        Seq::empty()
    } else if s[n - 1] == key {
        spec_positions_of(s, key, n - 1).push((n - 1) as usize)
    } else {
        spec_positions_of(s, key, n - 1)
    }
}

/// File `a` comes before file `b` in a queue: by number, and among files of
/// one number by position.
pub open spec fn spec_comes_before(s: Seq<IdPair>, a: int, b: int) -> bool {
    s[a].0 < s[b].0 || (s[a].0 == s[b].0 && a < b)
}

/// `order` lists every position of `s` once, by number and then by position.
pub open spec fn spec_is_queue_order(s: Seq<IdPair>, order: Seq<usize>) -> bool {
    &&& order.len() == s.len()
    &&& forall|k: int| 0 <= k < order.len() ==> #[trigger] order[k] < s.len()
    &&& forall|k: int, l: int|
        0 <= k < l < order.len() ==> spec_comes_before(s, #[trigger] order[k] as int, #[trigger] order[l] as int)
}

/// File `a` comes right before file `b` in queue order.
pub open spec fn spec_right_before(s: Seq<IdPair>, a: int, b: int) -> bool {
    &&& 0 <= a < s.len()
    &&& 0 <= b < s.len()
    &&& spec_comes_before(s, a, b)
    &&& forall|c: int| 0 <= c < s.len() && #[trigger] spec_comes_before(s, c, b) ==> c == a || spec_comes_before(s, c, a)
}

/// File `b` comes right after file `a` in queue order, but does not follow
/// `a`'s number: the file between them is missing.
pub open spec fn spec_broken_link(s: Seq<IdPair>, a: int, b: int) -> bool {
    spec_right_before(s, a, b) && s[b].1 != Some(s[a].0)
}

/// The first broken link in queue order, where there is one.
pub open spec fn spec_first_broken(s: Seq<IdPair>) -> Option<(int, int)> {
    if exists|a: int, b: int| #[trigger] spec_broken_link(s, a, b) {
        Some(
            choose|a: int, b: int|
                #[trigger] spec_broken_link(s, a, b) && forall|a2: int, b2: int| #[trigger]
                    spec_broken_link(s, a2, b2) ==> b2 == b || spec_comes_before(s, b, b2),
        )
    } else {
        None
    }
}

/// What the check of a queue finds.
pub ghost enum SeqVerdict {
    /// A queue can be formed.
    Ordered,
    /// More than one file could start the queue; the files that follow no
    /// other file are reported.
    TwoHeads(Seq<usize>),
    /// No file can start the queue.
    NoHeads,
    /// Several files carry one identity: all of them are reported.
    Duplicate(Seq<usize>),
    /// In queue order, file `.1` comes right after file `.0` but does not
    /// follow its number: the first such pair is reported.
    Broken(int, int),
}

/// The verdict on a queue made of files of identities `s`.
///
/// A queue has one head: the one file that follows no other file or, where
/// every file follows another one, the one file that follows a number that
/// no file carries. Then no two files may carry one identity; the first
/// identity, in the given order, that two files carry is reported. Last,
/// in queue order each file must follow the number of the file before it.
pub open spec fn spec_verdict(s: Seq<IdPair>) -> SeqVerdict {
    let heads = spec_head_positions(s, s.len() as int);
    let loose = spec_loose_positions(s, s.len() as int);
    if heads.len() > 1 {
        SeqVerdict::TwoHeads(heads)
    } else if heads.len() == 0 && loose.len() == 0 {
        SeqVerdict::NoHeads
    } else if heads.len() == 0 && loose.len() > 1 {
        SeqVerdict::TwoHeads(heads)
    } else {
        match spec_first_twin(s, 0) {
            Some(i) => SeqVerdict::Duplicate(spec_positions_of(s, s[i], s.len() as int)),
            None => match spec_first_broken(s) {
                Some((a, b)) => SeqVerdict::Broken(a, b),
                None => SeqVerdict::Ordered,
            },
        }
    }
}

/// Why a set of files does not form a queue; positions refer to the files.
pub enum SeqFault {
    TwoHeads(Vec<usize>),
    NoHeads,
    DuplicateId(Vec<usize>),
    Broken(usize, usize),
}

/// Whether two identities are equal.
fn same_identity(a: &IdPair, b: &IdPair) -> (r: bool)
    ensures
        r == (*a == *b),
{
    if a.0 != b.0 {
        return false;
    }
    match (a.1, b.1) {
        (Some(x), Some(y)) => x == y,
        (None, None) => true,
        _ => false,
    }
}

/// Whether a file of `ids` carries the number `n`.
fn carries_number(ids: &Vec<IdPair>, n: u128) -> (r: bool)
    ensures
        r == exists|j: int| 0 <= j < ids@.len() && #[trigger] ids@[j].0 == n,
{
    let mut j: usize = 0;
    while j < ids.len()
        invariant
            j <= ids.len(),
            forall|k: int| 0 <= k < j ==> #[trigger] ids@[k].0 != n,
        decreases ids.len() - j,
    {
        if ids[j].0 == n {
            return true;
        }
        j = j + 1;
    }
    false
}

/// Whether file `i` has the same identity as another file.
fn has_twin(ids: &Vec<IdPair>, i: usize) -> (r: bool)
    requires
        i < ids.len(),
    ensures
        r == spec_has_twin(ids@, i as int),
{
    let mut j: usize = 0;
    while j < ids.len()
        invariant
            i < ids.len(),
            j <= ids.len(),
            forall|k: int| 0 <= k < j && k != i ==> #[trigger] ids@[k] != ids@[i as int],
        decreases ids.len() - j,
    {
        if j != i && same_identity(&ids[j], &ids[i]) {
            return true;
        }
        j = j + 1;
    }
    false
}

/// The positions of the files that follow no other file.
fn head_positions(ids: &Vec<IdPair>) -> (r: Vec<usize>)
    ensures
        r@ == spec_head_positions(ids@, ids@.len() as int),
        forall|k: int| 0 <= k < r@.len() ==> #[trigger] r@[k] < ids.len(),
{
    let mut r: Vec<usize> = Vec::new();
    let mut i: usize = 0;
    while i < ids.len()
        invariant
            i <= ids.len(),
            forall|k: int| 0 <= k < r@.len() ==> #[trigger] r@[k] < i,
            r@ == spec_head_positions(ids@, i as int),
        decreases ids.len() - i,
    {
        if ids[i].1.is_none() {
            r.push(i);
        }
        i = i + 1;
    }
    r
}

/// The positions of the files that follow a number that no file carries.
fn loose_positions(ids: &Vec<IdPair>) -> (r: Vec<usize>)
    ensures
        r@ == spec_loose_positions(ids@, ids@.len() as int),
{
    let mut r: Vec<usize> = Vec::new();
    let mut i: usize = 0;
    while i < ids.len()
        invariant
            i <= ids.len(),
            r@ == spec_loose_positions(ids@, i as int),
        decreases ids.len() - i,
    {
        match ids[i].1 {
            Some(p) => {
                let found = carries_number(ids, p);
                if !found {
                    r.push(i);
                }
            },
            None => {},
        }
        i = i + 1;
    }
    r
}

/// The positions of the files whose identity is `key`.
fn positions_of(ids: &Vec<IdPair>, key: &IdPair) -> (r: Vec<usize>)
    ensures
        r@ == spec_positions_of(ids@, *key, ids@.len() as int),
        forall|k: int| 0 <= k < r@.len() ==> #[trigger] r@[k] < ids.len(),
{
    let mut r: Vec<usize> = Vec::new();
    let mut i: usize = 0;
    while i < ids.len()
        invariant
            i <= ids.len(),
            forall|k: int| 0 <= k < r@.len() ==> #[trigger] r@[k] < i,
            r@ == spec_positions_of(ids@, *key, i as int),
        decreases ids.len() - i,
    {
        if same_identity(&ids[i], key) {
            r.push(i);
        }
        i = i + 1;
    }
    r
}

/// The first position of a file that has a twin.
fn first_twin(ids: &Vec<IdPair>) -> (r: Option<usize>)
    ensures
        r matches Some(i) ==> i < ids.len() && spec_first_twin(ids@, 0) == Some(i as int),
        r is None ==> spec_first_twin(ids@, 0) is None,
{
    let mut i: usize = 0;
    while i < ids.len()
        invariant
            i <= ids.len(),
            spec_first_twin(ids@, 0) == spec_first_twin(ids@, i as int),
        decreases ids.len() - i,
    {
        if has_twin(ids, i) {
            return Some(i);
        }
        i = i + 1;
    }
    None
}

/// The positions of the files in queue order: by number, and among files of
/// one number in the given order.
fn queue_order(ids: &Vec<IdPair>) -> (r: Vec<usize>)
    ensures
        spec_is_queue_order(ids@, r@),
{
    let mut order: Vec<usize> = Vec::new();
    let mut i: usize = 0;
    while i < ids.len()
        invariant
            i <= ids.len(),
            order.len() == i,
            forall|k: int| 0 <= k < order.len() ==> #[trigger] order@[k] < i,
            forall|k: int, l: int|
                0 <= k < l < order.len() ==> spec_comes_before(
                    ids@,
                    #[trigger] order@[k] as int,
                    #[trigger] order@[l] as int,
                ),
        decreases ids.len() - i,
    {
        let n = ids[i].0;
        let mut pos: usize = 0;
        while pos < order.len() && ids[order[pos]].0 <= n
            invariant
                i < ids.len(),
                n == ids@[i as int].0,
                pos <= order.len(),
                forall|k: int| 0 <= k < order.len() ==> #[trigger] order@[k] < i,
                forall|k: int| 0 <= k < pos ==> ids@[#[trigger] order@[k] as int].0 <= n,
            decreases order.len() - pos,
        {
            pos = pos + 1;
        }
        proof {
            assert forall|k: int| pos <= k < order.len() implies n < ids@[#[trigger] order@[k] as int].0 by {
                if k > pos {
                    assert(spec_comes_before(ids@, order@[pos as int] as int, order@[k] as int));
                }
            }
        }
        let ghost old_order = order@;
        order.insert(pos, i);
        proof {
            assert forall|k: int| 0 <= k < order.len() implies #[trigger] order@[k] < i + 1 by {
                if k < pos {
                    assert(order@[k] == old_order[k]);
                } else if k > pos {
                    assert(order@[k] == old_order[k - 1]);
                }
            }
            assert forall|k: int, l: int|
                0 <= k < l < order.len() implies spec_comes_before(
                    ids@,
                    #[trigger] order@[k] as int,
                    #[trigger] order@[l] as int,
                ) by {
                if l < pos {
                    assert(order@[k] == old_order[k] && order@[l] == old_order[l]);
                } else if l == pos {
                    assert(order@[k] == old_order[k]);
                } else if k < pos {
                    assert(order@[k] == old_order[k] && order@[l] == old_order[l - 1]);
                } else if k == pos {
                    assert(order@[l] == old_order[l - 1]);
                } else {
                    assert(order@[k] == old_order[k - 1] && order@[l] == old_order[l - 1]);
                }
            }
        }
        i = i + 1;
    }
    order
}

/// Checks that files of identities `ids` form one queue, and orders them.
///
/// On success the result lists the positions of the files in queue order;
/// the last one is the tail of the queue.
pub fn order_log_ids(ids: &Vec<IdPair>) -> (r: Result<Vec<usize>, SeqFault>)
    ensures
        match r {
            Ok(order) => spec_verdict(ids@) == SeqVerdict::Ordered && spec_is_queue_order(
                ids@,
                order@,
            ),
            Err(SeqFault::TwoHeads(h)) => spec_verdict(ids@) == SeqVerdict::TwoHeads(h@) && forall|k: int|
                0 <= k < h@.len() ==> #[trigger] h@[k] < ids.len(),
            Err(SeqFault::NoHeads) => spec_verdict(ids@) == SeqVerdict::NoHeads,
            Err(SeqFault::DuplicateId(d)) => spec_verdict(ids@) == SeqVerdict::Duplicate(d@) && forall|k: int|
                0 <= k < d@.len() ==> #[trigger] d@[k] < ids.len(),
            Err(SeqFault::Broken(a, b)) => spec_verdict(ids@) == SeqVerdict::Broken(a as int, b as int) && a
                < ids.len() && b < ids.len(),
        },
{
    let heads = head_positions(ids);
    if heads.len() > 1 {
        return Err(SeqFault::TwoHeads(heads));
    }
    if heads.len() == 0 {
        let loose = loose_positions(ids);
        if loose.len() == 0 {
            return Err(SeqFault::NoHeads);
        } else if loose.len() > 1 {
            return Err(SeqFault::TwoHeads(heads));
        }
    }
    match first_twin(ids) {
        Some(i) => {
            let d = positions_of(ids, &ids[i]);
            Err(SeqFault::DuplicateId(d))
        },
        None => {
            let order = queue_order(ids);
            match first_broken_link(ids, &order) {
                Some((a, b)) => {
                    assert(spec_first_twin(ids@, 0) is None);
                    assert(spec_first_broken(ids@) == Some((a as int, b as int)));
                    assert(spec_verdict(ids@) == SeqVerdict::Broken(a as int, b as int));
                    Err(SeqFault::Broken(a, b))
                },
                None => {
                    assert(spec_first_broken(ids@) is None);
                    assert(spec_first_twin(ids@, 0) is None);
                    assert(spec_verdict(ids@) == SeqVerdict::Ordered);
                    assert(spec_is_queue_order(ids@, order@));
                    Ok(order)
                },
            }
        },
    }
}

/// A queue order lists every file.
proof fn lemma_order_covers(s: Seq<IdPair>, order: Seq<usize>, p: int)
    requires
        spec_is_queue_order(s, order),
        0 <= p < s.len(),
    ensures
        exists|k: int| 0 <= k < order.len() && order[k] == p,
{
    let o = order.map_values(|x: usize| x as int);
    assert(o.no_duplicates()) by {
        assert forall|i: int, j: int| 0 <= i < o.len() && 0 <= j < o.len() && i != j implies o[i] != o[j] by {
            if i < j {
                assert(spec_comes_before(s, order[i] as int, order[j] as int));
            } else {
                assert(spec_comes_before(s, order[j] as int, order[i] as int));
            }
        }
    }
    o.unique_seq_to_set();
    vstd::set_lib::lemma_int_range(0, s.len() as int);
    assert(o.to_set().subset_of(vstd::set_lib::set_int_range(0, s.len() as int))) by {
        assert forall|x: int| o.to_set().contains(x) implies vstd::set_lib::set_int_range(0, s.len() as int).contains(x) by {
            assert(o.contains(x));
            let k = choose|k: int| 0 <= k < o.len() && o[k] == x;
            assert(order[k] < s.len());
        }
    }
    vstd::set_lib::lemma_subset_equality(o.to_set(), vstd::set_lib::set_int_range(0, s.len() as int));
    assert(vstd::set_lib::set_int_range(0, s.len() as int).contains(p));
    assert(o.to_set().contains(p));
    assert(o.contains(p));
    let k = choose|k: int| 0 <= k < o.len() && o[k] == p;
    assert(order[k] == p);
}

/// The files listed at `k` and `k + 1` of a queue order come right after
/// one another.
proof fn lemma_order_right_before(s: Seq<IdPair>, order: Seq<usize>, k: int)
    requires
        spec_is_queue_order(s, order),
        0 <= k < order.len() - 1,
    ensures
        spec_right_before(s, order[k] as int, order[k + 1] as int),
{
    let a = order[k] as int;
    let b = order[k + 1] as int;
    assert(spec_comes_before(s, a, b));
    assert forall|c: int| 0 <= c < s.len() && #[trigger] spec_comes_before(s, c, b) implies c == a
        || spec_comes_before(s, c, a) by {
        lemma_order_covers(s, order, c);
        let j = choose|j: int| 0 <= j < order.len() && order[j] == c;
        if j > k + 1 {
            assert(spec_comes_before(s, b, order[j] as int));
        } else if j < k {
            assert(spec_comes_before(s, order[j] as int, a));
        }
    }
}

/// Only one file comes right before another.
proof fn lemma_right_before_unique(s: Seq<IdPair>, a1: int, a2: int, b: int)
    requires
        spec_right_before(s, a1, b),
        spec_right_before(s, a2, b),
    ensures
        a1 == a2,
{
    assert(spec_comes_before(s, a2, b));
    assert(spec_comes_before(s, a1, b));
}

/// A file that comes right after another one is not first in a queue
/// order; the file right before the one at `j` is the one at `j - 1`.
proof fn lemma_right_before_in_order(s: Seq<IdPair>, order: Seq<usize>, a: int, b: int, j: int)
    requires
        spec_is_queue_order(s, order),
        spec_right_before(s, a, b),
        0 <= j < order.len(),
        order[j] == b,
    ensures
        j > 0,
        order[j - 1] == a,
{
    lemma_order_covers(s, order, a);
    let i = choose|i: int| 0 <= i < order.len() && order[i] == a;
    if i >= j {
        if i > j {
            assert(spec_comes_before(s, b, a));
        }
        assert(false);
    }
    lemma_order_right_before(s, order, j - 1);
    lemma_right_before_unique(s, a, order[j - 1] as int, b);
}

/// The first broken link of files in queue `order`.
fn first_broken_link(ids: &Vec<IdPair>, order: &Vec<usize>) -> (r: Option<(usize, usize)>)
    requires
        spec_is_queue_order(ids@, order@),
    ensures
        match spec_first_broken(ids@) {
            Some((a, b)) => r matches Some((ra, rb)) && ra == a && rb == b && a < ids.len() && b < ids.len(),
            None => r is None,
        },
{
    let ghost s = ids@;
    let n = order.len();
    if n == 0 {
        proof {
            assert forall|a: int, b: int| !#[trigger] spec_broken_link(s, a, b) by {
                if spec_broken_link(s, a, b) {
                    lemma_order_covers(s, order@, b);
                }
            }
        }
        return None;
    }
    let mut k: usize = 0;
    while k + 1 < n
        invariant
            n == order@.len(),
            n == ids@.len(),
            s == ids@,
            k < n,
            spec_is_queue_order(s, order@),
            forall|j: int| 0 <= j < k ==> s[order@[j + 1] as int].1 == Some(#[trigger] s[order@[j] as int].0),
        decreases n - k,
    {
        let a = order[k];
        let b = order[k + 1];
        let follows = match ids[b].1 {
            Some(p) => p == ids[a].0,
            None => false,
        };
        if !follows {
            proof {
                lemma_order_right_before(s, order@, k as int);
                assert(spec_broken_link(s, a as int, b as int));
                assert forall|a2: int, b2: int| #[trigger] spec_broken_link(s, a2, b2) implies b2 == b
                    || spec_comes_before(s, b as int, b2) by {
                    lemma_order_covers(s, order@, b2);
                    let j = choose|j: int| 0 <= j < order@.len() && order@[j] == b2;
                    lemma_right_before_in_order(s, order@, a2, b2, j);
                    if j < k + 1 {
                        assert(s[order@[j - 1] as int].0 == s[order@[j - 1] as int].0);
                        assert(false);
                    } else if j > k + 1 {
                        assert(spec_comes_before(s, b as int, order@[j] as int));
                    }
                }
                let w = choose|a1: int, b1: int|
                    #[trigger] spec_broken_link(s, a1, b1) && forall|a2: int, b2: int| #[trigger]
                        spec_broken_link(s, a2, b2) ==> b2 == b1 || spec_comes_before(s, b1, b2);
                assert(spec_broken_link(s, w.0, w.1));
                assert(w.1 == b as int) by {
                    if w.1 != b as int {
                        assert(spec_comes_before(s, b as int, w.1));
                        assert(spec_comes_before(s, w.1, b as int));
                    }
                }
                lemma_right_before_unique(s, w.0, a as int, b as int);
            }
            return Some((a, b));
        }
        k = k + 1;
    }
    proof {
        assert forall|a: int, b: int| !#[trigger] spec_broken_link(s, a, b) by {
            if spec_broken_link(s, a, b) {
                lemma_order_covers(s, order@, b);
                let j = choose|j: int| 0 <= j < order@.len() && order@[j] == b;
                lemma_right_before_in_order(s, order@, a, b, j);
                assert(s[order@[j] as int].1 == Some(s[order@[j - 1] as int].0));
            }
        }
    }
    None
}

/// Some file of `s` below `n` carries `key`: then `key` is listed among
/// the positions of the files that carry it.
pub proof fn lemma_positions_of_found(s: Seq<IdPair>, key: IdPair, n: int, j: int)
    requires
        0 <= j < n <= s.len(),
        s[j] == key,
    ensures
        spec_positions_of(s, key, n).len() > 0,
    decreases n,
{
    if j < n - 1 {
        lemma_positions_of_found(s, key, n - 1, j);
    }
}

/// The first file with a twin is listed among the files of its identity.
pub proof fn lemma_twin_listed(s: Seq<IdPair>, from: int)
    requires
        spec_first_twin(s, from) is Some,
    ensures
        0 <= spec_first_twin(s, from)->0 < s.len(),
        spec_positions_of(s, s[spec_first_twin(s, from)->0], s.len() as int).len() > 0,
    decreases s.len() - from,
{
    if !spec_has_twin(s, from) {
        lemma_twin_listed(s, from + 1);
    } else {
        lemma_positions_of_found(s, s[from], s.len() as int, from);
    }
}

/// The identity of a log file.
pub trait IdOf<FILE, LOG, ID> {
    /// The identity, or the error, that [id_of](Self::id_of) gives for `a`.
    spec fn spec_id_of(a: (FILE, LOG)) -> Result<ID, LoqErr<FILE, ID>>;

    fn id_of(a: &(FILE, LOG)) -> (r: Result<ID, LoqErr<FILE, ID>>)
        ensures
            r == Self::spec_id_of(*a),
    ;
}

/// What the check of a queue asks of its log files.
pub trait SeqValidateOp<FILE, LOG, ID>: IdOf<FILE, LOG, ID> {
    /// The count, or the error, that [items_count](Self::items_count) gives
    /// for `a`.
    spec fn spec_items_count(a: (FILE, LOG)) -> Result<u32, LoqErr<FILE, ID>>;

    /// The number of records of a log file.
    fn items_count(a: &(FILE, LOG)) -> (r: Result<u32, LoqErr<FILE, ID>>)
        ensures
            r == Self::spec_items_count(*a),
    ;
}

/// Log files in queue order; the last is the tail of the queue.
#[derive(Debug, Clone)]
pub struct OrderedLogs<ITEM> {
    pub tail: ITEM,
    pub files: Vec<ITEM>,
}

/// What reading the first `n` files gives: the position and identity of
/// each file that holds records, or the first error met.
pub open spec fn spec_read_ids<FILE, LOG, ID>(files: Seq<(FILE, LOG)>, n: int) -> Result<
    Seq<(int, ID)>,
    LoqErr<FILE, ID>,
>
    where
        (FILE, LOG): SeqValidateOp<FILE, LOG, ID>,
    decreases n,
{
    if n <= 0 {
        Ok(Seq::empty())
    } else {
        match spec_read_ids(files, n - 1) {
            Err(e) => Err(e),
            Ok(prev) => match <(FILE, LOG) as SeqValidateOp<FILE, LOG, ID>>::spec_items_count(files[n - 1]) {
                Err(e) => Err(e),
                Ok(c) => if c > 0 {
                    match <(FILE, LOG) as IdOf<FILE, LOG, ID>>::spec_id_of(files[n - 1]) {
                        Err(e) => Err(e),
                        Ok(id) => Ok(prev.push((n - 1, id))),
                    }
                } else {
                    Ok(prev)
                },
            },
        }
    }
}

/// Once reading meets an error, that error is what reading more gives.
pub proof fn lemma_read_error_stays<FILE, LOG, ID>(files: Seq<(FILE, LOG)>, n: int, m: int)
    where
        (FILE, LOG): SeqValidateOp<FILE, LOG, ID>,
    requires
        0 <= n <= m,
        spec_read_ids::<FILE, LOG, ID>(files, n) is Err,
    ensures
        spec_read_ids::<FILE, LOG, ID>(files, m) == spec_read_ids::<FILE, LOG, ID>(files, n),
    decreases m - n,
{
    if m > n {
        lemma_read_error_stays::<FILE, LOG, ID>(files, n, m - 1);
    }
}

/// The numbers of the identities read.
pub open spec fn spec_id_pairs<ID: LogQueueFileId>(read: Seq<(int, ID)>) -> Seq<IdPair> {
    Seq::new(read.len(), |i: int| (read[i].1.spec_id(), read[i].1.spec_previous()))
}

/// `b` is a clone of the file and log `a`.
pub open spec fn spec_clone_of<FILE: Clone, LOG: Clone>(a: (FILE, LOG), b: (FILE, LOG)) -> bool {
    cloned(a.0, b.0) && cloned(a.1, b.1)
}

/// `o` lists, in `order`, clones of the files read, the last as the tail.
pub open spec fn spec_lists_in_order<FILE: Clone, LOG: Clone, ID>(
    files: Seq<(FILE, LOG)>,
    read: Seq<(int, ID)>,
    order: Seq<usize>,
    o: OrderedLogs<(FILE, LOG)>,
) -> bool {
    &&& order.len() > 0
    &&& o.files@.len() == order.len()
    &&& forall|k: int| 0 <= k < order.len() ==> spec_clone_of(files[read[order[k] as int].0], #[trigger] o.files@[k])
    &&& spec_clone_of(files[read[order.last() as int].0], o.tail)
}

/// What the check of a queue returns once the identities `read` of its
/// files are known.
pub open spec fn spec_queue_result<FILE: Clone, LOG: Clone, ID: LogQueueFileId>(
    files: Seq<(FILE, LOG)>,
    read: Seq<(int, ID)>,
    r: Result<OrderedLogs<(FILE, LOG)>, LoqErr<FILE, ID>>,
) -> bool {
    let ids = spec_id_pairs(read);
    match spec_verdict(ids) {
        SeqVerdict::NoHeads => r matches Err(LoqErr::OpenNoHeads),
        SeqVerdict::TwoHeads(h) => r matches Err(LoqErr::OpenTwoHeads { heads }) && heads@.len() == h.len()
            && forall|k: int|
            0 <= k < h.len() ==> cloned(files[read[h[k] as int].0].0, #[trigger] heads@[k].0) && heads@[k].1
                == read[h[k] as int].1,
        SeqVerdict::Duplicate(d) => r matches Err(LoqErr::OpenLogDuplicateId { id, files: fs }) && d.len() > 0
            && id == read[d[0] as int].1 && fs@.len() == d.len() && forall|k: int|
            0 <= k < d.len() ==> cloned(files[read[d[k] as int].0].0, #[trigger] fs@[k]),
        SeqVerdict::Broken(a, b) => r matches Err(LoqErr::OpenLogNotFound { prev_file, prev_id, next_file, next_id })
            && cloned(files[read[a].0].0, prev_file) && prev_id == read[a].1 && cloned(files[read[b].0].0, next_file)
            && next_id == read[b].1,
        SeqVerdict::Ordered => r matches Ok(o) && exists|order: Seq<usize>|
            #[trigger] spec_is_queue_order(ids, order) && spec_lists_in_order(files, read, order, o),
    }
}

/// Checks that log files form one queue, and orders them.
///
/// Files without records are left out; each other file's identity is read,
/// and the first error met while reading is returned. Then the files must
/// have one head, no two of them one identity, and in order by number each
/// must follow the number of the one before (see [`order_log_ids`]); they
/// are returned ordered by number.
pub fn validate_sequence<FILE: Clone, LOG: Clone, ID: LogQueueFileId>(files: &Vec<(FILE, LOG)>) -> (r: Result<OrderedLogs<(FILE, LOG)>, LoqErr<FILE, ID>>)
    where
        (FILE, LOG): SeqValidateOp<FILE, LOG, ID>,
    ensures
        match spec_read_ids::<FILE, LOG, ID>(files@, files@.len() as int) {
            Err(e) => r == Err::<OrderedLogs<(FILE, LOG)>, LoqErr<FILE, ID>>(e),
            Ok(read) => spec_queue_result(files@, read, r),
        },
{
    let mut items: Vec<usize> = Vec::new();
    let mut ids: Vec<IdPair> = Vec::new();
    let mut id_vals: Vec<ID> = Vec::new();
    let ghost mut read: Seq<(int, ID)> = Seq::empty();
    let mut i: usize = 0;
    while i < files.len()
        invariant
            i <= files.len(),
            items.len() == read.len(),
            id_vals.len() == read.len(),
            spec_read_ids::<FILE, LOG, ID>(files@, i as int) == Ok::<Seq<(int, ID)>, LoqErr<FILE, ID>>(read),
            forall|k: int| 0 <= k < read.len() ==> #[trigger] items@[k] as int == read[k].0,
            forall|k: int| 0 <= k < read.len() ==> #[trigger] read[k].0 < i,
            forall|k: int| 0 <= k < read.len() ==> #[trigger] id_vals@[k] == read[k].1,
            ids@ == spec_id_pairs(read),
        decreases files.len() - i,
    {
        let count = match <(FILE, LOG) as SeqValidateOp<FILE, LOG, ID>>::items_count(&files[i]) {
            Ok(c) => c,
            Err(e) => {
                proof {
                    lemma_read_error_stays::<FILE, LOG, ID>(files@, i + 1, files@.len() as int);
                }
                return Err(e);
            },
        };
        if count > 0 {
            let id = match <(FILE, LOG) as IdOf<FILE, LOG, ID>>::id_of(&files[i]) {
                Ok(id) => id,
                Err(e) => {
                    proof {
                        lemma_read_error_stays::<FILE, LOG, ID>(files@, i + 1, files@.len() as int);
                    }
                    return Err(e);
                },
            };
            items.push(i);
            let pair = (id.id(), id.previous());
            ids.push(pair);
            id_vals.push(id);
            proof {
                let r0 = read;
                read = read.push((i as int, id));
                assert(ids@ =~= spec_id_pairs(read));
                assert forall|k: int| 0 <= k < read.len() implies #[trigger] items@[k] as int == read[k].0 by {
                    if k < r0.len() {
                        assert(read[k] == r0[k]);
                    }
                }
                assert forall|k: int| 0 <= k < read.len() implies #[trigger] read[k].0 < i + 1 by {
                    if k < r0.len() {
                        assert(read[k] == r0[k]);
                    }
                }
                assert forall|k: int| 0 <= k < read.len() implies #[trigger] id_vals@[k] == read[k].1 by {
                    if k < r0.len() {
                        assert(read[k] == r0[k]);
                    }
                }
            }
        }
        i = i + 1;
    }
    let ghost ids_v = ids@;
    match order_log_ids(&ids) {
        Ok(order) => {
            let mut out: Vec<(FILE, LOG)> = Vec::new();
            let mut k: usize = 0;
            while k < order.len()
                invariant
                    k <= order.len(),
                    out.len() == k,
                    order.len() == ids.len(),
                    items.len() == ids.len(),
                    ids@ == spec_id_pairs(read),
                    items.len() == read.len(),
                    forall|j: int| 0 <= j < order.len() ==> #[trigger] order@[j] < ids.len(),
                    forall|j: int| 0 <= j < read.len() ==> #[trigger] items@[j] as int == read[j].0 && read[j].0
                        < files.len(),
                    forall|j: int| 0 <= j < k ==> spec_clone_of(files@[read[order@[j] as int].0], #[trigger] out@[j]),
                decreases order.len() - k,
            {
                let f = &files[items[order[k]]];
                let c = (f.0.clone(), f.1.clone());
                out.push(c);
                proof {
                    assert(spec_clone_of(files@[read[order@[k as int] as int].0], out@[k as int]));
                }
                k = k + 1;
            }
            if out.len() == 0 {
                return Err(LoqErr::OpenNoHeads);
            }
            let last = &files[items[order[order.len() - 1]]];
            let tail = (last.0.clone(), last.1.clone());
            let o = OrderedLogs { tail, files: out };
            proof {
                let j = (order@.len() - 1) as int;
                assert(spec_clone_of(files@[read[order@[j] as int].0], o.files@[j]));
                assert(spec_lists_in_order(files@, read, order@, o));
                assert(spec_is_queue_order(spec_id_pairs(read), order@));
            }
            Ok(o)
        },
        Err(SeqFault::NoHeads) => Err(LoqErr::OpenNoHeads),
        Err(SeqFault::Broken(a, b)) => {
            proof {
                assert(read[a as int].0 == items@[a as int] as int);
                assert(read[b as int].0 == items@[b as int] as int);
            }
            let prev_file = files[items[a]].0.clone();
            let next_file = files[items[b]].0.clone();
            Err(LoqErr::OpenLogNotFound { prev_file, prev_id: id_vals[a], next_file, next_id: id_vals[b] })
        },
        Err(SeqFault::TwoHeads(h)) => {
            let mut heads: Vec<(FILE, ID)> = Vec::new();
            let mut k: usize = 0;
            while k < h.len()
                invariant
                    k <= h.len(),
                    heads.len() == k,
                    forall|j: int| 0 <= j < h.len() ==> #[trigger] h@[j] < ids.len(),
                    items.len() == read.len(),
                    id_vals.len() == read.len(),
                    ids@ == spec_id_pairs(read),
                    forall|j: int| 0 <= j < read.len() ==> #[trigger] items@[j] as int == read[j].0 && read[j].0
                        < files.len(),
                    forall|j: int| 0 <= j < read.len() ==> #[trigger] id_vals@[j] == read[j].1,
                    forall|j: int|
                        0 <= j < k ==> cloned(files@[read[h@[j] as int].0].0, #[trigger] heads@[j].0) && heads@[j].1
                            == read[h@[j] as int].1,
                decreases h.len() - k,
            {
                let p = h[k];
                let f = files[items[p]].0.clone();
                heads.push((f, id_vals[p]));
                k = k + 1;
            }
            Err(LoqErr::OpenTwoHeads { heads })
        },
        Err(SeqFault::DuplicateId(d)) => {
            proof {
                lemma_twin_listed(ids_v, 0);
            }
            if d.len() == 0 {
                return Err(LoqErr::OpenNoHeads);
            }
            let mut dup_files: Vec<FILE> = Vec::new();
            let mut k: usize = 0;
            while k < d.len()
                invariant
                    k <= d.len(),
                    dup_files.len() == k,
                    forall|j: int| 0 <= j < d.len() ==> #[trigger] d@[j] < ids.len(),
                    items.len() == read.len(),
                    ids@ == spec_id_pairs(read),
                    forall|j: int| 0 <= j < read.len() ==> #[trigger] items@[j] as int == read[j].0 && read[j].0
                        < files.len(),
                    forall|j: int| 0 <= j < k ==> cloned(files@[read[d@[j] as int].0].0, #[trigger] dup_files@[j]),
                decreases d.len() - k,
            {
                let f = files[items[d[k]]].0.clone();
                dup_files.push(f);
                k = k + 1;
            }
            Err(LoqErr::OpenLogDuplicateId { id: id_vals[d[0]], files: dup_files })
        },
    }
}

} // verus!
