use vstd::prelude::*;
use vstd::bytes::*;
use crate::bbuff::streambuff::{ByteBuff, ByteReader, ByteWriter, spec_overwrite, lemma_overwrite_concat, lemma_overwrite_reads_back};
use super::err::BlockErr;
use super::string_n::{
    String16, String32, spec_utf8_len, spec_encode_str16, spec_encode_str32, spec_decode_str16,
    spec_decode_str32, lemma_str16_round_trip, lemma_str32_round_trip,
};

verus! {

/// Key/value pairs of text, in the order their keys were first set.
pub type OptionsView = Seq<(Seq<char>, Seq<char>)>;

/// The position of the pair of key `k` in `m`, at `from` or after.
pub open spec fn spec_key_position(m: OptionsView, k: Seq<char>, from: int) -> Option<int>
    decreases m.len() - from,
{
    if from < 0 || from >= m.len() {
        None
    } else if m[from].0 == k {
        Some(from)
    } else {
        spec_key_position(m, k, from + 1)
    }
}

/// `m` with key `k` set to `v`: in place where `k` is there, else at the end.
pub open spec fn spec_set_option(m: OptionsView, k: Seq<char>, v: Seq<char>) -> OptionsView {
    match spec_key_position(m, k, 0) {
        Some(i) => m.update(i, (k, v)),
        None => m.push((k, v)),
    }
}

/// The value of key `k` in `m`.
pub open spec fn spec_get_option(m: OptionsView, k: Seq<char>) -> Option<Seq<char>> {
    match spec_key_position(m, k, 0) {
        Some(i) => Some(m[i].1),
        None => None,
    }
}

/// No key occurs twice, and every key and value fits its stored size.
pub open spec fn spec_options_ok(m: OptionsView) -> bool {
    &&& forall|i: int, j: int| 0 <= i < j < m.len() ==> #[trigger] m[i].0 != #[trigger] m[j].0
    &&& forall|i: int|
        0 <= i < m.len() ==> spec_utf8_len(#[trigger] m[i].0) <= u16::MAX && spec_utf8_len(
            m[i].1,
        ) <= u32::MAX
}

/// The stored form of the pairs, one after the other.
pub open spec fn spec_encode_pairs(m: OptionsView) -> Seq<u8>
    decreases m.len(),
{
    if m.len() == 0 {
        Seq::empty()
    } else {
        spec_encode_str16(m[0].0) + spec_encode_str32(m[0].1) + spec_encode_pairs(m.drop_first())
    }
}

/// The stored form of options: their count in eight bytes, then the pairs.
pub open spec fn spec_encode_options(m: OptionsView) -> Seq<u8> {
    spec_u64_to_le_bytes(m.len() as u64) + spec_encode_pairs(m)
}

/// Reading `count` pairs from `pos` of `b` into `acc`: the options then held
/// and the position after the pairs.
pub open spec fn spec_decode_pairs(b: Seq<u8>, pos: int, count: nat, acc: OptionsView) -> Option<
    (OptionsView, int),
>
    decreases count,
{
    if count == 0 {
        Some((acc, pos))
    } else {
        match spec_decode_str16(b, pos) {
            None => None,
            Some((k, n1)) => match spec_decode_str32(b, pos + n1) {
                None => None,
                Some((v, n2)) => spec_decode_pairs(
                    b,
                    pos + n1 + n2,
                    (count - 1) as nat,
                    spec_set_option(acc, k, v),
                ),
            },
        }
    }
}

/// Reading options stored at `pos` of `b` into `acc`.
pub open spec fn spec_decode_options(b: Seq<u8>, pos: int, acc: OptionsView) -> Option<
    (OptionsView, int),
> {
    if pos + 8 > b.len() {
        None
    } else {
        spec_decode_pairs(b, pos + 8, spec_u64_from_le_bytes(b.subrange(pos, pos + 8)) as nat, acc)
    }
}

proof fn lemma_key_position_absent(m: OptionsView, k: Seq<char>, from: int)
    requires
        0 <= from,
        forall|i: int| from <= i < m.len() ==> #[trigger] m[i].0 != k,
    ensures
        spec_key_position(m, k, from) is None,
    decreases m.len() - from,
{
    if from < m.len() {
        lemma_key_position_absent(m, k, from + 1);
    }
}

proof fn lemma_key_position_found(m: OptionsView, k: Seq<char>, from: int)
    requires
        0 <= from,
    ensures
        spec_key_position(m, k, from) matches Some(i) ==> from <= i < m.len() && m[i].0 == k
            && forall|j: int| from <= j < i ==> #[trigger] m[j].0 != k,
        spec_key_position(m, k, from) is None ==> forall|j: int|
            from <= j < m.len() ==> #[trigger] m[j].0 != k,
    decreases m.len() - from,
{
    if 0 <= from < m.len() && m[from].0 != k {
        lemma_key_position_found(m, k, from + 1);
    }
}

/// Reading a key after setting one: the value set where it is that key,
/// else what was there before.
pub proof fn lemma_get_after_set(m: OptionsView, k: Seq<char>, v: Seq<char>, k2: Seq<char>)
    ensures
        spec_get_option(spec_set_option(m, k, v), k2) == if k2 == k {
            Some(v)
        } else {
            spec_get_option(m, k2)
        },
{
    lemma_key_position_found(m, k, 0);
    lemma_key_position_found(m, k2, 0);
    let r = spec_set_option(m, k, v);
    lemma_key_position_found(r, k2, 0);
    match spec_key_position(m, k, 0) {
        Some(i) => {
            assert(r.len() == m.len());
            if k2 == k {
                assert(r[i].0 == k);
                assert forall|j: int| 0 <= j < i implies #[trigger] r[j].0 != k2 by {
                    assert(r[j] == m[j]);
                }
                lemma_key_position_first(r, k2, i);
            } else {
                assert forall|j: int| 0 <= j < r.len() implies (#[trigger] r[j].0 == k2 <==> m[j].0 == k2) by {
                    if j != i {
                        assert(r[j] == m[j]);
                    }
                }
                lemma_key_position_same(m, r, k2, 0);
            }
        },
        None => {
            if k2 == k {
                assert(r[m.len() as int].0 == k);
                assert forall|j: int| 0 <= j < m.len() implies #[trigger] r[j].0 != k2 by {
                    assert(r[j] == m[j]);
                }
                lemma_key_position_first(r, k2, m.len() as int);
            } else {
                assert forall|j: int| 0 <= j < m.len() implies (#[trigger] r[j].0 == k2 <==> m[j].0 == k2) by {
                    assert(r[j] == m[j]);
                }
                lemma_key_position_prefix(m, r, k2, 0);
            }
        },
    }
}

proof fn lemma_key_position_first(m: OptionsView, k: Seq<char>, i: int)
    requires
        0 <= i < m.len(),
        m[i].0 == k,
        forall|j: int| 0 <= j < i ==> #[trigger] m[j].0 != k,
    ensures
        spec_key_position(m, k, 0) == Some(i),
{
    lemma_key_position_first_from(m, k, i, 0);
}

proof fn lemma_key_position_first_from(m: OptionsView, k: Seq<char>, i: int, from: int)
    requires
        0 <= from <= i < m.len(),
        m[i].0 == k,
        forall|j: int| from <= j < i ==> #[trigger] m[j].0 != k,
    ensures
        spec_key_position(m, k, from) == Some(i),
    decreases i - from,
{
    if from < i {
        lemma_key_position_first_from(m, k, i, from + 1);
    }
}

proof fn lemma_key_position_same(m: OptionsView, r: OptionsView, k: Seq<char>, from: int)
    requires
        0 <= from,
        m.len() == r.len(),
        forall|j: int| 0 <= j < r.len() ==> (#[trigger] r[j].0 == k <==> m[j].0 == k),
    ensures
        spec_key_position(r, k, from) == spec_key_position(m, k, from),
        spec_key_position(m, k, from) matches Some(i) ==> m[i].1 == m[i].1,
    decreases m.len() - from,
{
    if from < m.len() {
        lemma_key_position_same(m, r, k, from + 1);
    }
}

proof fn lemma_key_position_prefix(m: OptionsView, r: OptionsView, k: Seq<char>, from: int)
    requires
        0 <= from,
        r.len() == m.len() + 1,
        r[m.len() as int].0 != k,
        forall|j: int| 0 <= j < m.len() ==> (#[trigger] r[j].0 == k <==> m[j].0 == k),
    ensures
        spec_key_position(r, k, from) == spec_key_position(m, k, from),
    decreases r.len() - from,
{
    if from < r.len() {
        lemma_key_position_prefix(m, r, k, from + 1);
    }
}

/// Setting keeps options well formed.
pub proof fn lemma_set_option_ok(m: OptionsView, k: Seq<char>, v: Seq<char>)
    requires
        spec_options_ok(m),
        spec_utf8_len(k) <= u16::MAX,
        spec_utf8_len(v) <= u32::MAX,
    ensures
        spec_options_ok(spec_set_option(m, k, v)),
        spec_set_option(m, k, v).len() >= m.len(),
{
    lemma_key_position_found(m, k, 0);
    let r = spec_set_option(m, k, v);
    match spec_key_position(m, k, 0) {
        Some(i) => {
            assert forall|a: int, b: int| 0 <= a < b < r.len() implies #[trigger] r[a].0
                != #[trigger] r[b].0 by {
                if a != i && b != i {
                    assert(r[a] == m[a] && r[b] == m[b]);
                } else if a == i {
                    assert(r[b] == m[b]);
                    assert(m[i].0 != m[b].0);
                } else {
                    assert(r[a] == m[a]);
                    assert(m[a].0 != m[i].0);
                }
            }
            assert forall|a: int| 0 <= a < r.len() implies spec_utf8_len(#[trigger] r[a].0)
                <= u16::MAX && spec_utf8_len(r[a].1) <= u32::MAX by {
                if a != i {
                    assert(r[a] == m[a]);
                }
            }
        },
        None => {
            assert forall|a: int, b: int| 0 <= a < b < r.len() implies #[trigger] r[a].0
                != #[trigger] r[b].0 by {
                if b < m.len() {
                    assert(r[a] == m[a] && r[b] == m[b]);
                } else {
                    assert(r[a] == m[a]);
                }
            }
            assert forall|a: int| 0 <= a < r.len() implies spec_utf8_len(#[trigger] r[a].0)
                <= u16::MAX && spec_utf8_len(r[a].1) <= u32::MAX by {
                if a < m.len() {
                    assert(r[a] == m[a]);
                }
            }
        },
    }
}

/// Reading stored options back into empty options gives them back.
pub proof fn lemma_options_round_trip(m: OptionsView, b: Seq<u8>, pos: int)
    requires
        spec_options_ok(m),
        m.len() <= u64::MAX,
        0 <= pos,
        pos + spec_encode_options(m).len() <= b.len(),
        b.subrange(pos, pos + spec_encode_options(m).len()) == spec_encode_options(m),
    ensures
        spec_decode_options(b, pos, Seq::empty()) == Some(
            (m, pos + spec_encode_options(m).len()),
        ),
{
    lemma_auto_spec_u64_to_from_le_bytes();
    let e = spec_encode_options(m);
    assert(b.subrange(pos, pos + 8) =~= e.subrange(0, 8));
    assert(e.subrange(0, 8) =~= spec_u64_to_le_bytes(m.len() as u64));
    assert(m.take(0) =~= Seq::<(Seq<char>, Seq<char>)>::empty());
    assert(m.skip(0) =~= m);
    let pl = spec_encode_pairs(m).len() as int;
    assert(b.subrange(pos + 8, pos + 8 + pl) =~= e.subrange(8, 8 + pl));
    assert(e.subrange(8, 8 + pl) =~= spec_encode_pairs(m));
    lemma_pairs_round_trip(m, 0, b, pos + 8);
}

proof fn lemma_pairs_round_trip(m: OptionsView, j: int, b: Seq<u8>, pos: int)
    requires
        spec_options_ok(m),
        0 <= j <= m.len(),
        0 <= pos,
        pos + spec_encode_pairs(m.skip(j)).len() <= b.len(),
        b.subrange(pos, pos + spec_encode_pairs(m.skip(j)).len()) == spec_encode_pairs(m.skip(j)),
    ensures
        spec_decode_pairs(b, pos, (m.len() - j) as nat, m.take(j)) == Some(
            (m, pos + spec_encode_pairs(m.skip(j)).len()),
        ),
    decreases m.len() - j,
{
    if j == m.len() {
        assert(m.take(j) =~= m);
        assert(m.skip(j) =~= Seq::<(Seq<char>, Seq<char>)>::empty());
    } else {
        let rest = m.skip(j);
        let k = m[j].0;
        let v = m[j].1;
        assert(rest[0] == m[j]);
        assert(rest.drop_first() =~= m.skip(j + 1));
        let e16 = spec_encode_str16(k);
        let e32 = spec_encode_str32(v);
        let tail = spec_encode_pairs(m.skip(j + 1));
        let all = spec_encode_pairs(rest);
        let l16 = e16.len() as int;
        let l32 = e32.len() as int;
        assert(all == e16 + e32 + tail);
        assert(b.subrange(pos, pos + e16.len()) =~= all.subrange(0, l16));
        assert(all.subrange(0, l16) =~= e16);
        lemma_str16_round_trip(k, b, pos);
        let p1 = pos + e16.len();
        assert(b.subrange(p1, p1 + e32.len()) =~= all.subrange(l16, l16 + l32));
        assert(all.subrange(l16, l16 + l32) =~= e32);
        lemma_str32_round_trip(v, b, p1);
        let p2 = p1 + e32.len();
        assert(b.subrange(p2, p2 + tail.len()) =~= all.subrange(l16 + l32, all.len() as int));
        assert(all.subrange(l16 + l32, all.len() as int) =~= tail);
        assert forall|i: int| 0 <= i < m.take(j).len() implies #[trigger] m.take(j)[i].0 != k by {
            assert(m.take(j)[i] == m[i]);
        }
        lemma_key_position_absent(m.take(j), k, 0);
        assert(spec_set_option(m.take(j), k, v) =~= m.take(j + 1));
        lemma_pairs_round_trip(m, j + 1, b, p2);
    }
}

/// The pairs of text that stored pairs hold.
pub open spec fn spec_pairs_view(v: Seq<(String16, String32)>) -> OptionsView {
    v.map_values(|p: (String16, String32)| (p.0@, p.1@))
}

/// Where the pair of key `key` stands in `vals`.
fn key_position(vals: &Vec<(String16, String32)>, key: &str) -> (r: Option<usize>)
    ensures
        r matches Some(i) ==> i < vals.len() && spec_key_position(spec_pairs_view(vals@), key@, 0)
            == Some(i as int),
        r is None ==> spec_key_position(spec_pairs_view(vals@), key@, 0) is None,
{
    let ghost m = spec_pairs_view(vals@);
    let mut i: usize = 0;
    proof {
        lemma_key_position_found(m, key@, 0);
    }
    while i < vals.len()
        invariant
            i <= vals.len(),
            m == spec_pairs_view(vals@),
            m.len() == vals.len(),
            forall|j: int| 0 <= j < i ==> #[trigger] m[j].0 != key@,
            spec_key_position(m, key@, 0) == spec_key_position(m, key@, i as int),
        decreases vals.len() - i,
    {
        let same = crate::text::same_text(vals[i].0.value(), key);
        if same {
            return Some(i);
        }
        i = i + 1;
    }
    proof {
        lemma_key_position_absent(m, key@, i as int);
    }
    None
}

/// The options of a block: key/value pairs of text.
#[derive(Debug)]
pub struct BlockOptions {
    values: Vec<(String16, String32)>,
}

impl View for BlockOptions {
    type V = OptionsView;

    closed spec fn view(&self) -> OptionsView {
        spec_pairs_view(self.values@)
    }
}

impl BlockOptions {
    /// The options are well formed, and as many as a `usize` counts.
    #[verifier::type_invariant]
    pub open spec fn well_formed(&self) -> bool {
        &&& spec_options_ok(self@)
        &&& self@.len() <= usize::MAX
    }

    /// The options are well formed.
    pub fn check_ok(&self) -> (r: bool)
        ensures
            r,
            spec_options_ok(self@),
    {
        proof {
            use_type_invariant(self);
        }
        true
    }

    pub fn is_empty(&self) -> (r: bool)
        ensures
            r == (self@.len() == 0),
    {
        self.values.len() == 0
    }

    /// The number of pairs.
    pub fn len(&self) -> (r: usize)
        ensures
            r == self@.len(),
    {
        self.values.len()
    }

    /// Sets `key` to `value`: in place where the key is there, else as a new
    /// last pair. Fails where the key's text exceeds 64 KiB or the value's
    /// 4 GiB, and then changes nothing.
    pub fn set(&mut self, key: &str, value: &str) -> (r: Result<(), BlockErr>)
        ensures
            r is Ok <==> spec_utf8_len(key@) <= u16::MAX && spec_utf8_len(value@) <= u32::MAX,
            r is Ok ==> final(self)@ == spec_set_option(old(self)@, key@, value@),
            r is Err ==> final(self)@ == old(self)@,
            spec_utf8_len(key@) > u16::MAX ==> (r matches Err(BlockErr::Limit { limit, target, .. }) && limit
                == u16::MAX && target == spec_utf8_len(key@)),
            spec_utf8_len(key@) <= u16::MAX && spec_utf8_len(value@) > u32::MAX ==> (r matches Err(
                BlockErr::Limit { limit, target, .. },
            ) && limit == u32::MAX && target == spec_utf8_len(value@)),
    {
        proof {
            use_type_invariant(&*self);
        }
        let k = match String16::try_from(key) {
            Ok(k) => k,
            Err(e) => return Err(e),
        };
        let v = match String32::try_from(value) {
            Ok(v) => v,
            Err(e) => return Err(e),
        };
        self.set_pair(k, v);
        Ok(())
    }

    /// Sets key `k` to `v`.
    fn set_pair(&mut self, k: String16, v: String32)
        ensures
            final(self)@ == spec_set_option(old(self)@, k@, v@),
    {
        proof {
            use_type_invariant(&*self);
        }
        let key = k.value();
        let _ = v.value();
        let ghost m = self@;
        proof {
            lemma_set_option_ok(m, k@, v@);
        }
        let mut vals = Vec::new();
        std::mem::swap(&mut vals, &mut self.values);
        match key_position(&vals, key) {
            Some(i) => {
                vals.set(i, (k, v));
            },
            None => {
                vals.push((k, v));
            },
        }
        proof {
            assert(spec_pairs_view(vals@) =~= spec_set_option(m, k@, v@));
            assert(spec_pairs_view(vals@).len() == vals.len());
        }
        *self = BlockOptions { values: vals };
    }

    /// The value of `key`; `None` where it is not set, or where the key's
    /// text exceeds 64 KiB.
    pub fn get(&self, key: &str) -> (r: Option<String32>)
        ensures
            spec_utf8_len(key@) <= u16::MAX ==> match spec_get_option(self@, key@) {
                Some(v) => r matches Some(x) && x@ == v,
                None => r is None,
            },
            spec_utf8_len(key@) > u16::MAX ==> r is None,
    {
        if key.as_bytes().len() > 0xffffusize {
            return None;
        }
        match key_position(&self.values, key) {
            Some(i) => Some(self.values[i].1.copy()),
            None => None,
        }
    }

    /// The keys, in order.
    pub fn keys(&self) -> (r: Vec<String16>)
        ensures
            r@.len() == self@.len(),
            forall|i: int| 0 <= i < r@.len() ==> #[trigger] r@[i]@ == self@[i].0,
    {
        let mut r: Vec<String16> = Vec::new();
        let mut i: usize = 0;
        while i < self.values.len()
            invariant
                i <= self.values.len(),
                self@.len() == self.values.len(),
                r@.len() == i,
                forall|j: int| 0 <= j < i ==> #[trigger] r@[j]@ == self@[j].0,
            decreases self.values.len() - i,
        {
            r.push(self.values[i].0.copy());
            i = i + 1;
        }
        r
    }

    /// The pairs, in order.
    pub fn entries(&self) -> (r: Vec<(String16, String32)>)
        ensures
            spec_pairs_view(r@) == self@,
    {
        let mut r: Vec<(String16, String32)> = Vec::new();
        let mut i: usize = 0;
        while i < self.values.len()
            invariant
                i <= self.values.len(),
                self@.len() == self.values.len(),
                spec_pairs_view(r@) == self@.take(i as int),
            decreases self.values.len() - i,
        {
            let k = self.values[i].0.copy();
            let v = self.values[i].1.copy();
            let ghost r0 = r@;
            r.push((k, v));
            proof {
                assert(self@[i as int] == (self.values@[i as int].0@, self.values@[i as int].1@));
                assert(r@ == r0.push((k, v)));
                assert(spec_pairs_view(r@) =~= spec_pairs_view(r0).push((k@, v@)));
                assert(spec_pairs_view(r@) =~= self@.take(i + 1));
            }
            i = i + 1;
        }
        proof {
            assert(self@.take(i as int) =~= self@);
        }
        r
    }

    /// Removes `key`, and returns its pair where it was set.
    pub fn delete(&mut self, key: &str) -> (r: Option<(String16, String32)>)
        ensures
            match spec_key_position(old(self)@, key@, 0) {
                Some(i) => r matches Some(p) && p.0@ == old(self)@[i].0 && p.1@ == old(self)@[i].1
                    && final(self)@ == old(self)@.remove(i),
                None => r is None && final(self)@ == old(self)@,
            },
    {
        proof {
            use_type_invariant(&*self);
        }
        let ghost m = self@;
        match key_position(&self.values, key) {
            Some(i) => {
                let mut vals = Vec::new();
                std::mem::swap(&mut vals, &mut self.values);
                let p = vals.remove(i);
                proof {
                    assert(spec_pairs_view(vals@) =~= m.remove(i as int));
                    assert forall|a: int, b: int|
                        0 <= a < b < m.remove(i as int).len() implies #[trigger] m.remove(i as int)[a].0
                        != #[trigger] m.remove(i as int)[b].0 by {
                        let aa = if a < i { a } else { a + 1 };
                        let bb = if b < i { b } else { b + 1 };
                        assert(m.remove(i as int)[a] == m[aa]);
                        assert(m.remove(i as int)[b] == m[bb]);
                    }
                    assert forall|a: int| 0 <= a < m.remove(i as int).len() implies spec_utf8_len(
                        #[trigger] m.remove(i as int)[a].0,
                    ) <= u16::MAX && spec_utf8_len(m.remove(i as int)[a].1) <= u32::MAX by {
                        let aa = if a < i { a } else { a + 1 };
                        assert(m.remove(i as int)[a] == m[aa]);
                        assert(spec_utf8_len(m[aa].0) <= u16::MAX);
                    }
                }
                *self = BlockOptions { values: vals };
                Some(p)
            },
            None => None,
        }
    }

    /// Removes every pair.
    pub fn clear(&mut self)
        ensures
            final(self)@ == Seq::<(Seq<char>, Seq<char>)>::empty(),
    {
        *self = BlockOptions { values: Vec::new() };
        proof {
            assert(self@ =~= Seq::<(Seq<char>, Seq<char>)>::empty());
        }
    }

    /// The size of the options' stored form, or `u64::MAX` where it is
    /// larger.
    pub fn stored_size(&self) -> (r: u64)
        ensures
            spec_encode_options(self@).len() <= u64::MAX ==> r == spec_encode_options(self@).len(),
            spec_encode_options(self@).len() > u64::MAX ==> r == u64::MAX,
    {
        proof {
            lemma_auto_spec_u16_to_from_le_bytes();
            lemma_auto_spec_u32_to_from_le_bytes();
            lemma_auto_spec_u64_to_from_le_bytes();
        }
        let ghost m = self@;
        let mut total: u128 = 8;
        let mut i: usize = 0;
        proof {
            assert(m.take(0) =~= Seq::<(Seq<char>, Seq<char>)>::empty());
        }
        while i < self.values.len()
            invariant
                m == self@,
                m.len() == self.values.len(),
                i <= self.values.len(),
                total == 8 + spec_encode_pairs(m.take(i as int)).len(),
                total <= 8 + i * 0x1_0001_0006,
            decreases self.values.len() - i,
        {
            let k = self.values[i].0.value();
            let v = self.values[i].1.value();
            let kl = k.as_bytes().len();
            let vl = v.as_bytes().len();
            proof {
                lemma_auto_spec_u16_to_from_le_bytes();
                lemma_auto_spec_u32_to_from_le_bytes();
                lemma_encode_pairs_push(m.take(i as int), m[i as int]);
                assert(m.take(i + 1) =~= m.take(i as int).push(m[i as int]));
                assert(m[i as int] == (self.values@[i as int].0@, self.values@[i as int].1@));
                assert(i * 0x1_0001_0006 + 0x1_0001_0006 == (i + 1) * 0x1_0001_0006) by (nonlinear_arith);
                assert(i * 0x1_0001_0006 <= 0xffff_ffff_ffff_ffff * 0x1_0001_0006) by (nonlinear_arith)
                    requires i <= 0xffff_ffff_ffff_ffff;
            }
            total = total + 6 + kl as u128 + vl as u128;
            i = i + 1;
        }
        proof {
            assert(m.take(i as int) =~= m);
            lemma_auto_spec_u64_to_from_le_bytes();
        }
        if total > u64::MAX as u128 {
            u64::MAX
        } else {
            total as u64
        }
    }

    /// The same options.
    pub fn copy(&self) -> (r: Self)
        ensures
            r@ == self@,
    {
        proof {
            use_type_invariant(self);
        }
        let vals = self.entries();
        BlockOptions { values: vals }
    }
}

impl Clone for BlockOptions {
    fn clone(&self) -> (r: Self)
        ensures
            r@ == self@,
    {
        self.copy()
    }
}

impl Default for BlockOptions {
    fn default() -> (r: Self)
        ensures
            r@ == Seq::<(Seq<char>, Seq<char>)>::empty(),
    {
        let r = BlockOptions { values: Vec::new() };
        proof {
            assert(r@ =~= Seq::<(Seq<char>, Seq<char>)>::empty());
        }
        r
    }
}

/// The stored form of pairs grows pair by pair.
pub proof fn lemma_encode_pairs_push(m: OptionsView, x: (Seq<char>, Seq<char>))
    ensures
        spec_encode_pairs(m.push(x)) == spec_encode_pairs(m) + spec_encode_str16(x.0)
            + spec_encode_str32(x.1),
    decreases m.len(),
{
    if m.len() == 0 {
        reveal_with_fuel(spec_encode_pairs, 2);
        assert(m.push(x).drop_first() =~= Seq::<(Seq<char>, Seq<char>)>::empty());
        assert(spec_encode_pairs(m.push(x)) =~= spec_encode_str16(x.0) + spec_encode_str32(x.1));
    } else {
        assert(m.push(x).drop_first() =~= m.drop_first().push(x));
        lemma_encode_pairs_push(m.drop_first(), x);
        assert(spec_encode_pairs(m.push(x)) =~= spec_encode_pairs(m) + spec_encode_str16(x.0)
            + spec_encode_str32(x.1));
    }
}

impl<'a> ByteWriter<&'a BlockOptions> for ByteBuff {
    open spec fn can_write(&self, v: &'a BlockOptions) -> bool {
        self.writable(spec_encode_options(v@).len() as int)
    }

    fn write(&mut self, v: &'a BlockOptions)
        ensures
            final(self).wrote(*old(self), spec_encode_options(v@)),
    {
        proof {
            assert(<ByteBuff as ByteWriter<&'a BlockOptions>>::can_write(&*old(self), v));
        }
        proof {
            use_type_invariant(v);
        }
        let ghost b0 = *self;
        let ghost m = v@;
        let ghost total = spec_encode_options(m);
        proof {
            lemma_auto_spec_u64_to_from_le_bytes();
            lemma_overwrite_reads_back(b0.buff@, b0.position as int, total);
        }
        let n = v.values.len();
        self.write(n);
        let mut i: usize = 0;
        while i < n
            invariant
                n == v.values.len(),
                m == v@,
                m.len() == n,
                i <= n,
                spec_options_ok(m),
                total == spec_encode_options(m),
                b0.writable(total.len() as int),
                self.wrote(b0, spec_u64_to_le_bytes(n as u64) + spec_encode_pairs(m.take(i as int))),
            decreases n - i,
        {
            let ghost done = spec_u64_to_le_bytes(n as u64) + spec_encode_pairs(m.take(i as int));
            let k = v.values[i].0.copy();
            let val = v.values[i].1.copy();
            let ghost e16 = spec_encode_str16(m[i as int].0);
            let ghost e32 = spec_encode_str32(m[i as int].1);
            proof {
                lemma_auto_spec_u16_to_from_le_bytes();
                lemma_auto_spec_u32_to_from_le_bytes();
                lemma_encode_pairs_push(m.take(i as int), m[i as int]);
                assert(m.take(i + 1) =~= m.take(i as int).push(m[i as int]));
                lemma_encode_pairs_prefix(m, i + 1);
                lemma_overwrite_reads_back(b0.buff@, b0.position as int, done);
            }
            self.write(k);
            proof {
                lemma_overwrite_concat(b0.buff@, b0.position as int, done, e16);
                lemma_overwrite_reads_back(b0.buff@, b0.position as int, done + e16);
            }
            self.write(val);
            proof {
                lemma_overwrite_concat(b0.buff@, b0.position as int, done + e16, e32);
                assert(done + e16 + e32 =~= spec_u64_to_le_bytes(n as u64) + spec_encode_pairs(
                    m.take(i + 1),
                ));
            }
            i = i + 1;
        }
        proof {
            assert(m.take(n as int) =~= m);
        }
    }
}

/// The stored form of a prefix of pairs is no longer than that of all.
pub proof fn lemma_encode_pairs_prefix(m: OptionsView, i: int)
    requires
        0 <= i <= m.len(),
    ensures
        spec_encode_pairs(m.take(i)).len() <= spec_encode_pairs(m).len(),
    decreases m.len() - i,
{
    if i < m.len() {
        lemma_encode_pairs_prefix(m, i + 1);
        lemma_encode_pairs_push(m.take(i), m[i]);
        assert(m.take(i + 1) =~= m.take(i).push(m[i]));
    } else {
        assert(m.take(i) =~= m);
    }
}

impl ByteReader<BlockOptions> for ByteBuff {
    open spec fn can_read(&self, target: BlockOptions) -> bool {
        self.position <= self.buff.len()
    }

    fn read(&mut self, target: &mut BlockOptions) -> (r: Result<(), String>)
        ensures
            final(self).buff@ == old(self).buff@,
            final(self).position <= final(self).buff.len(),
            match spec_decode_options(old(self).buff@, old(self).position as int, old(target)@) {
                Some((m, end)) => r is Ok && final(target)@ == m && final(self).position == end,
                None => r is Err,
            },
    {
        proof {
            assert(<ByteBuff as ByteReader<BlockOptions>>::can_read(&*old(self), *old(target)));
        }
        let ghost b = self.buff@;
        let mut count: u64 = 0;
        match self.read(&mut count) {
            Ok(()) => {},
            Err(e) => return Err(e),
        }
        let mut i: u64 = 0;
        while i < count
            invariant
                self.buff@ == b,
                b == old(self).buff@,
                self.position <= self.buff.len(),
                i <= count,
                spec_decode_options(b, old(self).position as int, old(target)@) == spec_decode_pairs(
                    b,
                    self.position as int,
                    (count - i) as nat,
                    target@,
                ),
            decreases count - i,
        {
            let mut key = String16::default();
            let mut value = String32::default();
            let ghost p0 = self.position as int;
            let ghost acc = target@;
            match self.read(&mut key) {
                Ok(()) => {},
                Err(e) => {
                    assert(spec_decode_pairs(b, p0, (count - i) as nat, acc) is None);
                    return Err(e);
                },
            }
            let ghost p1 = self.position as int;
            match self.read(&mut value) {
                Ok(()) => {},
                Err(e) => {
                    assert(spec_decode_pairs(b, p0, (count - i) as nat, acc) is None);
                    return Err(e);
                },
            }
            target.set_pair(key, value);
            i = i + 1;
        }
        Ok(())
    }
}

} // verus!
