use vstd::prelude::*;
use vstd::bytes::*;
use vstd::slice::slice_subrange;

verus! {

/// `b` with `d` written over it from position `pos` on, grown where `d`
/// reaches past its end.
pub open spec fn spec_overwrite(b: Seq<u8>, pos: int, d: Seq<u8>) -> Seq<u8> {
    if pos + d.len() <= b.len() {
        b.take(pos) + d + b.skip(pos + d.len())
    } else {
        b.take(pos) + d
    }
}

/// Writing `d1` and then `d2` right after it is writing `d1 + d2`.
pub proof fn lemma_overwrite_concat(b: Seq<u8>, pos: int, d1: Seq<u8>, d2: Seq<u8>)
    requires
        0 <= pos <= b.len(),
    ensures
        spec_overwrite(spec_overwrite(b, pos, d1), pos + d1.len(), d2) == spec_overwrite(
            b,
            pos,
            d1 + d2,
        ),
{
    let b1 = spec_overwrite(b, pos, d1);
    assert(spec_overwrite(b1, pos + d1.len(), d2) =~= spec_overwrite(b, pos, d1 + d2));
}

/// Writing at the end appends.
pub proof fn lemma_overwrite_at_end(b: Seq<u8>, d: Seq<u8>)
    ensures
        spec_overwrite(b, b.len() as int, d) == b + d,
{
    assert(spec_overwrite(b, b.len() as int, d) =~= b + d);
}

/// After a write the written bytes stand at the old position.
pub proof fn lemma_overwrite_reads_back(b: Seq<u8>, pos: int, d: Seq<u8>)
    requires
        0 <= pos <= b.len(),
    ensures
        spec_overwrite(b, pos, d).len() >= pos + d.len(),
        spec_overwrite(b, pos, d).subrange(pos, pos + d.len()) == d,
        spec_overwrite(b, pos, d).take(pos) == b.take(pos),
{
    assert(spec_overwrite(b, pos, d).subrange(pos, pos + d.len()) =~= d);
    assert(spec_overwrite(b, pos, d).take(pos) =~= b.take(pos));
}

/// A byte buffer with a current position, written and read in sequence.
#[derive(Debug, Clone)]
pub struct ByteBuff {
    /// The bytes.
    pub buff: Vec<u8>,
    /// Where the next write or read starts.
    pub position: usize,
}

impl ByteBuff {
    /// The position lies within the bytes, and `n` more bytes can follow it.
    pub open spec fn writable(&self, n: int) -> bool {
        self.position <= self.buff.len() && self.position + n <= usize::MAX
    }

    /// `self` is `before` with `d` written at its position.
    pub open spec fn wrote(&self, before: ByteBuff, d: Seq<u8>) -> bool {
        &&& self.buff@ == spec_overwrite(before.buff@, before.position as int, d)
        &&& self.position == before.position + d.len()
    }

    /// At least `n` bytes follow the position.
    pub open spec fn has(&self, n: int) -> bool {
        self.buff.len() - self.position >= n
    }

    /// The `n` bytes that follow the position.
    pub open spec fn ahead(&self, n: int) -> Seq<u8> {
        self.buff@.subrange(self.position as int, self.position + n)
    }

    /// `self` is `before` with its position moved over `n` bytes.
    pub open spec fn skipped(&self, before: ByteBuff, n: int) -> bool {
        self.buff@ == before.buff@ && self.position == before.position + n
    }

    /// An empty buffer.
    pub fn new() -> (r: Self)
        ensures
            r.buff@ == Seq::<u8>::empty(),
            r.position == 0,
    {
        ByteBuff { buff: Vec::new(), position: 0 }
    }

    /// A buffer over the given bytes, positioned at their start.
    pub fn from(buff: Vec<u8>) -> (r: Self)
        ensures
            r.buff@ == buff@,
            r.position == 0,
    {
        ByteBuff { buff, position: 0 }
    }

    /// Empties the buffer and moves the position to its start.
    pub fn reset(&mut self)
        ensures
            final(self).buff@ == Seq::<u8>::empty(),
            final(self).position == 0,
    {
        self.buff.truncate(0);
        self.position = 0;
    }

    /// Writes `data` at the position, growing the buffer where needed, and
    /// moves the position past it.
    pub fn write_byte_arr(&mut self, data: &[u8])
        requires
            old(self).writable(data@.len() as int),
        ensures
            final(self).wrote(*old(self), data@),
    {
        let ghost before = self.buff@;
        let pos = self.position;
        let mut i: usize = 0;
        while i < data.len()
            invariant
                pos <= before.len(),
                pos + data@.len() <= usize::MAX,
                i <= data@.len(),
                self.buff@ == spec_overwrite(before, pos as int, data@.take(i as int)),
            decreases data@.len() - i,
        {
            let p = pos + i;
            let ghost prev = self.buff@;
            if p < self.buff.len() {
                self.buff.set(p, data[i]);
            } else {
                self.buff.push(data[i]);
            }
            proof {
                let d1 = data@.take(i + 1);
                assert(d1 == data@.take(i as int).push(data@[i as int]));
                assert(self.buff@ =~= spec_overwrite(before, pos as int, d1));
            }
            i = i + 1;
        }
        proof {
            assert(data@.take(data@.len() as int) =~= data@);
        }
        self.position = pos + data.len();
    }
}

/// Writing of a value's bytes at the current position.
pub trait ByteWriter<V: Sized> {
    /// The value can be written without the position overflowing.
    spec fn can_write(&self, v: V) -> bool;

    fn write(&mut self, v: V)
        requires
            old(self).can_write(v),
    ;
}

/// Reading of a value from the bytes at the current position.
pub trait ByteReader<V> {
    /// The position lies within the bytes.
    spec fn can_read(&self, target: V) -> bool;

    fn read(&mut self, target: &mut V) -> (r: Result<(), String>)
        requires
            old(self).can_read(*old(target)),
    ;
}

impl<'a> ByteWriter<&'a [u8]> for ByteBuff {
    open spec fn can_write(&self, v: &'a [u8]) -> bool {
        self.writable(v@.len() as int)
    }

    fn write(&mut self, v: &'a [u8])
        ensures
            final(self).wrote(*old(self), v@),
    {
        proof {
            assert(<ByteBuff as ByteWriter<&'a [u8]>>::can_write(&*old(self), v));
        }
        self.write_byte_arr(v);
    }
}

impl ByteWriter<u8> for ByteBuff {
    open spec fn can_write(&self, v: u8) -> bool {
        self.writable(1)
    }

    fn write(&mut self, v: u8)
        ensures
            final(self).wrote(*old(self), seq![v]),
    {
        proof {
            assert(<ByteBuff as ByteWriter<u8>>::can_write(&*old(self), v));
        }
        let data: Vec<u8> = vec![v];
        assert(data@ =~= seq![v]);
        self.write_byte_arr(data.as_slice());
    }
}

impl ByteWriter<u16> for ByteBuff {
    open spec fn can_write(&self, v: u16) -> bool {
        self.writable(2)
    }

    fn write(&mut self, v: u16)
        ensures
            final(self).wrote(*old(self), spec_u16_to_le_bytes(v)),
    {
        proof {
            assert(<ByteBuff as ByteWriter<u16>>::can_write(&*old(self), v));
        }
        let data = u16_to_le_bytes(v);
        self.write_byte_arr(data.as_slice());
    }
}

impl ByteWriter<u32> for ByteBuff {
    open spec fn can_write(&self, v: u32) -> bool {
        self.writable(4)
    }

    fn write(&mut self, v: u32)
        ensures
            final(self).wrote(*old(self), spec_u32_to_le_bytes(v)),
    {
        proof {
            assert(<ByteBuff as ByteWriter<u32>>::can_write(&*old(self), v));
        }
        proof {
            lemma_auto_spec_u32_to_from_le_bytes();
        }
        let data = u32_to_le_bytes(v);
        self.write_byte_arr(data.as_slice());
    }
}

impl ByteWriter<u64> for ByteBuff {
    open spec fn can_write(&self, v: u64) -> bool {
        self.writable(8)
    }

    fn write(&mut self, v: u64)
        ensures
            final(self).wrote(*old(self), spec_u64_to_le_bytes(v)),
    {
        proof {
            assert(<ByteBuff as ByteWriter<u64>>::can_write(&*old(self), v));
        }
        proof {
            lemma_auto_spec_u64_to_from_le_bytes();
        }
        let data = u64_to_le_bytes(v);
        self.write_byte_arr(data.as_slice());
    }
}

impl ByteWriter<usize> for ByteBuff {
    open spec fn can_write(&self, v: usize) -> bool {
        self.writable(8)
    }

    fn write(&mut self, v: usize)
        ensures
            final(self).wrote(*old(self), spec_u64_to_le_bytes(v as u64)),
    {
        proof {
            assert(<ByteBuff as ByteWriter<usize>>::can_write(&*old(self), v));
        }
        self.write(v as u64);
    }
}

impl ByteBuff {
    /// Takes `n` bytes from the position on, when they are there.
    fn take_ahead(&mut self, n: usize) -> (r: Option<Vec<u8>>)
        requires
            old(self).position <= old(self).buff.len(),
        ensures
            old(self).has(n as int) ==> (r matches Some(v) && v@ == old(self).ahead(n as int)
                && final(self).skipped(*old(self), n as int)),
            !old(self).has(n as int) ==> r is None && *final(self) == *old(self),
    {
        let available = self.buff.len() - self.position;
        if available < n {
            None
        } else {
            let part = slice_subrange(self.buff.as_slice(), self.position, self.position + n);
            let v = vstd::slice::slice_to_vec(part);
            self.position = self.position + n;
            Some(v)
        }
    }
}

impl ByteReader<u8> for ByteBuff {
    open spec fn can_read(&self, target: u8) -> bool {
        self.position <= self.buff.len()
    }

    fn read(&mut self, target: &mut u8) -> (r: Result<(), String>)
        ensures
            old(self).has(1) ==> r is Ok && *final(target) == old(self).buff@[old(self).position as int]
                && final(self).skipped(*old(self), 1),
            !old(self).has(1) ==> r is Err && *final(self) == *old(self) && *final(target) == *old(
                target,
            ),
    {
        proof {
            assert(<ByteBuff as ByteReader<u8>>::can_read(&*old(self), *old(target)));
        }
        let available = self.buff.len() - self.position;
        if available < 1 {
            Err(String::from_str("no data"))
        } else {
            *target = self.buff[self.position];
            self.position = self.position + 1;
            Ok(())
        }
    }
}

impl ByteReader<u16> for ByteBuff {
    open spec fn can_read(&self, target: u16) -> bool {
        self.position <= self.buff.len()
    }

    fn read(&mut self, target: &mut u16) -> (r: Result<(), String>)
        ensures
            old(self).has(2) ==> r is Ok && *final(target) == spec_u16_from_le_bytes(
                old(self).ahead(2),
            ) && final(self).skipped(*old(self), 2),
            !old(self).has(2) ==> r is Err && *final(self) == *old(self) && *final(target) == *old(
                target,
            ),
    {
        proof {
            assert(<ByteBuff as ByteReader<u16>>::can_read(&*old(self), *old(target)));
        }
        match self.take_ahead(2) {
            Some(b) => {
                *target = u16_from_le_bytes(b.as_slice());
                Ok(())
            },
            None => Err(String::from_str("no data")),
        }
    }
}

impl ByteReader<u32> for ByteBuff {
    open spec fn can_read(&self, target: u32) -> bool {
        self.position <= self.buff.len()
    }

    fn read(&mut self, target: &mut u32) -> (r: Result<(), String>)
        ensures
            old(self).has(4) ==> r is Ok && *final(target) == spec_u32_from_le_bytes(
                old(self).ahead(4),
            ) && final(self).skipped(*old(self), 4),
            !old(self).has(4) ==> r is Err && *final(self) == *old(self) && *final(target) == *old(
                target,
            ),
    {
        proof {
            assert(<ByteBuff as ByteReader<u32>>::can_read(&*old(self), *old(target)));
        }
        match self.take_ahead(4) {
            Some(b) => {
                *target = u32_from_le_bytes(b.as_slice());
                Ok(())
            },
            None => Err(String::from_str("no data")),
        }
    }
}

impl ByteReader<u64> for ByteBuff {
    open spec fn can_read(&self, target: u64) -> bool {
        self.position <= self.buff.len()
    }

    fn read(&mut self, target: &mut u64) -> (r: Result<(), String>)
        ensures
            old(self).has(8) ==> r is Ok && *final(target) == spec_u64_from_le_bytes(
                old(self).ahead(8),
            ) && final(self).skipped(*old(self), 8),
            !old(self).has(8) ==> r is Err && *final(self) == *old(self) && *final(target) == *old(
                target,
            ),
    {
        proof {
            assert(<ByteBuff as ByteReader<u64>>::can_read(&*old(self), *old(target)));
        }
        match self.take_ahead(8) {
            Some(b) => {
                *target = u64_from_le_bytes(b.as_slice());
                Ok(())
            },
            None => Err(String::from_str("no data")),
        }
    }
}

impl ByteReader<usize> for ByteBuff {
    open spec fn can_read(&self, target: usize) -> bool {
        self.position <= self.buff.len()
    }

    fn read(&mut self, target: &mut usize) -> (r: Result<(), String>)
        ensures
            old(self).has(8) ==> r is Ok && *final(target) == spec_u64_from_le_bytes(
                old(self).ahead(8),
            ) as usize && final(self).skipped(*old(self), 8),
            !old(self).has(8) ==> r is Err && *final(self) == *old(self) && *final(target) == *old(
                target,
            ),
    {
        proof {
            assert(<ByteBuff as ByteReader<usize>>::can_read(&*old(self), *old(target)));
        }
        let mut size: u64 = 0;
        match self.read(&mut size) {
            Ok(()) => {
                *target = size as usize;
                Ok(())
            },
            Err(e) => Err(e),
        }
    }
}

/// A request to read `expect_size` bytes into `data`.
pub struct ByteArrayRead {
    pub data: Vec<u8>,
    pub expect_size: u32,
}

impl ByteReader<ByteArrayRead> for ByteBuff {
    open spec fn can_read(&self, target: ByteArrayRead) -> bool {
        self.position <= self.buff.len()
    }

    fn read(&mut self, target: &mut ByteArrayRead) -> (r: Result<(), String>)
        ensures
            old(self).has(old(target).expect_size as int) ==> r is Ok && final(target).data@ == old(
                self,
            ).ahead(old(target).expect_size as int) && final(target).expect_size == old(
                target,
            ).expect_size && final(self).skipped(*old(self), old(target).expect_size as int),
            !old(self).has(old(target).expect_size as int) ==> r is Err && *final(self) == *old(self)
                && *final(target) == *old(target),
    {
        proof {
            assert(<ByteBuff as ByteReader<ByteArrayRead>>::can_read(&*old(self), *old(target)));
        }
        match self.take_ahead(target.expect_size as usize) {
            Some(b) => {
                target.data = b;
                Ok(())
            },
            None => Err(String::from_str("no data")),
        }
    }
}

} // verus!
