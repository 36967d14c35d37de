use vstd::prelude::*;
use crate::bbuff::streambuff::spec_overwrite;

verus! {

/// What goes wrong in a flat buffer.
#[derive(Debug, Clone)]
pub enum ABuffError {
    /// The contents would outgrow the buffer's limit.
    LimitExceeded { limit: u64, target: u64 },
    /// The store underneath failed.
    Io(String),
}

/// How many bytes a read of `want` bytes from `pos` gets out of `len`.
pub open spec fn spec_read_count(len: nat, pos: int, want: nat) -> nat {
    if pos >= len {
        0
    } else if want <= len - pos {
        want
    } else {
        (len - pos) as nat
    }
}

/// `b` after `d` is written at `pos`: zeros fill any gap before `pos`.
pub open spec fn spec_write_at(b: Seq<u8>, pos: int, d: Seq<u8>) -> Seq<u8> {
    if pos <= b.len() {
        spec_overwrite(b, pos, d)
    } else {
        b + Seq::new((pos - b.len()) as nat, |i: int| 0u8) + d
    }
}

/// After a write at `pos` the written bytes stand there, and the bytes
/// before `pos` are kept.
pub proof fn lemma_write_at_reads_back(b: Seq<u8>, pos: int, d: Seq<u8>)
    requires
        0 <= pos,
    ensures
        spec_write_at(b, pos, d).len() == if pos + d.len() <= b.len() { b.len() as int } else { pos + d.len() },
        spec_write_at(b, pos, d).subrange(pos, pos + d.len()) == d,
        forall|i: int| 0 <= i < pos && i < b.len() ==> #[trigger] spec_write_at(b, pos, d)[i] == b[i],
{
    let w = spec_write_at(b, pos, d);
    if pos <= b.len() {
        assert(w.subrange(pos, pos + d.len()) =~= d);
    } else {
        assert(w.subrange(pos, pos + d.len()) =~= d);
    }
}

/// `b` cut or grown with zeros to `n` bytes.
pub open spec fn spec_resized(b: Seq<u8>, n: nat) -> Seq<u8> {
    if n <= b.len() {
        b.take(n as int)
    } else {
        b + Seq::new((n - b.len()) as nat, |i: int| 0u8)
    }
}

/// The size of a flat buffer.
pub trait BytesCount {
    /// The bytes the buffer holds.
    spec fn flat(&self) -> Seq<u8>;

    /// The buffer does not fail on its own: counting and reading its bytes
    /// succeed, and so do writes and resizes while the bytes fit in memory
    /// (`usize`).
    spec fn reliable(&self) -> bool;

    fn bytes_count(&self) -> (r: Result<u64, ABuffError>)
        ensures
            r matches Ok(n) ==> n == self.flat().len(),
            self.reliable() ==> r is Ok,
    ;
}

/// Reading of bytes at an absolute position.
pub trait ReadBytesFrom: BytesCount {
    /// Fills `data` from `pos` on, as far as the buffer reaches, and returns
    /// how many bytes were read.
    fn read_from(&self, pos: u64, data: &mut [u8]) -> (r: Result<u64, ABuffError>)
        ensures
            final(data)@.len() == old(data)@.len(),
            r matches Ok(n) ==> n == spec_read_count(self.flat().len(), pos as int, old(data)@.len()),
            r matches Ok(n) ==> forall|k: int| 0 <= k < n ==> #[trigger] final(data)@[k] == self.flat()[pos + k],
            r matches Ok(n) ==> forall|k: int| n <= k < old(data)@.len() ==> #[trigger] final(data)@[k] == old(data)@[k],
            self.reliable() ==> r is Ok,
    ;
}

/// Writing of bytes at an absolute position.
pub trait WriteBytesTo: BytesCount {
    fn write_to(&mut self, pos: u64, data: &[u8]) -> (r: Result<(), ABuffError>)
        ensures
            r is Ok ==> final(self).flat() == spec_write_at(old(self).flat(), pos as int, data@),
            r is Err ==> final(self).flat() == old(self).flat(),
            final(self).reliable() == old(self).reliable(),
            old(self).reliable() && old(self).flat().len() <= usize::MAX && pos + data@.len() <= usize::MAX ==> r is Ok,
    ;
}

/// Changing the size of a flat buffer.
pub trait ResizeBytes: BytesCount {
    fn resize_bytes(&mut self, new_size: u64) -> (r: Result<(), ABuffError>)
        ensures
            r is Ok ==> final(self).flat() == spec_resized(old(self).flat(), new_size as nat),
            r is Err ==> final(self).flat() == old(self).flat(),
            final(self).reliable() == old(self).reliable(),
            old(self).reliable() && new_size <= usize::MAX ==> r is Ok,
    ;
}

/// A flat buffer in memory.
#[derive(Debug, Clone)]
pub struct ByteBuff {
    data: Vec<u8>,
    max_size: Option<u64>,
}

impl ByteBuff {
    /// The largest size the buffer may grow to, if any.
    pub closed spec fn limit(&self) -> Option<u64> {
        self.max_size
    }

    /// An empty buffer that may grow as far as memory allows.
    pub fn new_empty_unlimited() -> (r: Self)
        ensures
            r.flat() == Seq::<u8>::empty(),
            r.limit() is None,
            r.reliable(),
    {
        ByteBuff { data: Vec::new(), max_size: None }
    }

    /// An empty buffer that may grow up to `max_size` bytes.
    pub fn new_empty(max_size: u64) -> (r: Self)
        ensures
            r.flat() == Seq::<u8>::empty(),
            r.limit() == Some(max_size),
            !r.reliable(),
    {
        ByteBuff { data: Vec::new(), max_size: Some(max_size) }
    }

    /// The bytes held.
    pub fn to_vec(&self) -> (r: Vec<u8>)
        ensures
            r@ == self.flat(),
    {
        self.data.clone()
    }

    /// Whether the buffer may hold `n` bytes.
    fn fits(&self, n: u64) -> (r: Result<(), ABuffError>)
        ensures
            r is Ok <==> n <= usize::MAX && (self.max_size matches Some(m) ==> n <= m),
    {
        match self.max_size {
            Some(m) => {
                if n > m {
                    return Err(ABuffError::LimitExceeded { limit: m, target: n });
                }
            },
            None => {},
        }
        if n > usize::MAX as u64 {
            return Err(ABuffError::LimitExceeded { limit: usize::MAX as u64, target: n });
        }
        Ok(())
    }
}

impl BytesCount for ByteBuff {
    closed spec fn flat(&self) -> Seq<u8> {
        self.data@
    }

    /// An in-memory buffer fails only at its limit: one without a limit is
    /// reliable.
    closed spec fn reliable(&self) -> bool {
        self.max_size is None
    }

    fn bytes_count(&self) -> (r: Result<u64, ABuffError>)
        ensures
            r == Ok::<u64, ABuffError>(self.flat().len() as u64),
    {
        Ok(self.data.len() as u64)
    }
}

impl ReadBytesFrom for ByteBuff {
    fn read_from(&self, pos: u64, data: &mut [u8]) -> (r: Result<u64, ABuffError>)
        ensures
            r is Ok,
    {
        let len = self.data.len() as u64;
        if pos >= len {
            return Ok(0);
        }
        let avail = len - pos;
        let n: u64 = if (data.len() as u64) <= avail { data.len() as u64 } else { avail };
        let start = pos as usize;
        let mut i: usize = 0;
        while i < n as usize
            invariant
                n <= data@.len(),
                pos + n <= self.data@.len(),
                start == pos,
                start + n <= self.data.len(),
                i <= n,
                data@.len() == old(data)@.len(),
                forall|k: int| 0 <= k < i ==> data@[k] == self.data@[start + k],
                forall|k: int| i <= k < data@.len() ==> data@[k] == old(data)@[k],
            decreases n - i,
        {
            data[i] = self.data[start + i];
            i = i + 1;
        }
        Ok(n)
    }
}

impl WriteBytesTo for ByteBuff {
    fn write_to(&mut self, pos: u64, data: &[u8]) -> (r: Result<(), ABuffError>)
        ensures
            r is Ok <==> {
                let end = if pos + data@.len() <= old(self).flat().len() {
                    old(self).flat().len() as int
                } else {
                    pos + data@.len()
                };
                end <= usize::MAX && (old(self).limit() matches Some(m) ==> end <= m)
            },
            final(self).limit() == old(self).limit(),
    {
        let len = self.data.len() as u64;
        if pos > u64::MAX - data.len() as u64 {
            return Err(ABuffError::LimitExceeded { limit: u64::MAX, target: u64::MAX });
        }
        let end = pos + data.len() as u64;
        let target = if end <= len { len } else { end };
        match self.fits(target) {
            Ok(()) => {},
            Err(e) => return Err(e),
        }
        let ghost before = self.data@;
        while (self.data.len() as u64) < pos
            invariant
                self.data@ == before + Seq::new((self.data@.len() - before.len()) as nat, |i: int| 0u8),
                self.data@.len() >= before.len(),
                self.data@.len() <= (if pos > before.len() { pos as int } else { before.len() as int }),
                pos <= target <= usize::MAX,
                self.max_size == old(self).max_size,
            decreases pos - self.data.len(),
        {
            let ghost prev = self.data@;
            self.data.push(0u8);
            proof {
                assert(self.data@ =~= before + Seq::new((self.data@.len() - before.len()) as nat, |i: int| 0u8));
            }
        }
        let ghost padded = self.data@;
        proof {
            if pos <= before.len() {
                assert(padded =~= before);
            } else {
                assert(padded.len() == pos);
            }
        }
        let p = pos as usize;
        let mut i: usize = 0;
        while i < data.len()
            invariant
                p == pos,
                p <= padded.len(),
                p + data@.len() <= usize::MAX,
                i <= data@.len(),
                self.data@ == spec_overwrite(padded, p as int, data@.take(i as int)),
                self.max_size == old(self).max_size,
            decreases data@.len() - i,
        {
            if p + i < self.data.len() {
                self.data.set(p + i, data[i]);
            } else {
                self.data.push(data[i]);
            }
            proof {
                let d1 = data@.take(i + 1);
                assert(d1 == data@.take(i as int).push(data@[i as int]));
                assert(self.data@ =~= spec_overwrite(padded, p as int, d1));
            }
            i = i + 1;
        }
        proof {
            assert(data@.take(data@.len() as int) =~= data@);
            if pos > before.len() {
                assert(spec_overwrite(padded, pos as int, data@) =~= before + Seq::new(
                    (pos - before.len()) as nat,
                    |i: int| 0u8,
                ) + data@);
            }
        }
        Ok(())
    }
}

impl ResizeBytes for ByteBuff {
    fn resize_bytes(&mut self, new_size: u64) -> (r: Result<(), ABuffError>)
        ensures
            r is Ok <==> new_size <= usize::MAX && (old(self).limit() matches Some(m) ==> new_size
                <= m),
            final(self).limit() == old(self).limit(),
    {
        match self.fits(new_size) {
            Ok(()) => {},
            Err(e) => return Err(e),
        }
        self.data.resize(new_size as usize, 0u8);
        proof {
            assert(self.data@ =~= spec_resized(old(self).data@, new_size as nat));
        }
        Ok(())
    }
}

} // verus!
