use vstd::prelude::*;
use crate::bbuff::streambuff::{ByteBuff, ByteReader, ByteWriter};
use vstd::bytes::*;

verus! {

/// The number of a block within one log file; numbers grow by one from 0.
#[derive(Copy, Clone, Debug, Default, PartialEq, Eq, PartialOrd, Ord, Hash)]
pub struct BlockId(pub u32);

impl BlockId {
    pub fn new(value: u32) -> (r: Self)
        ensures
            r.0 == value,
    {
        BlockId(value)
    }

    pub fn value(self) -> (r: u32)
        ensures
            r == self.0,
    {
        self.0
    }

    /// The text `BlockId(n)`.
    pub fn to_string(self) -> (r: String)
        ensures
            r@ == seq!['B', 'l', 'o', 'c', 'k', 'I', 'd', '('] + crate::text::spec_decimal(
                self.0 as nat,
            ) + seq![')'],
    {
        proof {
            reveal_strlit("BlockId(");
        }
        crate::text::wrap_decimal("BlockId(", self.0 as u128)
    }
}

/// The kind of data a block holds.
#[derive(Copy, Clone, Debug, Default, PartialEq, Eq, Hash)]
pub struct DataId(pub u32);

impl DataId {
    pub fn new(value: u32) -> (r: Self)
        ensures
            r.0 == value,
    {
        DataId(value)
    }

    pub fn value(self) -> (r: u32)
        ensures
            r == self.0,
    {
        self.0
    }

    /// The kind of blocks that hold a user's records.
    pub fn user_data() -> (r: Self)
        ensures
            r.0 == 1024,
    {
        Self::new(1024)
    }
}

/// A distance in bytes from the start of a file.
#[derive(Copy, Clone, Debug, Default, PartialEq, PartialOrd)]
pub struct FileOffset(pub u64);

impl FileOffset {
    pub fn new(value: u64) -> (r: Self)
        ensures
            r.0 == value,
    {
        FileOffset(value)
    }

    pub fn value(self) -> (r: u64)
        ensures
            r == self.0,
    {
        self.0
    }

    /// The text `FileOffset(n)`.
    pub fn to_string(self) -> (r: String)
        ensures
            r@ == seq!['F', 'i', 'l', 'e', 'O', 'f', 'f', 's', 'e', 't', '('] + crate::text::spec_decimal(
                self.0 as nat,
            ) + seq![')'],
    {
        proof {
            reveal_strlit("FileOffset(");
        }
        crate::text::wrap_decimal("FileOffset(", self.0 as u128)
    }
}

impl ByteWriter<BlockId> for ByteBuff {
    open spec fn can_write(&self, v: BlockId) -> bool {
        self.writable(4)
    }

    fn write(&mut self, v: BlockId)
        ensures
            final(self).wrote(*old(self), spec_u32_to_le_bytes(v.0)),
    {
        proof {
            assert(<ByteBuff as ByteWriter<BlockId>>::can_write(&*old(self), v));
        }
        self.write(v.0)
    }
}

impl ByteReader<BlockId> for ByteBuff {
    open spec fn can_read(&self, target: BlockId) -> bool {
        self.position <= self.buff.len()
    }

    fn read(&mut self, target: &mut BlockId) -> (r: Result<(), String>)
        ensures
            old(self).has(4) ==> r is Ok && final(target).0 == spec_u32_from_le_bytes(
                old(self).ahead(4),
            ) && final(self).skipped(*old(self), 4),
            !old(self).has(4) ==> r is Err && *final(self) == *old(self) && *final(target) == *old(
                target,
            ),
    {
        proof {
            assert(<ByteBuff as ByteReader<BlockId>>::can_read(&*old(self), *old(target)));
        }
        self.read(&mut target.0)
    }
}

impl ByteWriter<DataId> for ByteBuff {
    open spec fn can_write(&self, v: DataId) -> bool {
        self.writable(4)
    }

    fn write(&mut self, v: DataId)
        ensures
            final(self).wrote(*old(self), spec_u32_to_le_bytes(v.0)),
    {
        proof {
            assert(<ByteBuff as ByteWriter<DataId>>::can_write(&*old(self), v));
        }
        self.write(v.0)
    }
}

impl ByteReader<DataId> for ByteBuff {
    open spec fn can_read(&self, target: DataId) -> bool {
        self.position <= self.buff.len()
    }

    fn read(&mut self, target: &mut DataId) -> (r: Result<(), String>)
        ensures
            old(self).has(4) ==> r is Ok && final(target).0 == spec_u32_from_le_bytes(
                old(self).ahead(4),
            ) && final(self).skipped(*old(self), 4),
            !old(self).has(4) ==> r is Err && *final(self) == *old(self) && *final(target) == *old(
                target,
            ),
    {
        proof {
            assert(<ByteBuff as ByteReader<DataId>>::can_read(&*old(self), *old(target)));
        }
        self.read(&mut target.0)
    }
}

impl ByteWriter<FileOffset> for ByteBuff {
    open spec fn can_write(&self, v: FileOffset) -> bool {
        self.writable(8)
    }

    fn write(&mut self, v: FileOffset)
        ensures
            final(self).wrote(*old(self), spec_u64_to_le_bytes(v.0)),
    {
        proof {
            assert(<ByteBuff as ByteWriter<FileOffset>>::can_write(&*old(self), v));
        }
        self.write(v.0)
    }
}

impl ByteReader<FileOffset> for ByteBuff {
    open spec fn can_read(&self, target: FileOffset) -> bool {
        self.position <= self.buff.len()
    }

    fn read(&mut self, target: &mut FileOffset) -> (r: Result<(), String>)
        ensures
            old(self).has(8) ==> r is Ok && final(target).0 == spec_u64_from_le_bytes(
                old(self).ahead(8),
            ) && final(self).skipped(*old(self), 8),
            !old(self).has(8) ==> r is Err && *final(self) == *old(self) && *final(target) == *old(
                target,
            ),
    {
        proof {
            assert(<ByteBuff as ByteReader<FileOffset>>::can_read(&*old(self), *old(target)));
        }
        self.read(&mut target.0)
    }
}

} // verus!
