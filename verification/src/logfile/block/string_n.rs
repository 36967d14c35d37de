use vstd::prelude::*;
use vstd::bytes::*;
use vstd::string::StringExecFns;
use vstd::utf8::{encode_utf8, decode_utf8, valid_utf8, encode_utf8_valid_utf8, encode_utf8_decode_utf8};
use crate::bbuff::streambuff::{ByteBuff, ByteReader, ByteWriter, ByteArrayRead, spec_overwrite, lemma_overwrite_concat};
use super::err::BlockErr;

verus! {

/// The string of UTF-8 bytes (`String::from_utf8`), or `None` where the
/// bytes are not UTF-8.
#[verifier::external_body]
pub(crate) fn string_from_utf8(bytes: Vec<u8>) -> (r: Option<String>)
    ensures
        r matches Some(s) ==> valid_utf8(bytes@) && s@ == decode_utf8(bytes@),
        r is None ==> !valid_utf8(bytes@),
{
    String::from_utf8(bytes).ok()
}

/// The size in bytes of the UTF-8 text of `s`.
pub open spec fn spec_utf8_len(s: Seq<char>) -> nat {
    encode_utf8(s).len()
}

/// A character takes at most four bytes in UTF-8.
pub proof fn lemma_utf8_len_bound(s: Seq<char>)
    ensures
        spec_utf8_len(s) <= 4 * s.len(),
    decreases s.len(),
{
    if s.len() > 0 {
        lemma_utf8_len_bound(s.drop_first());
        assert(vstd::utf8::encode_scalar(s[0] as u32).len() <= 4);
    }
}

/// A string stored with a 16-bit size: its key form is the size in two
/// little-endian bytes, then the UTF-8 bytes.
pub open spec fn spec_encode_str16(s: Seq<char>) -> Seq<u8> {
    spec_u16_to_le_bytes(spec_utf8_len(s) as u16) + encode_utf8(s)
}

/// A string stored with a 32-bit size.
pub open spec fn spec_encode_str32(s: Seq<char>) -> Seq<u8> {
    spec_u32_to_le_bytes(spec_utf8_len(s) as u32) + encode_utf8(s)
}

/// The string stored with a 16-bit size at `pos` of `b`, and how many bytes
/// it takes.
pub open spec fn spec_decode_str16(b: Seq<u8>, pos: int) -> Option<(Seq<char>, int)> {
    if pos + 2 > b.len() {
        None
    } else {
        let n = spec_u16_from_le_bytes(b.subrange(pos, pos + 2)) as int;
        if pos + 2 + n > b.len() {
            None
        } else {
            let bytes = b.subrange(pos + 2, pos + 2 + n);
            if valid_utf8(bytes) {
                Some((decode_utf8(bytes), 2 + n))
            } else {
                None
            }
        }
    }
}

/// The string stored with a 32-bit size at `pos` of `b`, and how many bytes
/// it takes.
pub open spec fn spec_decode_str32(b: Seq<u8>, pos: int) -> Option<(Seq<char>, int)> {
    if pos + 4 > b.len() {
        None
    } else {
        let n = spec_u32_from_le_bytes(b.subrange(pos, pos + 4)) as int;
        if pos + 4 + n > b.len() {
            None
        } else {
            let bytes = b.subrange(pos + 4, pos + 4 + n);
            if valid_utf8(bytes) {
                Some((decode_utf8(bytes), 4 + n))
            } else {
                None
            }
        }
    }
}

/// A string stored with a 16-bit size reads back from where it was stored.
pub proof fn lemma_str16_round_trip(s: Seq<char>, b: Seq<u8>, pos: int)
    requires
        spec_utf8_len(s) <= u16::MAX,
        0 <= pos,
        pos + spec_encode_str16(s).len() <= b.len(),
        b.subrange(pos, pos + spec_encode_str16(s).len()) == spec_encode_str16(s),
    ensures
        spec_decode_str16(b, pos) == Some((s, spec_encode_str16(s).len() as int)),
{
    lemma_auto_spec_u16_to_from_le_bytes();
    encode_utf8_valid_utf8(s);
    encode_utf8_decode_utf8(s);
    let e = spec_encode_str16(s);
    let n = spec_utf8_len(s) as int;
    assert(b.subrange(pos, pos + 2) =~= e.subrange(0, 2));
    assert(e.subrange(0, 2) =~= spec_u16_to_le_bytes(n as u16));
    assert(b.subrange(pos + 2, pos + 2 + n) =~= e.subrange(2, 2 + n));
    assert(e.subrange(2, 2 + n) =~= encode_utf8(s));
}

/// A string stored with a 32-bit size reads back from where it was stored.
pub proof fn lemma_str32_round_trip(s: Seq<char>, b: Seq<u8>, pos: int)
    requires
        spec_utf8_len(s) <= u32::MAX,
        0 <= pos,
        pos + spec_encode_str32(s).len() <= b.len(),
        b.subrange(pos, pos + spec_encode_str32(s).len()) == spec_encode_str32(s),
    ensures
        spec_decode_str32(b, pos) == Some((s, spec_encode_str32(s).len() as int)),
{
    lemma_auto_spec_u32_to_from_le_bytes();
    encode_utf8_valid_utf8(s);
    encode_utf8_decode_utf8(s);
    let e = spec_encode_str32(s);
    let n = spec_utf8_len(s) as int;
    assert(b.subrange(pos, pos + 4) =~= e.subrange(0, 4));
    assert(e.subrange(0, 4) =~= spec_u32_to_le_bytes(n as u32));
    assert(b.subrange(pos + 4, pos + 4 + n) =~= e.subrange(4, 4 + n));
    assert(e.subrange(4, 4 + n) =~= encode_utf8(s));
}

/// A string of at most 4 GiB of UTF-8 bytes.
#[derive(Debug, PartialEq, Hash, Eq)]
pub struct String32(String);

/// A string of at most 64 KiB of UTF-8 bytes.
#[derive(Debug, PartialEq, Hash, Eq)]
pub struct String16(String);

impl View for String32 {
    type V = Seq<char>;

    closed spec fn view(&self) -> Seq<char> {
        self.0@
    }
}

impl View for String16 {
    type V = Seq<char>;

    closed spec fn view(&self) -> Seq<char> {
        self.0@
    }
}

impl String32 {
    #[verifier::type_invariant]
    closed spec fn fits(&self) -> bool {
        spec_utf8_len(self.0@) <= u32::MAX
    }

    /// The text; its UTF-8 bytes fit in a 32-bit size.
    pub fn value(&self) -> (r: &str)
        ensures
            r@ == self@,
            spec_utf8_len(self@) <= u32::MAX,
    {
        proof {
            use_type_invariant(self);
        }
        self.0.as_str()
    }

    /// The same string.
    pub fn copy(&self) -> (r: Self)
        ensures
            r@ == self@,
    {
        proof {
            use_type_invariant(self);
        }
        String32(String::from_str(self.0.as_str()))
    }

    /// The string, where its UTF-8 text fits in 4 GiB.
    pub fn try_from(value: &str) -> (r: Result<Self, BlockErr>)
        ensures
            r is Ok <==> spec_utf8_len(value@) <= u32::MAX,
            r matches Ok(s) ==> s@ == value@,
            r matches Err(e) ==> e matches BlockErr::Limit { limit, target, message } && limit
                == u32::MAX && target == spec_utf8_len(value@) && message@ == "can't store string more 4gb"@,
    {
        proof {
            reveal_strlit("can't store string more 4gb");
        }
        let bytes_size = value.as_bytes().len();
        if bytes_size > 0xffff_ffffusize {
            Err(BlockErr::Limit {
                message: String::from_str("can't store string more 4gb"),
                limit: 0xffff_ffffu64,
                target: bytes_size as u64,
            })
        } else {
            Ok(String32(String::from_str(value)))
        }
    }
}

impl Clone for String32 {
    fn clone(&self) -> (r: Self)
        ensures
            r@ == self@,
    {
        self.copy()
    }
}

impl Default for String32 {
    fn default() -> (r: Self)
        ensures
            r@ == Seq::<char>::empty(),
    {
        proof {
            reveal_strlit("");
            assert(encode_utf8(Seq::<char>::empty()) =~= Seq::<u8>::empty());
        }
        String32(String::from_str(""))
    }
}

impl String16 {
    #[verifier::type_invariant]
    closed spec fn fits(&self) -> bool {
        spec_utf8_len(self.0@) <= u16::MAX
    }

    /// The text; its UTF-8 bytes fit in a 16-bit size.
    pub fn value(&self) -> (r: &str)
        ensures
            r@ == self@,
            spec_utf8_len(self@) <= u16::MAX,
    {
        proof {
            use_type_invariant(self);
        }
        self.0.as_str()
    }

    /// The same string.
    pub fn copy(&self) -> (r: Self)
        ensures
            r@ == self@,
    {
        proof {
            use_type_invariant(self);
        }
        String16(String::from_str(self.0.as_str()))
    }

    /// The string, where its UTF-8 text fits in 64 KiB.
    pub fn try_from(value: &str) -> (r: Result<Self, BlockErr>)
        ensures
            r is Ok <==> spec_utf8_len(value@) <= u16::MAX,
            r matches Ok(s) ==> s@ == value@,
            r matches Err(e) ==> e matches BlockErr::Limit { limit, target, message } && limit
                == u16::MAX && target == spec_utf8_len(value@) && message@ == "can't store string more 64kb"@,
    {
        proof {
            reveal_strlit("can't store string more 64kb");
        }
        let bytes_size = value.as_bytes().len();
        if bytes_size > 0xffffusize {
            Err(BlockErr::Limit {
                message: String::from_str("can't store string more 64kb"),
                limit: 0xffffu64,
                target: bytes_size as u64,
            })
        } else {
            Ok(String16(String::from_str(value)))
        }
    }
}

impl Clone for String16 {
    fn clone(&self) -> (r: Self)
        ensures
            r@ == self@,
    {
        self.copy()
    }
}

impl Default for String16 {
    fn default() -> (r: Self)
        ensures
            r@ == Seq::<char>::empty(),
    {
        proof {
            reveal_strlit("");
            assert(encode_utf8(Seq::<char>::empty()) =~= Seq::<u8>::empty());
        }
        String16(String::from_str(""))
    }
}

impl ByteWriter<String32> for ByteBuff {
    open spec fn can_write(&self, v: String32) -> bool {
        self.writable(4 + spec_utf8_len(v@) as int)
    }

    fn write(&mut self, v: String32)
        ensures
            final(self).wrote(*old(self), spec_encode_str32(v@)),
    {
        proof {
            assert(<ByteBuff as ByteWriter<String32>>::can_write(&*old(self), v));
        }
        proof {
            use_type_invariant(&v);
        }
        let s = v.value();
        let bytes = s.as_bytes();
        let ghost b0 = *self;
        self.write(bytes.len() as u32);
        proof {
            crate::bbuff::streambuff::lemma_overwrite_reads_back(b0.buff@, b0.position as int, spec_u32_to_le_bytes(bytes.len() as u32));
            lemma_auto_spec_u32_to_from_le_bytes();
        }
        self.write(bytes);
        proof {
            lemma_overwrite_concat(b0.buff@, b0.position as int, spec_u32_to_le_bytes(bytes.len() as u32), bytes@);
            lemma_auto_spec_u32_to_from_le_bytes();
        }
    }
}

impl ByteWriter<String16> for ByteBuff {
    open spec fn can_write(&self, v: String16) -> bool {
        self.writable(2 + spec_utf8_len(v@) as int)
    }

    fn write(&mut self, v: String16)
        ensures
            final(self).wrote(*old(self), spec_encode_str16(v@)),
    {
        proof {
            assert(<ByteBuff as ByteWriter<String16>>::can_write(&*old(self), v));
        }
        proof {
            use_type_invariant(&v);
        }
        let s = v.value();
        let bytes = s.as_bytes();
        let ghost b0 = *self;
        self.write(bytes.len() as u16);
        proof {
            crate::bbuff::streambuff::lemma_overwrite_reads_back(b0.buff@, b0.position as int, spec_u16_to_le_bytes(bytes.len() as u16));
            lemma_auto_spec_u16_to_from_le_bytes();
        }
        self.write(bytes);
        proof {
            lemma_overwrite_concat(b0.buff@, b0.position as int, spec_u16_to_le_bytes(bytes.len() as u16), bytes@);
            lemma_auto_spec_u16_to_from_le_bytes();
        }
    }
}

impl ByteReader<String32> for ByteBuff {
    open spec fn can_read(&self, target: String32) -> bool {
        self.position <= self.buff.len()
    }

    fn read(&mut self, target: &mut String32) -> (r: Result<(), String>)
        ensures
            final(self).buff@ == old(self).buff@,
            final(self).position <= final(self).buff.len(),
            match spec_decode_str32(old(self).buff@, old(self).position as int) {
                Some((s, n)) => r is Ok && final(target)@ == s && final(self).position == old(
                    self,
                ).position + n,
                None => r is Err,
            },
    {
        proof {
            assert(<ByteBuff as ByteReader<String32>>::can_read(&*old(self), *old(target)));
        }
        let mut size: u32 = 0;
        match self.read(&mut size) {
            Ok(()) => {},
            Err(e) => return Err(e),
        }
        let mut bytes = ByteArrayRead { data: Vec::new(), expect_size: size };
        match self.read(&mut bytes) {
            Ok(()) => {},
            Err(e) => return Err(e),
        }
        match string_from_utf8(bytes.data) {
            Some(s) => {
                proof {
                    vstd::utf8::decode_utf8_encode_utf8(bytes.data@);
                }
                *target = String32(s);
                Ok(())
            },
            None => Err(String::from_str("invalid utf-8")),
        }
    }
}

impl ByteReader<String16> for ByteBuff {
    open spec fn can_read(&self, target: String16) -> bool {
        self.position <= self.buff.len()
    }

    fn read(&mut self, target: &mut String16) -> (r: Result<(), String>)
        ensures
            final(self).buff@ == old(self).buff@,
            final(self).position <= final(self).buff.len(),
            match spec_decode_str16(old(self).buff@, old(self).position as int) {
                Some((s, n)) => r is Ok && final(target)@ == s && final(self).position == old(
                    self,
                ).position + n,
                None => r is Err,
            },
    {
        proof {
            assert(<ByteBuff as ByteReader<String16>>::can_read(&*old(self), *old(target)));
        }
        let mut size: u16 = 0;
        match self.read(&mut size) {
            Ok(()) => {},
            Err(e) => return Err(e),
        }
        let mut bytes = ByteArrayRead { data: Vec::new(), expect_size: size as u32 };
        match self.read(&mut bytes) {
            Ok(()) => {},
            Err(e) => return Err(e),
        }
        match string_from_utf8(bytes.data) {
            Some(s) => {
                proof {
                    vstd::utf8::decode_utf8_encode_utf8(bytes.data@);
                }
                *target = String16(s);
                Ok(())
            },
            None => Err(String::from_str("invalid utf-8")),
        }
    }
}

} // verus!
