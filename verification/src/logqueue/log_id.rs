use vstd::prelude::*;
use vstd::string::StringExecFns;
use crate::logfile::{FlatBuff, LogErr, LogFile};
use crate::logfile::block::{Block, BlockErr, BlockId, BlockOptions, String32};
use crate::logfile::block::blockopts::{lemma_get_after_set, OptionsView, spec_get_option, spec_set_option};
use crate::logfile::block::string_n::spec_utf8_len;
use crate::text::{spec_decimal, spec_decimal_digits, spec_digits_value, u128_to_decimal, parse_u128};
use super::err::LoqErr;

verus! {

/// The option key of a log's own number.
pub const LOG_FILE_ID_KEY: &'static str = "log_file_id";

/// The option key of the number of the log before.
pub const LOG_FILE_ID_PREV_KEY: &'static str = "log_file_id_prev";

/// The option key of the kind of identity.
pub const LOG_FILE_ID_TYPE_KEY: &'static str = "log_file_id_type";

/// The kind of identity made of numbers.
pub const LOG_FILE_NUM_TYPE: &'static str = "LogQueueFileNumID";

/// What goes wrong when an identity is put in a block or read from one.
#[derive(Debug, Clone)]
pub enum LogIdReadWriteErr {
    BlockErr(BlockErr),
    ValueAlreadyDefined(String32),
    ValueNotFound,
    TypeValueAlreadyDefined(String32),
    TypeValueNotMatched { expect: String32, actual: String32 },
    TypeValueNotFound,
    PrevValueAlreadyDefined(String32),
    IdParseError(String),
}

/// Putting an identity into the options and data of a block.
pub trait BlockWriter {
    /// `r` is what putting this identity into `options` and `data` may give,
    /// `new_options` and `new_data` what it leaves there.
    spec fn writes(
        &self,
        options: BlockOptions,
        data: Vec<u8>,
        r: Result<(), LogIdReadWriteErr>,
        new_options: BlockOptions,
        new_data: Vec<u8>,
    ) -> bool;

    fn block_write(&self, options: &mut BlockOptions, data: &mut Vec<u8>) -> (r: Result<(), LogIdReadWriteErr>)
        ensures
            self.writes(*old(options), *old(data), r, *final(options), *final(data)),
    ;
}

/// Reading the identity from block 0 of `log` gives `id`.
pub open spec fn spec_holds_id<LogId: BlockReader, B: FlatBuff>(id: LogId, log: LogFile<B>) -> bool {
    exists|b: Block| #[trigger] log.read_gives(0, b) && LogId::reads(b, Ok(id))
}

/// The first block of `log` is block 0 and holds what putting `id` into
/// empty options and data leaves there: those options, and as many bytes.
pub open spec fn spec_holds_written<LogId: BlockWriter, B: FlatBuff>(id: LogId, log: LogFile<B>) -> bool {
    &&& log.last().len() > 0
    &&& log.last()[0].head.block_id == 0
    &&& exists|o0: BlockOptions, d0: Vec<u8>, r: Result<(), LogIdReadWriteErr>, o: BlockOptions, d: Vec<u8>|
        #[trigger] id.writes(o0, d0, r, o, d) && r is Ok && o0@ == Seq::<(Seq<char>, Seq<char>)>::empty() && d0@ == Seq::<
            u8,
        >::empty() && log.last()[0].head.options == o@ && log.last()[0].data_size == d@.len()
}

/// `r` is what reading the identity of `log`, the log of `file`, may give:
/// the identity block 0 holds; where the log is empty or its block 0 cannot
/// be read, [LoqErr::CantReadLogId]; where that block holds no identity,
/// [LoqErr::CantParseLogId]; the errors name a clone of `file`.
pub open spec fn spec_id_read<LogId: BlockReader, FILE: Clone, B: FlatBuff>(
    file: FILE,
    log: LogFile<B>,
    r: Result<LogId, LoqErr<FILE, LogId>>,
) -> bool {
    &&& r is Err ==> (r matches Err(LoqErr::CantReadLogId { .. }) || r matches Err(LoqErr::CantParseLogId { .. }))
    &&& (log.last().len() == 0 <==> (r matches Err(LoqErr::CantReadLogId { error: LogErr::LogIsEmpty, .. })))
    &&& r matches Ok(id) ==> spec_holds_id(id, log)
    &&& r matches Err(LoqErr::CantParseLogId { error, .. }) ==> exists|b: Block|
        #[trigger] log.read_gives(0, b) && LogId::reads(b, Err(error))
    &&& r matches Err(LoqErr::CantReadLogId { file: f, .. }) ==> cloned(file, f)
    &&& r matches Err(LoqErr::CantParseLogId { file: f, .. }) ==> cloned(file, f)
}

/// Reading an identity from a block.
pub trait BlockReader: Sized {
    /// `r` is what reading an identity from `block` may give.
    spec fn reads(block: Block, r: Result<Self, LogIdReadWriteErr>) -> bool;

    fn block_read(block: &Block) -> (r: Result<Self, LogIdReadWriteErr>)
        ensures
            Self::reads(*block, r),
    ;
}

/// The identity of a log file of a queue: its number, and the number of
/// the file before it.
pub trait LogQueueFileId: Sized + Copy + BlockReader + BlockWriter {
    /// Its number, as [id](Self::id) gives it.
    spec fn spec_id(&self) -> u128;

    /// The number of the file before, as [previous](Self::previous) gives it.
    spec fn spec_previous(&self) -> Option<u128>;

    /// Its number.
    fn id(&self) -> (r: u128)
        ensures
            r == self.spec_id(),
    ;

    /// The number of the file before, if any.
    fn previous(&self) -> (r: Option<u128>)
        ensures
            r == self.spec_previous(),
    ;

    /// The identity that [new](Self::new) makes.
    spec fn spec_new(prev: Option<u128>) -> Self;

    /// A new identity, following `prev` where given.
    fn new(prev: Option<u128>) -> (r: Self)
        requires
            prev matches Some(p) ==> p < u128::MAX,
        ensures
            r == Self::spec_new(prev),
    ;

    /// Reads the identity of a log from its first block.
    fn read<FILE: Clone, B: FlatBuff>(filename: &FILE, log: &LogFile<B>) -> (r: Result<Self, LoqErr<FILE, Self>>)
        ensures
            spec_id_read(*filename, *log, r),
    {
        let block = match log.read_block(BlockId::new(0)) {
            Ok(b) => b,
            Err(error) => return Err(
                LoqErr::CantReadLogId { file: filename.clone(), error, log_id_type: String::from_str("LogQueueFileId") },
            ),
        };
        match Self::block_read(&block) {
            Ok(id) => Ok(id),
            Err(error) => Err(
                LoqErr::CantParseLogId { file: filename.clone(), error, log_id_type: String::from_str("LogQueueFileId") },
            ),
        }
    }

    /// Writes the identity as the first block of an empty log.
    fn write<FILE: Clone, B: FlatBuff>(&self, filename: &FILE, log: &mut LogFile<B>) -> (r: Result<(), LoqErr<FILE, Self>>)
        requires
            old(log).well_formed(),
        ensures
            final(log).well_formed(),
            old(log).last().len() > 0 ==> r is Err,
            r is Ok ==> spec_holds_written(*self, *final(log)),
    {
        let mut options = BlockOptions::default();
        let mut data: Vec<u8> = Vec::new();
        let ghost o0 = options;
        let ghost d0 = data;
        let written = self.block_write(&mut options, &mut data);
        let ghost w = written;
        match written {
            Ok(()) => {},
            Err(error) => return Err(LoqErr::LogIdWrite { file: filename.clone(), error }),
        }
        let count = match log.count() {
            Ok(c) => c,
            Err(error) => return Err(LoqErr::LogCountFail { file: filename.clone(), error }),
        };
        if count > 0 {
            return Err(LoqErr::LogNotEmpty { file: filename.clone() });
        }
        let size = options.stored_size();
        if !log.can_write(&options, data.len()) {
            return Err(
                LoqErr::LogIdWrite2 {
                    file: filename.clone(),
                    error: crate::logfile::LogErr::Block(
                        BlockErr::limit("write", crate::logfile::block::Limit(0xffff_ffffu64), size),
                    ),
                },
            );
        }
        match log.write_block(&options, data.as_slice()) {
            Ok(_) => {
                assert(self.writes(o0, d0, w, options, data));
                Ok(())
            },
            Err(error) => Err(LoqErr::LogIdWrite2 { file: filename.clone(), error }),
        }
    }
}

/// The identity of a log file made of numbers.
#[derive(Debug, Clone, Copy, PartialEq, Eq, Hash, PartialOrd, Ord)]
pub struct LogQueueFileNumID {
    pub id: u128,
    pub previous: Option<u128>,
}

/// The options a numeric identity is stored in: its kind, its number and
/// the number before it, in text, set on `m` in that order.
pub open spec fn spec_num_id_options(m: OptionsView, id: u128, previous: Option<u128>) -> OptionsView {
    let m1 = spec_set_option(m, LOG_FILE_ID_TYPE_KEY@, LOG_FILE_NUM_TYPE@);
    let m2 = spec_set_option(m1, LOG_FILE_ID_KEY@, spec_decimal(id as nat));
    match previous {
        Some(p) => spec_set_option(m2, LOG_FILE_ID_PREV_KEY@, spec_decimal(p as nat)),
        None => m2,
    }
}

/// The number whose decimal text is `s`, where it is one that fits.
pub open spec fn spec_u128_of(s: Seq<char>) -> Option<u128> {
    match spec_decimal_digits(s) {
        Some(d) => if spec_digits_value(d) <= u128::MAX {
            Some(spec_digits_value(d) as u128)
        } else {
            None
        },
        None => None,
    }
}

/// The numeric identity that options hold, where they hold one.
pub open spec fn spec_num_id_of(m: OptionsView) -> Option<(u128, Option<u128>)> {
    match (spec_get_option(m, LOG_FILE_ID_TYPE_KEY@), spec_get_option(m, LOG_FILE_ID_KEY@)) {
        (Some(t), Some(v)) => if t == LOG_FILE_NUM_TYPE@ {
            match spec_u128_of(v) {
                Some(id) => match spec_get_option(m, LOG_FILE_ID_PREV_KEY@) {
                    None => Some((id, None)),
                    Some(p) => match spec_u128_of(p) {
                        Some(prev) => Some((id, Some(prev))),
                        None => None,
                    },
                },
                None => None,
            }
        } else {
            None
        },
        _ => None,
    }
}

impl LogQueueFileNumID {
    /// The text `LogQueueFileNumID(n)`, or `LogQueueFileNumID(n, prev=p)`.
    pub fn to_string(&self) -> (r: String)
        ensures
            r@ == seq!['L', 'o', 'g', 'Q', 'u', 'e', 'u', 'e', 'F', 'i', 'l', 'e', 'N', 'u', 'm', 'I', 'D', '(']
                + spec_decimal(self.id as nat) + match self.previous {
                Some(p) => seq![',', ' ', 'p', 'r', 'e', 'v', '='] + spec_decimal(p as nat),
                None => Seq::<char>::empty(),
            } + seq![')'],
    {
        let mut s = String::from_str("LogQueueFileNumID(");
        let n = u128_to_decimal(self.id);
        s.append(n.as_str());
        match self.previous {
            Some(p) => {
                s.append(", prev=");
                let t = u128_to_decimal(p);
                s.append(t.as_str());
            },
            None => {},
        }
        s.append(")");
        proof {
            reveal_strlit("LogQueueFileNumID(");
            reveal_strlit(", prev=");
            reveal_strlit(")");
        }
        s
    }
}

impl LogQueueFileId for LogQueueFileNumID {
    open spec fn spec_id(&self) -> u128 {
        self.id
    }

    open spec fn spec_previous(&self) -> Option<u128> {
        self.previous
    }

    fn id(&self) -> (r: u128) {
        self.id
    }

    fn previous(&self) -> (r: Option<u128>) {
        self.previous
    }

    open spec fn spec_new(prev: Option<u128>) -> Self {
        match prev {
            Some(p) => LogQueueFileNumID { id: (p + 1) as u128, previous: prev },
            None => LogQueueFileNumID { id: 0, previous: None },
        }
    }

    fn new(prev: Option<u128>) -> (r: Self)
        ensures
            r.previous == prev,
            r.id == match prev {
                Some(p) => p + 1,
                None => 0,
            },
    {
        match prev {
            Some(p) => LogQueueFileNumID { id: p + 1, previous: prev },
            None => LogQueueFileNumID { id: 0, previous: None },
        }
    }
}

/// The option keys of a numeric identity are short and distinct.
pub proof fn lemma_num_id_keys()
    ensures
        spec_utf8_len(LOG_FILE_ID_KEY@) <= u16::MAX,
        spec_utf8_len(LOG_FILE_ID_PREV_KEY@) <= u16::MAX,
        spec_utf8_len(LOG_FILE_ID_TYPE_KEY@) <= u16::MAX,
        spec_utf8_len(LOG_FILE_NUM_TYPE@) <= u32::MAX,
        LOG_FILE_ID_KEY@ != LOG_FILE_ID_PREV_KEY@,
        LOG_FILE_ID_KEY@ != LOG_FILE_ID_TYPE_KEY@,
        LOG_FILE_ID_PREV_KEY@ != LOG_FILE_ID_TYPE_KEY@,
{
    reveal_strlit("log_file_id");
    reveal_strlit("log_file_id_prev");
    reveal_strlit("log_file_id_type");
    reveal_strlit("LogQueueFileNumID");
    crate::logfile::block::string_n::lemma_utf8_len_bound(LOG_FILE_ID_KEY@);
    crate::logfile::block::string_n::lemma_utf8_len_bound(LOG_FILE_ID_PREV_KEY@);
    crate::logfile::block::string_n::lemma_utf8_len_bound(LOG_FILE_ID_TYPE_KEY@);
    crate::logfile::block::string_n::lemma_utf8_len_bound(LOG_FILE_NUM_TYPE@);
    assert(LOG_FILE_ID_KEY@.len() != LOG_FILE_ID_PREV_KEY@.len());
    assert(LOG_FILE_ID_KEY@.len() != LOG_FILE_ID_TYPE_KEY@.len());
    assert(LOG_FILE_ID_PREV_KEY@[12] != LOG_FILE_ID_TYPE_KEY@[12]);
}

/// The decimal text of a `u128` is a short value.
proof fn lemma_decimal_fits(n: u128)
    ensures
        spec_utf8_len(spec_decimal(n as nat)) <= u32::MAX,
{
    crate::text::lemma_u128_decimal_len(n);
    crate::logfile::block::string_n::lemma_utf8_len_bound(spec_decimal(n as nat));
}

impl BlockWriter for LogQueueFileNumID {
    /// The identity goes into the options only, and only where they hold
    /// none of its keys; see [spec_num_id_options].
    open spec fn writes(
        &self,
        options: BlockOptions,
        data: Vec<u8>,
        r: Result<(), LogIdReadWriteErr>,
        new_options: BlockOptions,
        new_data: Vec<u8>,
    ) -> bool {
        &&& new_data@ == data@
        &&& match spec_get_option(options@, LOG_FILE_ID_KEY@) {
            Some(v) => r matches Err(LogIdReadWriteErr::ValueAlreadyDefined(x)) && x@ == v && new_options@ == options@,
            None => match spec_get_option(options@, LOG_FILE_ID_TYPE_KEY@) {
                Some(v) => r matches Err(LogIdReadWriteErr::TypeValueAlreadyDefined(x)) && x@ == v && new_options@
                    == options@,
                None => match spec_get_option(options@, LOG_FILE_ID_PREV_KEY@) {
                    Some(v) => r matches Err(LogIdReadWriteErr::PrevValueAlreadyDefined(x)) && x@ == v
                        && new_options@ == options@,
                    None => r is Ok && new_options@ == spec_num_id_options(options@, self.id, self.previous),
                },
            },
        }
    }

    fn block_write(&self, options: &mut BlockOptions, data: &mut Vec<u8>) -> (r: Result<(), LogIdReadWriteErr>) {
        proof {
            lemma_num_id_keys();
            lemma_decimal_fits(self.id);
        }
        match options.get(LOG_FILE_ID_KEY) {
            Some(v) => return Err(LogIdReadWriteErr::ValueAlreadyDefined(v)),
            None => {},
        }
        match options.get(LOG_FILE_ID_TYPE_KEY) {
            Some(v) => return Err(LogIdReadWriteErr::TypeValueAlreadyDefined(v)),
            None => {},
        }
        match options.get(LOG_FILE_ID_PREV_KEY) {
            Some(v) => return Err(LogIdReadWriteErr::PrevValueAlreadyDefined(v)),
            None => {},
        }
        match options.set(LOG_FILE_ID_TYPE_KEY, LOG_FILE_NUM_TYPE) {
            Ok(()) => {},
            Err(e) => return Err(LogIdReadWriteErr::BlockErr(e)),
        }
        let id_text = u128_to_decimal(self.id);
        match options.set(LOG_FILE_ID_KEY, id_text.as_str()) {
            Ok(()) => {},
            Err(e) => return Err(LogIdReadWriteErr::BlockErr(e)),
        }
        match self.previous {
            Some(p) => {
                proof {
                    lemma_decimal_fits(p);
                }
                let prev_text = u128_to_decimal(p);
                match options.set(LOG_FILE_ID_PREV_KEY, prev_text.as_str()) {
                    Ok(()) => {},
                    Err(e) => return Err(LogIdReadWriteErr::BlockErr(e)),
                }
            },
            None => {},
        }
        Ok(())
    }
}

/// Parses the decimal text of a number.
fn parse_number(s: &str) -> (r: Result<u128, LogIdReadWriteErr>)
    ensures
        r matches Ok(n) ==> spec_u128_of(s@) == Some(n),
        spec_u128_of(s@) matches Some(n) ==> r matches Ok(x) && x == n,
        spec_u128_of(s@) is None ==> r matches Err(LogIdReadWriteErr::IdParseError(_)),
        r is Err ==> r matches Err(LogIdReadWriteErr::IdParseError(_)),
{
    match parse_u128(s) {
        Ok(n) => Ok(n),
        Err(e) => Err(LogIdReadWriteErr::IdParseError(e)),
    }
}

impl BlockReader for LogQueueFileNumID {
    open spec fn reads(block: Block, r: Result<Self, LogIdReadWriteErr>) -> bool {
        &&& spec_num_id_of(block.head.block_options@) matches Some((id, prev)) ==> (r matches Ok(x) && x.id == id
            && x.previous == prev)
        &&& spec_num_id_of(block.head.block_options@) is None ==> r is Err
    }

    fn block_read(block: &Block) -> (r: Result<Self, LogIdReadWriteErr>)
        ensures
            spec_num_id_of(block.head.block_options@) matches Some((id, prev)) ==> (r matches Ok(x) && x.id
                == id && x.previous == prev),
            spec_num_id_of(block.head.block_options@) is None ==> r is Err,
            spec_get_option(block.head.block_options@, LOG_FILE_ID_TYPE_KEY@) is None ==> r matches Err(
                LogIdReadWriteErr::TypeValueNotFound,
            ),
            spec_get_option(block.head.block_options@, LOG_FILE_ID_TYPE_KEY@) matches Some(t) && t
                != LOG_FILE_NUM_TYPE@ ==> r matches Err(LogIdReadWriteErr::TypeValueNotMatched { .. }),
            spec_get_option(block.head.block_options@, LOG_FILE_ID_TYPE_KEY@) == Some(LOG_FILE_NUM_TYPE@)
                && spec_get_option(block.head.block_options@, LOG_FILE_ID_KEY@) is None ==> r matches Err(
                LogIdReadWriteErr::ValueNotFound,
            ),
    {
        proof {
            lemma_num_id_keys();
        }
        let opts = &block.head.block_options;
        let type_of_value = match opts.get(LOG_FILE_ID_TYPE_KEY) {
            Some(t) => t,
            None => return Err(LogIdReadWriteErr::TypeValueNotFound),
        };
        if !crate::text::same_text(type_of_value.value(), LOG_FILE_NUM_TYPE) {
            let expect = match String32::try_from(LOG_FILE_NUM_TYPE) {
                Ok(e) => e,
                Err(e) => return Err(LogIdReadWriteErr::BlockErr(e)),
            };
            return Err(LogIdReadWriteErr::TypeValueNotMatched { expect, actual: type_of_value });
        }
        let value = match opts.get(LOG_FILE_ID_KEY) {
            Some(v) => v,
            None => return Err(LogIdReadWriteErr::ValueNotFound),
        };
        let id = match parse_number(value.value()) {
            Ok(n) => n,
            Err(e) => return Err(e),
        };
        match opts.get(LOG_FILE_ID_PREV_KEY) {
            None => Ok(LogQueueFileNumID { id, previous: None }),
            Some(p) => match parse_number(p.value()) {
                Ok(prev) => Ok(LogQueueFileNumID { id, previous: Some(prev) }),
                Err(e) => Err(e),
            },
        }
    }
}

/// A numeric identity put into options without one reads back from them.
pub proof fn lemma_num_id_round_trip(m: OptionsView, id: u128, previous: Option<u128>)
    requires
        spec_get_option(m, LOG_FILE_ID_KEY@) is None,
        spec_get_option(m, LOG_FILE_ID_TYPE_KEY@) is None,
        spec_get_option(m, LOG_FILE_ID_PREV_KEY@) is None,
    ensures
        spec_num_id_of(spec_num_id_options(m, id, previous)) == Some((id, previous)),
{
    lemma_num_id_keys();
    crate::text::lemma_decimal_round_trip(id as nat);
    let m1 = spec_set_option(m, LOG_FILE_ID_TYPE_KEY@, LOG_FILE_NUM_TYPE@);
    let m2 = spec_set_option(m1, LOG_FILE_ID_KEY@, spec_decimal(id as nat));
    lemma_get_after_set(m, LOG_FILE_ID_TYPE_KEY@, LOG_FILE_NUM_TYPE@, LOG_FILE_ID_TYPE_KEY@);
    lemma_get_after_set(m, LOG_FILE_ID_TYPE_KEY@, LOG_FILE_NUM_TYPE@, LOG_FILE_ID_KEY@);
    lemma_get_after_set(m, LOG_FILE_ID_TYPE_KEY@, LOG_FILE_NUM_TYPE@, LOG_FILE_ID_PREV_KEY@);
    lemma_get_after_set(m1, LOG_FILE_ID_KEY@, spec_decimal(id as nat), LOG_FILE_ID_TYPE_KEY@);
    lemma_get_after_set(m1, LOG_FILE_ID_KEY@, spec_decimal(id as nat), LOG_FILE_ID_KEY@);
    lemma_get_after_set(m1, LOG_FILE_ID_KEY@, spec_decimal(id as nat), LOG_FILE_ID_PREV_KEY@);
    match previous {
        Some(p) => {
            crate::text::lemma_decimal_round_trip(p as nat);
            lemma_get_after_set(m2, LOG_FILE_ID_PREV_KEY@, spec_decimal(p as nat), LOG_FILE_ID_TYPE_KEY@);
            lemma_get_after_set(m2, LOG_FILE_ID_PREV_KEY@, spec_decimal(p as nat), LOG_FILE_ID_KEY@);
            lemma_get_after_set(m2, LOG_FILE_ID_PREV_KEY@, spec_decimal(p as nat), LOG_FILE_ID_PREV_KEY@);
        },
        None => {},
    }
}

/// A reference to a record of a queue: the log file and the block in it.
#[derive(Clone, Copy, Debug, PartialEq, Eq)]
pub struct RecID<LogId: LogQueueFileId> {
    pub log_file_id: LogId,
    pub block_id: BlockId,
}

} // verus!
