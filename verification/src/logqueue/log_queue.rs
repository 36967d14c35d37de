//! A queue of log files: the files in queue order, each with its identity;
//! the last one, the tail, takes the new records.
//!
//! Making a new file and opening it is left to the caller, which hands the
//! opened log to [LogFileQueueImpl::switch] or [LogFileQueueImpl::create].

use vstd::prelude::*;
use crate::logfile::block::{Block, BlockErr, BlockId, Limit};
use crate::logfile::block::block::{spec_block_at, spec_block_storable, spec_encode_block, TAIL_SIZE};
use crate::logfile::logfile::{spec_next_head, spec_append_position};
use crate::logfile::stored::spec_stored_head;
use crate::logfile::block::head::spec_encode_head;
use crate::logfile::block::head::{HeadReadView, HeadView, PREVIEW_SIZE};
use crate::logfile::logfile::{FlatBuff, LogErr, LogFile};
use super::err::LoqErr;
use super::log_api::{LogNavigateLast, LogNavigationNear, LogReading, PreparedRecord, RecordInfo};
use super::log_id::{LogQueueFileId, RecID, spec_holds_id, spec_holds_written, spec_id_read};
use super::log_seq_verifier::OrderedLogs;
use super::logs_open::{FindFiles, OpenLogFile, ValidateLogFiles};

verus! {

/// Two identities are the same: same number, same number before.
pub open spec fn spec_same_log_id<LogId: LogQueueFileId>(a: LogId, b: LogId) -> bool {
    a.spec_id() == b.spec_id() && a.spec_previous() == b.spec_previous()
}

/// Whether two identities are the same.
pub fn same_log_id<LogId: LogQueueFileId>(a: &LogId, b: &LogId) -> (r: bool)
    ensures
        r == spec_same_log_id(*a, *b),
{
    if a.id() != b.id() {
        return false;
    }
    match (a.previous(), b.previous()) {
        (Some(x), Some(y)) => x == y,
        (None, None) => true,
        _ => false,
    }
}

/// The identities of the files of a queue, in order.
pub open spec fn spec_queue_ids<LogId, FILE, B: FlatBuff>(files: Seq<(LogId, FILE, LogFile<B>)>) -> Seq<LogId> {
    Seq::new(files.len(), |i: int| files[i].0)
}

/// The position of the last of the first `n` identities that is `id`.
pub open spec fn spec_find_last<LogId: LogQueueFileId>(ids: Seq<LogId>, id: LogId, n: int) -> Option<int>
    decreases n,
{
    if n <= 0 {
        None
    } else if spec_same_log_id(ids[n - 1], id) {
        Some(n - 1)
    } else {
        spec_find_last(ids, id, n - 1)
    }
}

/// The position of the first identity from `from` on that is `id`.
pub open spec fn spec_find_first<LogId: LogQueueFileId>(ids: Seq<LogId>, id: LogId, from: int) -> Option<int>
    decreases ids.len() - from,
{
    if from < 0 || from >= ids.len() {
        None
    } else if spec_same_log_id(ids[from], id) {
        Some(from)
    } else {
        spec_find_first(ids, id, from + 1)
    }
}

/// What the search from the end finds is `id`, among the first `n`.
pub proof fn lemma_find_last<LogId: LogQueueFileId>(ids: Seq<LogId>, id: LogId, n: int)
    requires
        n <= ids.len(),
    ensures
        spec_find_last(ids, id, n) matches Some(i) ==> 0 <= i < n && spec_same_log_id(ids[i], id),
    decreases n,
{
    if n > 0 && !spec_same_log_id(ids[n - 1], id) {
        lemma_find_last(ids, id, n - 1);
    }
}

/// What the search from `from` finds is `id`, at `from` or after.
pub proof fn lemma_find_first<LogId: LogQueueFileId>(ids: Seq<LogId>, id: LogId, from: int)
    ensures
        spec_find_first(ids, id, from) matches Some(i) ==> 0 <= from <= i < ids.len() && spec_same_log_id(ids[i], id),
    decreases ids.len() - from,
{
    if 0 <= from < ids.len() && !spec_same_log_id(ids[from], id) {
        lemma_find_first(ids, id, from + 1);
    }
}

/// The identity `offset` places after `id` in the queue (before it, for a
/// negative offset): `id` itself for no offset; nothing where `id` is not
/// in the queue or the place is outside it.
pub open spec fn spec_offset_id<LogId: LogQueueFileId>(ids: Seq<LogId>, id: LogId, offset: int) -> Option<LogId> {
    if offset == 0 {
        Some(id)
    } else {
        match spec_find_first(ids, id, 0) {
            None => None,
            Some(idx) => if idx + offset < 0 || idx + offset >= ids.len() {
                None
            } else {
                Some(ids[idx + offset])
            },
        }
    }
}

/// The record after `rec`: the next block of its log, or, after the last
/// block of its log (or in a log with no block), the first block of the
/// next log; nothing where its log is not in the queue, has too many blocks
/// to count, or is the last one.
pub open spec fn spec_next_record<LogId: LogQueueFileId, FILE, B: FlatBuff>(
    files: Seq<(LogId, FILE, LogFile<B>)>,
    rec: RecID<LogId>,
) -> Option<RecID<LogId>> {
    let ids = spec_queue_ids(files);
    match spec_find_last(ids, rec.log_file_id, ids.len() as int) {
        None => None,
        Some(i) => {
            let n = files[i].2.spec_next_id();
            if n > u32::MAX {
                None
            } else if n == 0 || rec.block_id.0 >= n - 1 {
                match spec_offset_id(ids, rec.log_file_id, 1) {
                    Some(next) => Some(RecID { log_file_id: next, block_id: BlockId(0) }),
                    None => None,
                }
            } else {
                Some(RecID { log_file_id: rec.log_file_id, block_id: BlockId((rec.block_id.0 + 1) as u32) })
            }
        },
    }
}

/// The record before `rec`: the block before in its log, or, before the
/// first block, the last block of the log before; nothing where there is
/// no log before, or it is not found, holds no block or too many to count.
pub open spec fn spec_previous_record<LogId: LogQueueFileId, FILE, B: FlatBuff>(
    files: Seq<(LogId, FILE, LogFile<B>)>,
    rec: RecID<LogId>,
) -> Option<RecID<LogId>> {
    let ids = spec_queue_ids(files);
    if rec.block_id.0 == 0 {
        match spec_offset_id(ids, rec.log_file_id, -1) {
            None => None,
            Some(prev) => match spec_find_last(ids, prev, ids.len() as int) {
                None => None,
                Some(j) => {
                    let n = files[j].2.spec_next_id();
                    if n > u32::MAX || n == 0 {
                        None
                    } else {
                        Some(RecID { log_file_id: prev, block_id: BlockId((n - 1) as u32) })
                    }
                },
            },
        }
    } else {
        Some(RecID { log_file_id: rec.log_file_id, block_id: BlockId((rec.block_id.0 - 1) as u32) })
    }
}

/// No two files of the queue carry the same identity.
pub open spec fn spec_distinct_ids<LogId: LogQueueFileId>(ids: Seq<LogId>) -> bool {
    forall|i: int, j: int| 0 <= i < ids.len() && 0 <= j < ids.len() && i != j ==> !spec_same_log_id(ids[i], ids[j])
}

/// With distinct identities, both searches find an identity where it is.
pub proof fn lemma_find_distinct<LogId: LogQueueFileId>(ids: Seq<LogId>, k: int)
    requires
        spec_distinct_ids(ids),
        0 <= k < ids.len(),
    ensures
        spec_find_first(ids, ids[k], 0) == Some(k),
        spec_find_last(ids, ids[k], ids.len() as int) == Some(k),
{
    lemma_find_first_from(ids, ids[k], 0, k);
    lemma_find_last_upto(ids, ids[k], ids.len() as int, k);
}

proof fn lemma_find_first_from<LogId: LogQueueFileId>(ids: Seq<LogId>, id: LogId, from: int, k: int)
    requires
        spec_distinct_ids(ids),
        0 <= from <= k < ids.len(),
        id == ids[k],
    ensures
        spec_find_first(ids, id, from) == Some(k),
    decreases k - from,
{
    if from < k {
        assert(!spec_same_log_id(ids[from], ids[k]));
        lemma_find_first_from(ids, id, from + 1, k);
    }
}

proof fn lemma_find_last_upto<LogId: LogQueueFileId>(ids: Seq<LogId>, id: LogId, n: int, k: int)
    requires
        spec_distinct_ids(ids),
        0 <= k < n <= ids.len(),
        id == ids[k],
    ensures
        spec_find_last(ids, id, n) == Some(k),
    decreases n - k,
{
    if n - 1 > k {
        assert(!spec_same_log_id(ids[n - 1], ids[k]));
        lemma_find_last_upto(ids, id, n - 1, k);
    }
}

/// In a queue whose files carry distinct identities, going to the record
/// after a record of the queue and then to the record before it comes back
/// to that record.
pub proof fn lemma_next_then_previous<LogId: LogQueueFileId, FILE, B: FlatBuff>(
    files: Seq<(LogId, FILE, LogFile<B>)>,
    k: int,
    block: u32,
)
    requires
        spec_distinct_ids(spec_queue_ids(files)),
        0 <= k < files.len(),
        files[k].2.spec_next_id() <= u32::MAX,
        block < files[k].2.spec_next_id(),
        spec_next_record(files, RecID { log_file_id: files[k].0, block_id: BlockId(block) }) is Some,
    ensures
        spec_previous_record(files, spec_next_record(files, RecID { log_file_id: files[k].0, block_id: BlockId(block) })->0)
            == Some(RecID { log_file_id: files[k].0, block_id: BlockId(block) }),
{
    let ids = spec_queue_ids(files);
    assert(ids[k] == files[k].0);
    lemma_find_distinct(ids, k);
    let n = files[k].2.spec_next_id();
    if block >= n - 1 {
        assert(k + 1 < ids.len());
        assert(ids[k + 1] == files[k + 1].0);
        lemma_find_distinct(ids, k + 1);
    }
}

/// The data of record `rec` where it is the last block of its log: the
/// data stored where the log's last head says that block starts.
pub open spec fn spec_last_record_data<LogId: LogQueueFileId, FILE, B: FlatBuff>(
    files: Seq<(LogId, FILE, LogFile<B>)>,
    rec: RecID<LogId>,
) -> Option<Seq<u8>> {
    match spec_find_last(spec_queue_ids(files), rec.log_file_id, files.len() as int) {
        Some(i) => {
            let log = files[i].2;
            if log.last().len() > 0 && log.last()[0].head.block_id == rec.block_id.0 {
                match spec_block_at(log.flat(), log.last()[0].position as int) {
                    Some((_, d, _)) => Some(d),
                    None => None,
                }
            } else {
                None
            }
        },
        None => None,
    }
}

/// The head of record `rec` where it is the last block of its log.
pub open spec fn spec_last_record_head<LogId: LogQueueFileId, FILE, B: FlatBuff>(
    files: Seq<(LogId, FILE, LogFile<B>)>,
    rec: RecID<LogId>,
) -> Option<HeadReadView> {
    match spec_find_last(spec_queue_ids(files), rec.log_file_id, files.len() as int) {
        Some(i) => {
            let log = files[i].2;
            if log.last().len() > 0 && log.last()[0].head.block_id == rec.block_id.0 {
                Some(log.last()[0])
            } else {
                None
            }
        },
        None => None,
    }
}

/// Each file of `entries` carries the identity that block 0 of its log holds.
pub open spec fn spec_each_holds_id<LogId: LogQueueFileId, FILE, B: FlatBuff>(
    entries: Seq<(LogId, FILE, LogFile<B>)>,
) -> bool {
    forall|k: int| 0 <= k < entries.len() ==> #[trigger] spec_holds_id(entries[k].0, entries[k].2)
}

/// The identities of the first `n` of `files` read, and their logs are well formed.
pub open spec fn spec_read_upto<LogId: LogQueueFileId, FILE: Clone, B: FlatBuff>(
    files: Seq<(FILE, LogFile<B>)>,
    n: int,
) -> bool {
    forall|j: int|
        0 <= j < n ==> files[j].1.well_formed() && exists|id: LogId| #[trigger] spec_id_read(files[j].0, files[j].1, Ok::<LogId, LoqErr<FILE, LogId>>(id))
}

/// What building a queue of the log files `files`, in this order, gives:
/// the queue of those files, each with the identity its log holds; for no
/// file, [LoqErr::OpenNoHeads]; else the error met at the first file whose
/// identity cannot be read ([LogQueueFileId::read]) or whose log keeps more
/// heads than it may ([LoqErr::OpenLog], naming that file).
pub open spec fn spec_queue_of<LogId: LogQueueFileId, FILE: Clone, B: FlatBuff>(
    files: Seq<(FILE, LogFile<B>)>,
    r: Result<LogFileQueueImpl<LogId, FILE, B>, LoqErr<FILE, LogId>>,
) -> bool {
    match r {
        Ok(q) => files.len() > 0 && q.entries().len() == files.len() && forall|k: int|
            0 <= k < files.len() ==> q.entries()[k].1 == files[k].0 && q.entries()[k].2 == files[k].1
                && files[k].1.well_formed() && #[trigger] spec_id_read(files[k].0, files[k].1, Ok::<LogId, LoqErr<FILE, LogId>>(q.entries()[k].0)),
        Err(LoqErr::OpenNoHeads) => files.len() == 0,
        Err(e) => exists|k: int|
            0 <= k < files.len() && #[trigger] spec_read_upto::<LogId, FILE, B>(files, k) && (spec_id_read(files[k].0, files[k].1, Err::<LogId, LoqErr<FILE, LogId>>(e))
                || ((exists|id: LogId| spec_id_read(files[k].0, files[k].1, Ok::<LogId, LoqErr<FILE, LogId>>(id))) && !files[k].1.well_formed()
                && (e matches LoqErr::OpenLog { file, .. } && file == files[k].0))),
    }
}

/// What making a queue of the one new file `file`, whose log is `log`,
/// gives: an error where the log holds blocks; a queue of that file alone,
/// whose log now holds the first identity, where it succeeds.
pub open spec fn spec_created<LogId: LogQueueFileId, FILE: Clone, B: FlatBuff>(
    file: FILE,
    log: LogFile<B>,
    r: Result<LogFileQueueImpl<LogId, FILE, B>, LoqErr<FILE, LogId>>,
) -> bool {
    &&& log.last().len() > 0 ==> r is Err
    &&& r matches Ok(q) ==> q.well_formed() && q.entries().len() == 1 && q.entries()[0].0 == LogId::spec_new(None)
        && q.entries()[0].1 == file && spec_holds_written(q.entries()[0].0, q.entries()[0].2)
}

/// What opening a queue on the new file `file` gives, where opening its
/// log gave `opened`: that error; [LoqErr::OpenLog] naming `file` where the
/// log keeps more heads than it may; else the queue made of that file
/// ([spec_created]).
pub open spec fn spec_open_new<LogId: LogQueueFileId, FILE: Clone, B: FlatBuff>(
    file: FILE,
    opened: Result<LogFile<B>, LoqErr<FILE, LogId>>,
    r: Result<LogFileQueueImpl<LogId, FILE, B>, LoqErr<FILE, LogId>>,
) -> bool {
    match opened {
        Err(e) => r == Err::<LogFileQueueImpl<LogId, FILE, B>, LoqErr<FILE, LogId>>(e),
        Ok(log) => if log.well_formed() {
            spec_created(file, log, r)
        } else {
            r matches Err(LoqErr::OpenLog { file: f, .. }) && f == file
        },
    }
}

/// The first `n` files of `found` opened by `open` ([spec_opened]).
pub open spec fn spec_opened_upto<FOpen: OpenLogFile<FILE, LogFile<B>, LogId>, FILE: Clone, B: FlatBuff, LogId>(
    open: FOpen,
    found: Seq<FILE>,
    n: int,
) -> bool {
    exists|opened: Seq<(FILE, LogFile<B>)>| #[trigger] spec_opened::<FOpen, FILE, B, LogId>(open, found.take(n), opened)
}

/// `opened` holds each file of `found`, in that order, as a clone with the
/// log that `open` gave for another clone of it.
pub open spec fn spec_opened<FOpen: OpenLogFile<FILE, LogFile<B>, LogId>, FILE: Clone, B: FlatBuff, LogId>(
    open: FOpen,
    found: Seq<FILE>,
    opened: Seq<(FILE, LogFile<B>)>,
) -> bool {
    &&& opened.len() == found.len()
    &&& forall|i: int| 0 <= i < found.len() ==> cloned(found[i], #[trigger] opened[i].0) && exists|c: FILE|
        cloned(found[i], c) && #[trigger] open.opens(c, Ok::<LogFile<B>, LoqErr<FILE, LogId>>(opened[i].1))
}

/// A queue of log files; the last one is the tail.
pub struct LogFileQueueImpl<LogId, FILE, B: FlatBuff> {
    files: Vec<(LogId, FILE, LogFile<B>)>,
}

impl<LogId: LogQueueFileId, FILE: Clone, B: FlatBuff> LogFileQueueImpl<LogId, FILE, B> {
    /// The files of the queue, in order, each with its identity and log.
    pub closed spec fn entries(&self) -> Seq<(LogId, FILE, LogFile<B>)> {
        self.files@
    }

    /// The queue has a tail, and its logs are well formed.
    pub open spec fn well_formed(&self) -> bool {
        &&& self.entries().len() > 0
        &&& forall|i: int| 0 <= i < self.entries().len() ==> #[trigger] self.entries()[i].2.well_formed()
    }

    /// A queue of these files, the last being the tail; none for no file.
    pub fn new(files: Vec<(LogId, FILE, LogFile<B>)>) -> (r: Option<Self>)
        requires
            forall|i: int| 0 <= i < files@.len() ==> #[trigger] files@[i].2.well_formed(),
        ensures
            files@.len() == 0 <==> r is None,
            r matches Some(q) ==> q.entries() == files@ && q.well_formed(),
    {
        if files.len() == 0 {
            None
        } else {
            Some(LogFileQueueImpl { files })
        }
    }

    /// The queue of the checked and ordered log files `ordered`: each file,
    /// in that order, with the identity its log holds; see [spec_queue_of].
    pub fn from_ordered(ordered: OrderedLogs<(FILE, LogFile<B>)>) -> (r: Result<Self, LoqErr<FILE, LogId>>)
        ensures
            spec_queue_of(ordered.files@, r),
            r matches Ok(q) ==> q.well_formed() && spec_each_holds_id(q.entries()),
    {
        let ghost all = ordered.files@;
        let mut files = ordered.files;
        let mut entries: Vec<(LogId, FILE, LogFile<B>)> = Vec::new();
        while files.len() > 0
            invariant
                all == ordered.files@,
                entries@.len() + files@.len() == all.len(),
                files@ == all.subrange(entries@.len() as int, all.len() as int),
                forall|k: int| 0 <= k < entries@.len() ==> (#[trigger] entries@[k]).1 == all[k].0 && entries@[k].2 == all[k].1
                    && all[k].1.well_formed() && spec_id_read(all[k].0, all[k].1, Ok::<LogId, LoqErr<FILE, LogId>>(entries@[k].0)),
            decreases files.len(),
        {
            let ghost n = entries@.len() as int;
            assert(files@[0] == all[n]);
            assert forall|j: int| 0 <= j < n implies all[j].1.well_formed() && exists|id: LogId| #[trigger] spec_id_read(all[j].0, all[j].1, Ok::<LogId, LoqErr<FILE, LogId>>(id)) by {
                assert(entries@[j].1 == all[j].0);
                assert(spec_id_read(all[j].0, all[j].1, Ok::<LogId, LoqErr<FILE, LogId>>(entries@[j].0)));
            }
            assert(spec_read_upto::<LogId, FILE, B>(all, n));
            let (file, log) = files.remove(0);
            let id = match LogId::read(&file, &log) {
                Ok(id) => id,
                Err(e) => {
                    proof {
                        assert(spec_read_upto::<LogId, FILE, B>(all, n) && spec_id_read(all[n].0, all[n].1, Err::<LogId, LoqErr<FILE, LogId>>(e)));
                    }
                    return Err(e);
                },
            };
            if !log.is_well_formed() {
                let r = Err(LoqErr::OpenLog { file, error: LogErr::Block(BlockErr::generic("too many heads kept")) });
                proof {
                    assert(spec_read_upto::<LogId, FILE, B>(all, n) && spec_id_read(all[n].0, all[n].1, Ok::<LogId, LoqErr<FILE, LogId>>(id)));
                }
                return r;
            }
            let ghost e0 = entries@;
            entries.push((id, file, log));
            proof {
                assert forall|k: int| 0 <= k < entries@.len() implies (#[trigger] entries@[k]).1 == all[k].0 && entries@[k].2 == all[k].1
                    && all[k].1.well_formed() && spec_id_read(all[k].0, all[k].1, Ok::<LogId, LoqErr<FILE, LogId>>(entries@[k].0)) by {
                    if k < e0.len() {
                        assert(entries@[k] == e0[k]);
                    }
                }
                assert(files@ =~= all.subrange(entries@.len() as int, all.len() as int));
            }
        }
        proof {
            assert forall|k: int| 0 <= k < entries@.len() implies #[trigger] entries@[k].2.well_formed() by {
                assert(entries@[k].2 == all[k].1);
            }
            assert forall|k: int| 0 <= k < entries@.len() implies #[trigger] spec_holds_id(entries@[k].0, entries@[k].2) by {
                assert(entries@[k].2 == all[k].1);
                assert(spec_id_read(all[k].0, all[k].1, Ok::<LogId, LoqErr<FILE, LogId>>(entries@[k].0)));
            }
        }
        match LogFileQueueImpl::new(entries) {
            Some(q) => Ok(q),
            None => Err(LoqErr::OpenNoHeads),
        }
    }

    /// A queue of one new file: its log, empty, gets the first identity.
    pub fn create(file_name: FILE, log_file: LogFile<B>) -> (r: Result<Self, LoqErr<FILE, LogId>>)
        requires
            log_file.well_formed(),
        ensures
            spec_created(file_name, log_file, r),
    {
        let id = LogId::new(None);
        let mut log = log_file;
        match id.write(&file_name, &mut log) {
            Ok(()) => {},
            Err(e) => return Err(e),
        }
        let mut files: Vec<(LogId, FILE, LogFile<B>)> = Vec::new();
        files.push((id, file_name, log));
        Ok(LogFileQueueImpl { files })
    }

    /// The files of the queue, in order.
    pub fn files(&self) -> (r: &Vec<(LogId, FILE, LogFile<B>)>)
        ensures
            r@ == self.entries(),
    {
        &self.files
    }

    /// The tail: the file that takes new records.
    pub fn tail(&self) -> (r: &(LogId, FILE, LogFile<B>))
        requires
            self.well_formed(),
        ensures
            *r == self.entries().last(),
    {
        &self.files[self.files.len() - 1]
    }

    /// The identity of the tail.
    pub fn current_log_id(&self) -> (r: LogId)
        requires
            self.well_formed(),
        ensures
            r == self.entries().last().0,
    {
        self.files[self.files.len() - 1].0
    }

    /// The position of the last file whose identity is `id`.
    fn find_index(&self, id: &LogId) -> (r: Option<usize>)
        ensures
            match r {
                Some(i) => spec_find_last(spec_queue_ids(self.entries()), *id, self.entries().len() as int) == Some(
                    i as int,
                ) && i < self.entries().len(),
                None => spec_find_last(spec_queue_ids(self.entries()), *id, self.entries().len() as int) is None,
            },
    {
        proof {
            lemma_find_last(spec_queue_ids(self.entries()), *id, self.entries().len() as int);
        }
        let ghost ids = spec_queue_ids(self.entries());
        let mut n: usize = self.files.len();
        while n > 0
            invariant
                n <= self.files.len(),
                ids == spec_queue_ids(self.entries()),
                spec_find_last(ids, *id, self.entries().len() as int) == spec_find_last(ids, *id, n as int),
            decreases n,
        {
            if same_log_id(&self.files[n - 1].0, id) {
                return Some(n - 1);
            }
            n = n - 1;
        }
        None
    }

    /// The file and log of identity `id`: the last such file.
    pub fn find_log(&self, id: &LogId) -> (r: Option<&(LogId, FILE, LogFile<B>)>)
        ensures
            match spec_find_last(spec_queue_ids(self.entries()), *id, self.entries().len() as int) {
                Some(i) => r == Some(&self.entries()[i]),
                None => r is None,
            },
    {
        match self.find_index(id) {
            Some(i) => Some(&self.files[i]),
            None => None,
        }
    }

    /// The identity `offset` places after `id` (before it, for a negative
    /// offset); see [spec_offset_id].
    pub fn offset_log_id(&self, id: &LogId, offset: i64) -> (r: Option<LogId>)
        ensures
            r == spec_offset_id(spec_queue_ids(self.entries()), *id, offset as int),
    {
        let ghost ids = spec_queue_ids(self.entries());
        if offset == 0 {
            return Some(*id);
        }
        let mut idx: usize = 0;
        while idx < self.files.len()
            invariant
                idx <= self.files.len(),
                offset != 0,
                ids == spec_queue_ids(self.entries()),
                spec_find_first(ids, *id, 0) == spec_find_first(ids, *id, idx as int),
            decreases self.files.len() - idx,
        {
            if same_log_id(&self.files[idx].0, id) {
                proof {
                    assert(ids[idx as int] == self.files@[idx as int].0);
                    assert(spec_find_first(ids, *id, idx as int) == Some(idx as int));
                }
                let target: i128 = idx as i128 + offset as i128;
                if target < 0 || target >= self.files.len() as i128 {
                    return None;
                }
                let t = target as usize;
                proof {
                    assert(t as int == idx + offset);
                    assert(ids[t as int] == self.files@[t as int].0);
                }
                return Some(self.files[t].0);
            }
            idx = idx + 1;
        }
        None
    }

    /// Starts a new tail: `log_file`, just opened on `file_name`, gets the
    /// identity that follows the tail's, and is added at the end.
    pub fn switch(&mut self, file_name: FILE, log_file: LogFile<B>) -> (r: Result<(FILE, LogId), LoqErr<FILE, LogId>>)
        requires
            old(self).well_formed(),
            log_file.well_formed(),
            old(self).entries().last().0.spec_id() < u128::MAX,
        ensures
            final(self).well_formed(),
            log_file.last().len() > 0 ==> r is Err,
            r is Err ==> final(self).entries() == old(self).entries(),
            r matches Ok((f, id)) ==> {
                &&& id == LogId::spec_new(Some(old(self).entries().last().0.spec_id()))
                &&& cloned(file_name, f)
                &&& final(self).entries().len() == old(self).entries().len() + 1
                &&& final(self).entries().drop_last() == old(self).entries()
                &&& final(self).entries().last().0 == id
                &&& final(self).entries().last().1 == file_name
                &&& spec_holds_written(id, final(self).entries().last().2)
            },
    {
        let current = self.files[self.files.len() - 1].0;
        let new_id = LogId::new(Some(current.id()));
        let mut log = log_file;
        match new_id.write(&file_name, &mut log) {
            Ok(()) => {},
            Err(e) => return Err(e),
        }
        let f = file_name.clone();
        let ghost old_files = self.files@;
        self.files.push((new_id, file_name, log));
        proof {
            assert(self.files@.drop_last() =~= old_files);
            assert forall|i: int| 0 <= i < self.entries().len() implies #[trigger] self.entries()[i].2.well_formed() by {
                if i < old_files.len() {
                    assert(self.entries()[i] == old_files[i]);
                }
            }
        }
        Ok((f, new_id))
    }

    /// The last record of the queue: the last block of the tail (none for a
    /// queue without files).
    pub fn last_record(&self) -> (r: Result<Option<RecID<LogId>>, LoqErr<FILE, LogId>>)
        ensures
            self.entries().len() == 0 ==> r == Ok::<Option<RecID<LogId>>, LoqErr<FILE, LogId>>(None),
            self.entries().len() > 0 ==> (self.entries().last().2.spec_next_id() > u32::MAX <==> r matches Err(
                LoqErr::LogCountFail { .. },
            )),
            self.entries().len() > 0 && r is Err ==> (r matches Err(LoqErr::LogCountFail { file, .. }) && cloned(
                self.entries().last().1,
                file,
            )),
            self.entries().len() > 0 && self.entries().last().2.spec_next_id() == 0 ==> r == Ok::<
                Option<RecID<LogId>>,
                LoqErr<FILE, LogId>,
            >(None),
            self.entries().len() > 0 && 0 < self.entries().last().2.spec_next_id() <= u32::MAX ==> r == Ok::<
                Option<RecID<LogId>>,
                LoqErr<FILE, LogId>,
            >(
                Some(
                    RecID {
                        log_file_id: self.entries().last().0,
                        block_id: BlockId((self.entries().last().2.spec_next_id() - 1) as u32),
                    },
                ),
            ),
    {
        if self.files.len() == 0 {
            return Ok(None);
        }
        let t = &self.files[self.files.len() - 1];
        let cnt = match t.2.count() {
            Ok(c) => c,
            Err(error) => return Err(LoqErr::LogCountFail { file: t.1.clone(), error }),
        };
        if cnt == 0 {
            return Ok(None);
        }
        Ok(Some(RecID { log_file_id: t.0, block_id: BlockId::new(cnt - 1) }))
    }

    /// The record after `record_id`; see [spec_next_record].
    pub fn next_record(&self, record_id: RecID<LogId>) -> (r: Result<Option<RecID<LogId>>, LoqErr<FILE, LogId>>)
        ensures
            r == Ok::<Option<RecID<LogId>>, LoqErr<FILE, LogId>>(spec_next_record(self.entries(), record_id)),
    {
        let i = match self.find_index(&record_id.log_file_id) {
            Some(i) => i,
            None => return Ok(None),
        };
        let count = match self.files[i].2.count() {
            Ok(c) => c,
            Err(_) => return Ok(None),
        };
        if count == 0 || record_id.block_id.0 >= count - 1 {
            match self.offset_log_id(&record_id.log_file_id, 1) {
                Some(next) => Ok(Some(RecID { log_file_id: next, block_id: BlockId::new(0) })),
                None => Ok(None),
            }
        } else {
            Ok(Some(RecID { log_file_id: record_id.log_file_id, block_id: BlockId::new(record_id.block_id.0 + 1) }))
        }
    }

    /// The record before `record_id`; see [spec_previous_record].
    pub fn previous_record(&self, record_id: RecID<LogId>) -> (r: Result<Option<RecID<LogId>>, LoqErr<FILE, LogId>>)
        ensures
            r == Ok::<Option<RecID<LogId>>, LoqErr<FILE, LogId>>(spec_previous_record(self.entries(), record_id)),
    {
        if record_id.block_id.0 == 0 {
            let prev = match self.offset_log_id(&record_id.log_file_id, -1) {
                Some(p) => p,
                None => return Ok(None),
            };
            let j = match self.find_index(&prev) {
                Some(j) => j,
                None => return Ok(None),
            };
            let count = match self.files[j].2.count() {
                Ok(c) => c,
                Err(_) => return Ok(None),
            };
            if count > 0 {
                Ok(Some(RecID { log_file_id: prev, block_id: BlockId::new(count - 1) }))
            } else {
                Ok(None)
            }
        } else {
            Ok(Some(RecID { log_file_id: record_id.log_file_id, block_id: BlockId::new(record_id.block_id.0 - 1) }))
        }
    }

    /// The data and options of the record `record_id`.
    pub fn read(&self, record_id: RecID<LogId>) -> (r: Result<PreparedRecord, LoqErr<FILE, LogId>>)
        ensures
            spec_last_record_data(self.entries(), record_id) matches Some(d) ==> (r matches Ok(p) ==> p.data@ == d),
            spec_find_last(spec_queue_ids(self.entries()), record_id.log_file_id, self.entries().len() as int) is None
                <==> (r matches Err(LoqErr::LogIdNotMatched { log_id }) && log_id == record_id.log_file_id),
            r matches Err(LoqErr::LogGetBlock { block_id, .. }) ==> block_id == record_id.block_id,
            r is Err ==> r matches Err(LoqErr::LogIdNotMatched { .. }) || r matches Err(LoqErr::LogGetBlock { .. }),
            spec_find_last(spec_queue_ids(self.entries()), record_id.log_file_id, self.entries().len() as int) matches Some(
                i,
            ) ==> {
                &&& (self.entries()[i].2.last().len() == 0 <==> r matches Err(
                    LoqErr::LogGetBlock { error: LogErr::LogIsEmpty, .. },
                ))
                &&& (r matches Ok(p) ==> exists|b: Block| #[trigger]
                    self.entries()[i].2.read_gives(record_id.block_id.0, b) && p.data@ == b.data@ && p.options@
                        == b.head@.options)
                &&& forall|blocks: Seq<(HeadView, Seq<u8>)>|
                    #[trigger] self.entries()[i].2.holds(blocks) && record_id.block_id.0 < blocks.len() ==> ((r matches Ok(
                        p,
                    ) && p.data@ == blocks[record_id.block_id.0 as int].1 && p.options@
                        == blocks[record_id.block_id.0 as int].0.options) || r matches Err(
                        LoqErr::LogGetBlock { error: LogErr::Block(BlockErr::AbsBuff(_)), .. },
                    ))
            },
    {
        let i = match self.find_index(&record_id.log_file_id) {
            Some(i) => i,
            None => return Err(LoqErr::LogIdNotMatched { log_id: record_id.log_file_id }),
        };
        let f = &self.files[i];
        match f.2.read_block(record_id.block_id) {
            Ok(b) => Ok(PreparedRecord { data: b.data, options: b.head.block_options }),
            Err(error) => Err(LoqErr::LogGetBlock { file: f.1.clone(), error, block_id: record_id.block_id }),
        }
    }

    /// Where the record `record_id` lies, and its options.
    pub fn info(&self, record_id: RecID<LogId>) -> (r: Result<RecordInfo<FILE, LogId>, LoqErr<FILE, LogId>>)
        ensures
            spec_find_last(spec_queue_ids(self.entries()), record_id.log_file_id, self.entries().len() as int) is None
                <==> (r matches Err(LoqErr::LogIdNotMatched { log_id }) && log_id == record_id.log_file_id),
            r matches Err(LoqErr::LogGetBlock { block_id, .. }) ==> block_id == record_id.block_id,
            r is Err ==> r matches Err(LoqErr::LogIdNotMatched { .. }) || r matches Err(LoqErr::LogGetBlock { .. }),
            r matches Ok(info) ==> info.log_id == record_id.log_file_id && info.block_id == record_id.block_id,
            spec_last_record_head(self.entries(), record_id) matches Some(h) ==> (r matches Ok(info) ==> info.position.0
                == h.position && info.head_size.0 == h.head_size && info.data_size.0 == h.data_size
                && info.tail_size.0 == h.tail_size && info.block_options@ == h.head.options),
            spec_find_last(spec_queue_ids(self.entries()), record_id.log_file_id, self.entries().len() as int) matches Some(
                i,
            ) ==> {
                &&& (self.entries()[i].2.last().len() == 0 <==> r matches Err(
                    LoqErr::LogGetBlock { error: LogErr::LogIsEmpty, .. },
                ))
                &&& (r matches Ok(info) ==> exists|h: HeadReadView| #[trigger]
                    self.entries()[i].2.header_gives(record_id.block_id.0, h) && info.position.0 == h.position
                        && info.head_size.0 == h.head_size && info.data_size.0 == h.data_size && info.tail_size.0
                        == h.tail_size && info.block_options@ == h.head.options)
                &&& forall|blocks: Seq<(HeadView, Seq<u8>)>|
                    #[trigger] self.entries()[i].2.holds(blocks) && record_id.block_id.0 < blocks.len() ==> ((r matches Ok(
                        info,
                    ) && info.position.0 == spec_stored_head(blocks, record_id.block_id.0 as int).position
                        && info.head_size.0 == spec_stored_head(blocks, record_id.block_id.0 as int).head_size
                        && info.data_size.0 == spec_stored_head(blocks, record_id.block_id.0 as int).data_size
                        && info.block_options@ == blocks[record_id.block_id.0 as int].0.options) || r matches Err(
                        LoqErr::LogGetBlock { error: LogErr::Block(BlockErr::AbsBuff(_)), .. },
                    ))
            },
    {
        let i = match self.find_index(&record_id.log_file_id) {
            Some(i) => i,
            None => return Err(LoqErr::LogIdNotMatched { log_id: record_id.log_file_id }),
        };
        let f = &self.files[i];
        match f.2.read_block_header(record_id.block_id) {
            Ok(h) => Ok(
                RecordInfo {
                    log_file: f.1.clone(),
                    log_id: record_id.log_file_id,
                    block_id: record_id.block_id,
                    block_options: h.head.block_options,
                    position: h.position,
                    head_size: h.head_size,
                    data_size: h.data_size,
                    tail_size: h.tail_size,
                },
            ),
            Err(error) => Err(LoqErr::LogGetBlock { file: f.1.clone(), error, block_id: record_id.block_id }),
        }
    }

    /// Writes `record` as a new block of the tail; returns its name.
    pub fn write(&mut self, record: &PreparedRecord) -> (r: Result<RecID<LogId>, LoqErr<FILE, LogId>>)
        requires
            old(self).well_formed(),
        ensures
            final(self).well_formed(),
            final(self).entries().len() == old(self).entries().len(),
            final(self).entries().drop_last() == old(self).entries().drop_last(),
            final(self).entries().last().0 == old(self).entries().last().0,
            final(self).entries().last().1 == old(self).entries().last().1,
            r is Err ==> r matches Err(LoqErr::LogDataWrite { .. }),
            !spec_block_storable(
                spec_next_head(old(self).entries().last().2.last(), 1024, record.options@),
                record.data@.len(),
            ) ==> r is Err,
            r matches Ok(rec) ==> {
                &&& rec.log_file_id == old(self).entries().last().0
                &&& rec.block_id.0 == old(self).entries().last().2.spec_next_id()
                &&& final(self).entries().last().2.last()[0].head.block_id == rec.block_id.0
                &&& final(self).entries().last().2.last()[0].head.options == record.options@
                &&& final(self).entries().last().2.last()[0].data_size == record.data@.len()
                &&& ({
                    let h = final(self).entries().last().2.last()[0];
                    h.head_size <= PREVIEW_SIZE && h.position + h.head_size + h.data_size + h.tail_size <= u64::MAX
                }) ==> spec_last_record_data(final(self).entries(), rec) == Some(record.data@)
            },
            forall|blocks: Seq<(HeadView, Seq<u8>)>|
                #[trigger] old(self).entries().last().2.holds(blocks) && spec_encode_head(
                    spec_next_head(old(self).entries().last().2.last(), 1024, record.options@),
                    record.data@.len() as u32,
                    TAIL_SIZE,
                ).len() <= PREVIEW_SIZE && spec_append_position(old(self).entries().last().2.last())
                    + spec_encode_block(
                    spec_next_head(old(self).entries().last().2.last(), 1024, record.options@),
                    record.data@,
                ).len() <= u64::MAX ==> (r matches Ok(rec) ==> rec.block_id.0 == blocks.len() && final(self).entries().last().2.holds(
                    blocks.push((spec_next_head(old(self).entries().last().2.last(), 1024, record.options@), record.data@)),
                )),
    {
        let ghost old_files = self.files@;
        let size = record.options.stored_size();
        if !self.files[self.files.len() - 1].2.can_write(&record.options, record.data.len()) {
            let t = &self.files[self.files.len() - 1];
            let error = LogErr::Block(BlockErr::limit("write", Limit(0xffff_ffffu64), size));
            return Err(LoqErr::LogDataWrite { file: t.1.clone(), error });
        }
        let mut t = self.files.pop().unwrap();
        let res = t.2.write_block(&record.options, record.data.as_slice());
        let id = t.0;
        let file = match &res {
            Ok(_) => None,
            Err(_) => Some(t.1.clone()),
        };
        self.files.push(t);
        proof {
            assert(self.files@.drop_last() =~= old_files.drop_last());
            assert forall|i: int| 0 <= i < self.entries().len() implies #[trigger] self.entries()[i].2.well_formed() by {
                if i < old_files.len() - 1 {
                    assert(self.entries()[i] == old_files[i]);
                }
            }
        }
        match res {
            Ok(b_id) => Ok(RecID { log_file_id: id, block_id: b_id }),
            Err(error) => match file {
                Some(file) => Err(LoqErr::LogDataWrite { file, error }),
                None => Err(LoqErr::LogDataWrite { file: self.files[self.files.len() - 1].1.clone(), error }),
            },
        }
    }
}

/// What opening a queue on the files `found` with the strategies of `conf`
/// gives. Where none is found: the error of making a new file, or, for the
/// file `f` it made, what opening its log gives ([spec_open_new]). Else:
/// the error of opening the first file whose log cannot be opened (each
/// opened as a clone of the file found), or the error of checking the
/// opened files, or the queue of the files as checked and ordered
/// ([spec_queue_of]).
pub open spec fn spec_open_found_result<FFind, FOpen, FValidate, FNewFile, LogId: LogQueueFileId, FILE: Clone, B: FlatBuff>(
    conf: LogQueueConf<FFind, FOpen, FValidate, FNewFile>,
    found: Seq<FILE>,
    r: Result<LogFileQueueImpl<LogId, FILE, B>, LoqErr<FILE, LogId>>,
) -> bool where
    FOpen: OpenLogFile<FILE, LogFile<B>, LogId>,
    FValidate: ValidateLogFiles<FILE, LogFile<B>, LogId>,
    FNewFile: FnMut() -> Result<FILE, LoqErr<FILE, LogId>>,
{
    &&& found.len() == 0 ==> (exists|e: LoqErr<FILE, LogId>|
        call_ensures(conf.new_file, (), Err::<FILE, LoqErr<FILE, LogId>>(e))
            && r == Err::<LogFileQueueImpl<LogId, FILE, B>, LoqErr<FILE, LogId>>(e))
        || (exists|f: FILE, c: FILE, o: Result<LogFile<B>, LoqErr<FILE, LogId>>|
        #![trigger conf.open_log_file.opens(c, o), spec_open_new(f, o, r)]
        call_ensures(conf.new_file, (), Ok::<FILE, LoqErr<FILE, LogId>>(f)) && cloned(f, c)
            && conf.open_log_file.opens(c, o) && spec_open_new(f, o, r))
    &&& found.len() > 0 ==> (exists|k: int, c: FILE, e: LoqErr<FILE, LogId>|
        #![trigger spec_opened_upto::<FOpen, FILE, B, LogId>(conf.open_log_file, found, k), conf.open_log_file.opens(c, Err::<LogFile<B>, LoqErr<FILE, LogId>>(e))]
        0 <= k < found.len() && spec_opened_upto::<FOpen, FILE, B, LogId>(conf.open_log_file, found, k)
            && cloned(found[k], c) && conf.open_log_file.opens(c, Err::<LogFile<B>, LoqErr<FILE, LogId>>(e))
            && r == Err::<LogFileQueueImpl<LogId, FILE, B>, LoqErr<FILE, LogId>>(e))
        || (exists|v: Vec<(FILE, LogFile<B>)>, vr: Result<OrderedLogs<(FILE, LogFile<B>)>, LoqErr<FILE, LogId>>|
        spec_opened(conf.open_log_file, found, v@) && #[trigger] conf.validate.validates(v, vr) && match vr {
            Err(e) => r == Err::<LogFileQueueImpl<LogId, FILE, B>, LoqErr<FILE, LogId>>(e),
            Ok(o) => spec_queue_of(o.files@, r),
        })
}

/// How a queue of log files is opened: where its files are found, how one
/// is opened and how the opened ones are checked, and how a new file is
/// made.
pub struct LogQueueConf<FFind, FOpen, FValidate, FNewFile> {
    pub find_files: FFind,
    pub open_log_file: FOpen,
    pub validate: FValidate,
    pub new_file: FNewFile,
}

impl<FFind, FOpen, FValidate, FNewFile> LogQueueConf<FFind, FOpen, FValidate, FNewFile> {
    /// Opens the queue: the files found, checked and in order; where none
    /// is found, a first new file with the first identity.
    pub fn open<LogId: LogQueueFileId, FILE: Clone, B: FlatBuff>(&mut self) -> (r: Result<
        LogFileQueueImpl<LogId, FILE, B>,
        LoqErr<FILE, LogId>,
    >) where
        FFind: FindFiles<FILE, LogId>,
        FOpen: OpenLogFile<FILE, LogFile<B>, LogId>,
        FValidate: ValidateLogFiles<FILE, LogFile<B>, LogId>,
        FNewFile: FnMut() -> Result<FILE, LoqErr<FILE, LogId>>,

        requires
            call_requires(old(self).new_file, ()),
        ensures
            r matches Ok(q) ==> q.well_formed(),
            r matches Ok(q) ==> spec_each_holds_id(q.entries()) || (q.entries().len() == 1 && q.entries()[0].0
                == LogId::spec_new(None) && spec_holds_written(q.entries()[0].0, q.entries()[0].2)),
            exists|fr: Result<Vec<FILE>, LoqErr<FILE, LogId>>| #[trigger] old(self).find_files.finds(fr) && match fr {
                Err(e) => r == Err::<LogFileQueueImpl<LogId, FILE, B>, LoqErr<FILE, LogId>>(e),
                Ok(found) => spec_open_found_result(*old(self), found@, r),
            },
    {
        let searched = self.find_files.find_files();
        let found = match searched {
            Ok(f) => f,
            Err(e) => return Err(e),
        };
        self.open_found(found)
    }

    /// Opens the queue of the files `found`: each opened, then checked and
    /// ordered, each with the identity its log holds; where there is no
    /// file, a first new file, whose empty log gets the first identity.
    pub fn open_found<LogId: LogQueueFileId, FILE: Clone, B: FlatBuff>(&mut self, found: Vec<FILE>) -> (r: Result<
        LogFileQueueImpl<LogId, FILE, B>,
        LoqErr<FILE, LogId>,
    >) where
        FOpen: OpenLogFile<FILE, LogFile<B>, LogId>,
        FValidate: ValidateLogFiles<FILE, LogFile<B>, LogId>,
        FNewFile: FnMut() -> Result<FILE, LoqErr<FILE, LogId>>,

        requires
            found@.len() == 0 ==> call_requires(old(self).new_file, ()),
        ensures
            r matches Ok(q) ==> q.well_formed(),
            found@.len() == 0 ==> (r matches Ok(q) ==> q.entries().len() == 1 && q.entries()[0].0
                == LogId::spec_new(None) && spec_holds_written(q.entries()[0].0, q.entries()[0].2)),
            found@.len() > 0 ==> (r matches Ok(q) ==> spec_each_holds_id(q.entries())),
            spec_open_found_result(*old(self), found@, r),
    {
        if found.len() == 0 {
            let made = (self.new_file)();
            let file_name = match made {
                Ok(f) => f,
                Err(e) => return Err(e),
            };
            let ghost f = file_name;
            let c = file_name.clone();
            let o = self.open_log_file.open_log_file(c);
            let ghost go = o;
            let log = match o {
                Ok(l) => l,
                Err(e) => {
                    let r = Err(e);
                    proof {
                        assert(spec_open_new(f, go, r));
                    }
                    return r;
                },
            };
            if !log.is_well_formed() {
                let r = Err(LoqErr::OpenLog { file: file_name, error: LogErr::Block(BlockErr::generic("too many heads kept")) });
                proof {
                    assert(spec_open_new(f, go, r));
                }
                return r;
            }
            let r = LogFileQueueImpl::create(file_name, log);
            proof {
                assert(spec_open_new(f, go, r));
            }
            return r;
        }
        let mut opened: Vec<(FILE, LogFile<B>)> = Vec::new();
        let mut i: usize = 0;
        while i < found.len()
            invariant
                i <= found.len(),
                self.open_log_file == old(self).open_log_file,
                self.validate == old(self).validate,
                opened@.len() == i,
                spec_opened::<FOpen, FILE, B, LogId>(old(self).open_log_file, found@.take(i as int), opened@),
            decreases found.len() - i,
        {
            let c = found[i].clone();
            let ghost gc = c;
            let kept = found[i].clone();
            let o = self.open_log_file.open_log_file(c);
            proof {
                assert(spec_opened::<FOpen, FILE, B, LogId>(old(self).open_log_file, found@.take(i as int), opened@));
                assert(spec_opened_upto::<FOpen, FILE, B, LogId>(old(self).open_log_file, found@, i as int));
            }
            let log = match o {
                Ok(l) => l,
                Err(e) => return Err(e),
            };
            let ghost o0 = opened@;
            opened.push((kept, log));
            i = i + 1;
            proof {
                assert forall|j: int| 0 <= j < found@.take(i as int).len() implies cloned(found@.take(i as int)[j], #[trigger] opened@[j].0) && exists|c: FILE|
                    cloned(found@.take(i as int)[j], c) && #[trigger] old(self).open_log_file.opens(c, Ok::<LogFile<B>, LoqErr<FILE, LogId>>(opened@[j].1)) by {
                    if j < i - 1 {
                        assert(opened@[j] == o0[j]);
                        assert(found@.take(i as int)[j] == found@.take(i - 1)[j]);
                    } else {
                        assert(found@.take(i as int)[j] == found@[j]);
                        assert(old(self).open_log_file.opens(gc, Ok::<LogFile<B>, LoqErr<FILE, LogId>>(opened@[j].1)));
                    }
                }
            }
        }
        proof {
            assert(found@.take(i as int) =~= found@);
        }
        let checked = self.validate.validate(opened);
        let ordered = match checked {
            Ok(o) => o,
            Err(e) => return Err(e),
        };
        LogFileQueueImpl::from_ordered(ordered)
    }
}

impl<'a, LogId: LogQueueFileId, FILE: Clone, B: FlatBuff> LogNavigationNear for &'a LogFileQueueImpl<LogId, FILE, B> {
    type RecordId = RecID<LogId>;
    type FILE = FILE;
    type LogId = LogId;

    fn next_record(self, record_id: RecID<LogId>) -> (r: Result<Option<RecID<LogId>>, LoqErr<FILE, LogId>>)
        ensures
            r == Ok::<Option<RecID<LogId>>, LoqErr<FILE, LogId>>(spec_next_record(self.entries(), record_id)),
    {
        LogFileQueueImpl::next_record(self, record_id)
    }

    fn previous_record(self, record_id: RecID<LogId>) -> (r: Result<Option<RecID<LogId>>, LoqErr<FILE, LogId>>)
        ensures
            r == Ok::<Option<RecID<LogId>>, LoqErr<FILE, LogId>>(spec_previous_record(self.entries(), record_id)),
    {
        LogFileQueueImpl::previous_record(self, record_id)
    }
}

impl<'a, LogId: LogQueueFileId, FILE: Clone, B: FlatBuff> LogNavigateLast for &'a LogFileQueueImpl<LogId, FILE, B> {
    type RecordId = RecID<LogId>;
    type FILE = FILE;
    type LogId = LogId;

    fn last_record(self) -> (r: Result<Option<RecID<LogId>>, LoqErr<FILE, LogId>>)
        ensures
            self.entries().len() == 0 ==> r == Ok::<Option<RecID<LogId>>, LoqErr<FILE, LogId>>(None),
            self.entries().len() > 0 ==> (self.entries().last().2.spec_next_id() > u32::MAX <==> r matches Err(
                LoqErr::LogCountFail { .. },
            )),
            self.entries().len() > 0 && r is Err ==> (r matches Err(LoqErr::LogCountFail { file, .. }) && cloned(
                self.entries().last().1,
                file,
            )),
            self.entries().len() > 0 && self.entries().last().2.spec_next_id() == 0 ==> r == Ok::<
                Option<RecID<LogId>>,
                LoqErr<FILE, LogId>,
            >(None),
            self.entries().len() > 0 && 0 < self.entries().last().2.spec_next_id() <= u32::MAX ==> r == Ok::<
                Option<RecID<LogId>>,
                LoqErr<FILE, LogId>,
            >(
                Some(
                    RecID {
                        log_file_id: self.entries().last().0,
                        block_id: BlockId((self.entries().last().2.spec_next_id() - 1) as u32),
                    },
                ),
            ),
    {
        LogFileQueueImpl::last_record(self)
    }
}

impl<'a, LogId: LogQueueFileId, FILE: Clone, B: FlatBuff> LogReading for &'a LogFileQueueImpl<LogId, FILE, B> {
    type RecordId = RecID<LogId>;
    type FILE = FILE;
    type LogId = LogId;

    fn read(self, record_id: RecID<LogId>) -> (r: Result<PreparedRecord, LoqErr<FILE, LogId>>)
        ensures
            spec_last_record_data(self.entries(), record_id) matches Some(d) ==> (r matches Ok(p) ==> p.data@ == d),
            spec_find_last(spec_queue_ids(self.entries()), record_id.log_file_id, self.entries().len() as int) is None
                <==> (r matches Err(LoqErr::LogIdNotMatched { log_id }) && log_id == record_id.log_file_id),
            r matches Err(LoqErr::LogGetBlock { block_id, .. }) ==> block_id == record_id.block_id,
            r is Err ==> r matches Err(LoqErr::LogIdNotMatched { .. }) || r matches Err(LoqErr::LogGetBlock { .. }),
            spec_find_last(spec_queue_ids(self.entries()), record_id.log_file_id, self.entries().len() as int) matches Some(
                i,
            ) ==> {
                &&& (self.entries()[i].2.last().len() == 0 <==> r matches Err(
                    LoqErr::LogGetBlock { error: LogErr::LogIsEmpty, .. },
                ))
                &&& (r matches Ok(p) ==> exists|b: Block| #[trigger]
                    self.entries()[i].2.read_gives(record_id.block_id.0, b) && p.data@ == b.data@ && p.options@
                        == b.head@.options)
                &&& forall|blocks: Seq<(HeadView, Seq<u8>)>|
                    #[trigger] self.entries()[i].2.holds(blocks) && record_id.block_id.0 < blocks.len() ==> ((r matches Ok(
                        p,
                    ) && p.data@ == blocks[record_id.block_id.0 as int].1 && p.options@
                        == blocks[record_id.block_id.0 as int].0.options) || r matches Err(
                        LoqErr::LogGetBlock { error: LogErr::Block(BlockErr::AbsBuff(_)), .. },
                    ))
            },
    {
        LogFileQueueImpl::read(self, record_id)
    }

    fn info(self, record_id: RecID<LogId>) -> (r: Result<RecordInfo<FILE, LogId>, LoqErr<FILE, LogId>>)
        ensures
            spec_find_last(spec_queue_ids(self.entries()), record_id.log_file_id, self.entries().len() as int) is None
                <==> (r matches Err(LoqErr::LogIdNotMatched { log_id }) && log_id == record_id.log_file_id),
            r matches Err(LoqErr::LogGetBlock { block_id, .. }) ==> block_id == record_id.block_id,
            r is Err ==> r matches Err(LoqErr::LogIdNotMatched { .. }) || r matches Err(LoqErr::LogGetBlock { .. }),
            r matches Ok(info) ==> info.log_id == record_id.log_file_id && info.block_id == record_id.block_id,
            spec_last_record_head(self.entries(), record_id) matches Some(h) ==> (r matches Ok(info) ==> info.position.0
                == h.position && info.head_size.0 == h.head_size && info.data_size.0 == h.data_size
                && info.tail_size.0 == h.tail_size && info.block_options@ == h.head.options),
            spec_find_last(spec_queue_ids(self.entries()), record_id.log_file_id, self.entries().len() as int) matches Some(
                i,
            ) ==> {
                &&& (self.entries()[i].2.last().len() == 0 <==> r matches Err(
                    LoqErr::LogGetBlock { error: LogErr::LogIsEmpty, .. },
                ))
                &&& (r matches Ok(info) ==> exists|h: HeadReadView| #[trigger]
                    self.entries()[i].2.header_gives(record_id.block_id.0, h) && info.position.0 == h.position
                        && info.head_size.0 == h.head_size && info.data_size.0 == h.data_size && info.tail_size.0
                        == h.tail_size && info.block_options@ == h.head.options)
                &&& forall|blocks: Seq<(HeadView, Seq<u8>)>|
                    #[trigger] self.entries()[i].2.holds(blocks) && record_id.block_id.0 < blocks.len() ==> ((r matches Ok(
                        info,
                    ) && info.position.0 == spec_stored_head(blocks, record_id.block_id.0 as int).position
                        && info.head_size.0 == spec_stored_head(blocks, record_id.block_id.0 as int).head_size
                        && info.data_size.0 == spec_stored_head(blocks, record_id.block_id.0 as int).data_size
                        && info.block_options@ == blocks[record_id.block_id.0 as int].0.options) || r matches Err(
                        LoqErr::LogGetBlock { error: LogErr::Block(BlockErr::AbsBuff(_)), .. },
                    ))
            },
    {
        LogFileQueueImpl::info(self, record_id)
    }
}

} // verus!
