use logs::bbuff::absbuff::ByteBuff as FlatByteBuff;
use logs::logfile::block::BlockId;
use logs::logfile::logfile::LogFile;
use logs::logqueue::log_api::PreparedRecord;
use logs::logqueue::log_id::{LogQueueFileNumID, RecID};
use logs::logqueue::log_queue::LogFileQueueImpl;
use logs::logqueue::LoqErr;
use logs::parse::combo::{alternative, Choice};
use logs::parse::digit::{Digit, DigitParser};
use logs::parse::keyword::KeywordsBuilder;
use logs::parse::parser::Parser;
use logs::parse::substr::CharsCount;

type Queue = LogFileQueueImpl<LogQueueFileNumID, String, FlatByteBuff>;

fn empty_log() -> LogFile<FlatByteBuff> {
    LogFile::new(FlatByteBuff::new_empty_unlimited()).unwrap()
}

fn rec(id: u128, prev: Option<u128>, block: u32) -> RecID<LogQueueFileNumID> {
    RecID { log_file_id: LogQueueFileNumID { id, previous: prev }, block_id: BlockId::new(block) }
}

#[test]
fn do_test() {
    let mut log_queue: Queue = LogFileQueueImpl::create("0.binlog".to_string(), empty_log()).unwrap();

    let rec = log_queue.write(&PreparedRecord::from_i32(20)).unwrap();
    println!("log_queue writed, rec id = {:?}", rec);

    let log_files0: Vec<String> = log_queue.files().iter().map(|f| f.1.clone()).collect();
    assert!(log_files0.len() == 1);

    log_queue.switch("1.binlog".to_string(), empty_log()).unwrap();

    let log_files1: Vec<String> = log_queue.files().iter().map(|f| f.1.clone()).collect();
    assert!(log_files1.len() == 2);
    assert!(log_files0[0] == log_files1[0]);
    assert!(log_files1[0] != log_files1[1]);

    let rec1 = log_queue.write(&PreparedRecord::from_i32(30)).unwrap();
    let rec2 = log_queue.write(&PreparedRecord::from_i32(32)).unwrap();
    assert!(rec2.block_id.value() > rec1.block_id.value());
    let rec3 = log_queue.write(&PreparedRecord::from_i32(34)).unwrap();
    assert!(rec3.block_id.value() > rec2.block_id.value());

    let rec4 = log_queue.last_record().unwrap();
    println!("last rec = {:?}", rec4);
    assert_eq!(rec4, Some(rec3));
}

#[test]
fn queue_identities_follow_each_other() {
    let mut q: Queue = LogFileQueueImpl::create("a".to_string(), empty_log()).unwrap();
    assert_eq!(q.current_log_id(), LogQueueFileNumID { id: 0, previous: None });
    let (f, id) = q.switch("b".to_string(), empty_log()).unwrap();
    assert_eq!(f, "b");
    assert_eq!(id, LogQueueFileNumID { id: 1, previous: Some(0) });
    assert_eq!(q.current_log_id(), id);
    assert_eq!(q.tail().1, "b");
    let first = LogQueueFileNumID { id: 0, previous: None };
    assert_eq!(q.offset_log_id(&first, 1), Some(id));
    assert_eq!(q.offset_log_id(&id, -1), Some(first));
    assert_eq!(q.offset_log_id(&id, 1), None);
    assert_eq!(q.offset_log_id(&id, 0), Some(id));
    assert!(q.find_log(&LogQueueFileNumID { id: 7, previous: None }).is_none());
    assert_eq!(q.find_log(&first).unwrap().1, "a");
}

#[test]
fn queue_navigation_crosses_files() {
    let mut q: Queue = LogFileQueueImpl::create("a".to_string(), empty_log()).unwrap();
    q.write(&PreparedRecord::from_i32(1)).unwrap();
    q.switch("b".to_string(), empty_log()).unwrap();
    q.write(&PreparedRecord::from_i32(2)).unwrap();

    let a_last = rec(0, None, 1);
    let b_first = rec(1, Some(0), 0);
    assert_eq!(q.next_record(a_last).unwrap(), Some(b_first.clone()));
    assert_eq!(q.previous_record(b_first).unwrap(), Some(a_last.clone()));
    assert_eq!(q.next_record(rec(0, None, 0)).unwrap(), Some(a_last));
    assert_eq!(q.previous_record(rec(0, None, 0)).unwrap(), None);
    assert_eq!(q.next_record(rec(1, Some(0), 1)).unwrap(), None);
    assert_eq!(q.next_record(rec(5, None, 0)).unwrap(), None);
}

#[test]
fn queue_read_and_info() {
    let mut q: Queue = LogFileQueueImpl::create("a".to_string(), empty_log()).unwrap();
    let r = q.write(&PreparedRecord::from_i32(0x01020304)).unwrap();
    let p = q.read(r).unwrap();
    assert_eq!(p.data, vec![4, 3, 2, 1]);
    let info = q.info(r).unwrap();
    assert_eq!(info.block_id, r.block_id);
    assert_eq!(info.log_file, "a");
    assert_eq!(info.data_size.value(), 4);
    match q.read(rec(9, None, 0)) {
        Err(LoqErr::LogIdNotMatched { log_id }) => assert_eq!(log_id.id, 9),
        _ => panic!("expected LogIdNotMatched"),
    }
    match q.read(rec(0, None, 50)) {
        Err(LoqErr::LogGetBlock { block_id, .. }) => assert_eq!(block_id.value(), 50),
        _ => panic!("expected LogGetBlock"),
    }
}

#[test]
fn queue_create_refuses_non_empty_log() {
    let mut log = empty_log();
    log.write_block(&logs::logfile::block::BlockOptions::default(), &[1]).unwrap();
    assert!(LogFileQueueImpl::<LogQueueFileNumID, String, FlatByteBuff>::create("x".to_string(), log).is_err());
    assert!(LogFileQueueImpl::<LogQueueFileNumID, String, FlatByteBuff>::new(vec![]).is_none());
}

#[test]
fn alternative_parser() {
    let kw = KeywordsBuilder::new("x", &10u8).build();
    let p = alternative(DigitParser::parser(), kw);
    assert_eq!(p.parse("7"), Some((Choice::Left(Digit(7)), CharsCount(1))));
    assert_eq!(p.parse("x"), Some((Choice::Right(10u8), CharsCount(1))));
    assert_eq!(p.parse("y"), None);
}

use logs::logqueue::log_id::LogQueueFileId;
use logs::logqueue::log_queue::LogQueueConf;
use logs::logqueue::log_seq_verifier::OrderedLogs;
use logs::logqueue::logs_open::{FindFiles, OpenLogFile, ValidateLogFiles};

struct NamesFind(Vec<String>);

impl FindFiles<String, LogQueueFileNumID> for NamesFind {
    fn finds(&self, _r: Result<Vec<String>, LoqErr<String, LogQueueFileNumID>>) -> bool {
        true
    }
    fn find_files(&self) -> Result<Vec<String>, LoqErr<String, LogQueueFileNumID>> {
        Ok(self.0.clone())
    }
}

/// Opens "n" as a log whose identity is number n (following n - 1), and
/// "new" as an empty log.
struct NumberedOpen;

impl OpenLogFile<String, LogFile<FlatByteBuff>, LogQueueFileNumID> for NumberedOpen {
    fn opens(&self, _file: String, _r: Result<LogFile<FlatByteBuff>, LoqErr<String, LogQueueFileNumID>>) -> bool {
        true
    }
    fn open_log_file(&self, file: String) -> Result<LogFile<FlatByteBuff>, LoqErr<String, LogQueueFileNumID>> {
        let mut log = empty_log();
        if let Ok(n) = file.parse::<u128>() {
            let id = LogQueueFileNumID { id: n, previous: if n == 0 { None } else { Some(n - 1) } };
            id.write(&file, &mut log)?;
        }
        Ok(log)
    }
}

/// Keeps the files in the order given.
struct AsGiven;

impl ValidateLogFiles<String, LogFile<FlatByteBuff>, LogQueueFileNumID> for AsGiven {
    fn validates(
        &self,
        _log_files: Vec<(String, LogFile<FlatByteBuff>)>,
        _r: Result<OrderedLogs<(String, LogFile<FlatByteBuff>)>, LoqErr<String, LogQueueFileNumID>>,
    ) -> bool {
        true
    }
    fn validate(
        &self,
        log_files: Vec<(String, LogFile<FlatByteBuff>)>,
    ) -> Result<OrderedLogs<(String, LogFile<FlatByteBuff>)>, LoqErr<String, LogQueueFileNumID>> {
        let last = log_files.last().map(|f| f.0.clone()).ok_or(LoqErr::OpenNoHeads)?;
        let tail = (last.clone(), NumberedOpen.open_log_file(last)?);
        Ok(OrderedLogs { tail, files: log_files })
    }
}

#[test]
fn queue_conf_opens_found_files() {
    let mut conf = LogQueueConf {
        find_files: NamesFind(vec!["0".to_string(), "1".to_string()]),
        open_log_file: NumberedOpen,
        validate: AsGiven,
        new_file: || Ok::<String, LoqErr<String, LogQueueFileNumID>>("new".to_string()),
    };
    let q: Queue = conf.open().unwrap();
    assert_eq!(q.files().len(), 2);
    assert_eq!(q.current_log_id(), LogQueueFileNumID { id: 1, previous: Some(0) });
    assert_eq!(q.tail().1, "1");
}

#[test]
fn queue_conf_makes_first_file() {
    let mut conf = LogQueueConf {
        find_files: NamesFind(vec![]),
        open_log_file: NumberedOpen,
        validate: AsGiven,
        new_file: || Ok::<String, LoqErr<String, LogQueueFileNumID>>("new".to_string()),
    };
    let q: Queue = conf.open().unwrap();
    assert_eq!(q.files().len(), 1);
    assert_eq!(q.tail().1, "new");
    assert_eq!(q.current_log_id(), LogQueueFileNumID { id: 0, previous: None });
}

#[test]
fn queue_from_ordered_keeps_order_and_ids() {
    let files: Vec<(String, LogFile<FlatByteBuff>)> = vec!["0", "1", "2"]
        .into_iter()
        .map(|n| (n.to_string(), NumberedOpen.open_log_file(n.to_string()).unwrap()))
        .collect();
    let tail = ("2".to_string(), NumberedOpen.open_log_file("2".to_string()).unwrap());
    let q: Queue = LogFileQueueImpl::from_ordered(OrderedLogs { tail, files }).unwrap();
    assert_eq!(q.files().len(), 3);
    for (k, entry) in q.files().iter().enumerate() {
        assert_eq!(entry.1, k.to_string());
        assert_eq!(entry.0.id, k as u128);
    }
}

#[test]
fn queue_from_ordered_refuses_no_files() {
    let tail = ("0".to_string(), empty_log());
    let r: Result<Queue, _> = LogFileQueueImpl::from_ordered(OrderedLogs { tail, files: vec![] });
    assert!(matches!(r, Err(LoqErr::OpenNoHeads)));
}

#[test]
fn queue_from_ordered_stops_at_unreadable_id() {
    let files = vec![
        ("0".to_string(), NumberedOpen.open_log_file("0".to_string()).unwrap()),
        ("x".to_string(), empty_log()),
    ];
    let tail = ("x".to_string(), empty_log());
    let r: Result<Queue, _> = LogFileQueueImpl::from_ordered(OrderedLogs { tail, files });
    match r {
        Err(LoqErr::CantReadLogId { file, .. }) => assert_eq!(file, "x"),
        _ => panic!("expected CantReadLogId"),
    }
}
