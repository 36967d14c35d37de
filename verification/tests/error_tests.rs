use logs::bbuff::absbuff::{ABuffError, ByteBuff as FlatByteBuff, WriteBytesTo};
use logs::logfile::block::{BlockErr, BlockId, BlockOptions, String16, Tail};
use logs::logfile::logfile::{LogErr, LogFile};
use logs::logqueue::log_id::{LogQueueFileId, LogQueueFileNumID};
use logs::logqueue::log_queue::LogFileQueueImpl;
use logs::logqueue::new_file::{NewFileAttempts, NewFileGeneratorErr, NewFileStep};
use logs::logqueue::LoqErr;
use std::time::Duration;

#[test]
fn limited_buffer_refuses_to_grow() {
    let mut b = FlatByteBuff::new_empty(4);
    assert!(b.write_to(0, &[1, 2, 3, 4]).is_ok());
    match b.write_to(2, &[5, 6, 7]) {
        Err(ABuffError::LimitExceeded { limit, target }) => {
            assert_eq!(limit, 4);
            assert_eq!(target, 5);
        },
        other => panic!("unexpected {other:?}"),
    }
    assert_eq!(b.to_vec(), vec![1, 2, 3, 4]);
}

#[test]
fn empty_log_has_no_pointer() {
    let log = LogFile::new(FlatByteBuff::new_empty_unlimited()).unwrap();
    assert!(matches!(log.pointer_to_end(), Err(LogErr::LogIsEmpty)));
    assert!(matches!(log.read_block(BlockId::new(0)), Err(LogErr::LogIsEmpty)));
    assert_eq!(log.count().unwrap(), 0);
}

#[test]
fn jump_forward_is_refused() {
    let mut log = LogFile::new(FlatByteBuff::new_empty_unlimited()).unwrap();
    for n in 0u8..5 {
        log.write_block(&BlockOptions::default(), &[n]).unwrap();
    }
    let p = log.pointer_to_end().unwrap().jump_back(BlockId::new(2)).unwrap();
    match p.jump_back(BlockId::new(3)) {
        Err(LogErr::JumpForwardNotAllowed { from, to }) => {
            assert_eq!(from, BlockId::new(2));
            assert_eq!(to, BlockId::new(3));
        },
        _ => panic!("expected JumpForwardNotAllowed"),
    }
    match p.jump(BlockId::new(9)) {
        Err(LogErr::JumpOutsideLast { last, to }) => {
            assert_eq!(last, BlockId::new(4));
            assert_eq!(to, BlockId::new(9));
        },
        _ => panic!("expected JumpOutsideLast"),
    }
    let first = p.jump_back(BlockId::new(0)).unwrap();
    match first.previous() {
        Err(LogErr::PreviousBlockNotExists(id)) => assert_eq!(id, BlockId::new(0)),
        _ => panic!("expected PreviousBlockNotExists"),
    }
    let last = log.pointer_to_end().unwrap();
    assert!(matches!(last.next(), Err(LogErr::NextBlockNotExists(_))));
}

#[test]
fn long_key_is_refused() {
    let long = "k".repeat(70000);
    match String16::try_from(&long) {
        Err(BlockErr::Limit { limit, target, .. }) => {
            assert_eq!(limit, 65535);
            assert_eq!(target, 70000);
        },
        other => panic!("unexpected {:?}", other.map(|s| s.value().to_string())),
    }
    let mut o = BlockOptions::default();
    assert!(o.set(&long, "v").is_err());
}

#[test]
fn garbage_is_no_log() {
    let mut b = FlatByteBuff::new_empty_unlimited();
    b.write_to(0, &[0u8; 40]).unwrap();
    assert!(LogFile::new(b).is_err());
}

#[test]
fn queue_create_on_used_log_fails() {
    let mut log = LogFile::new(FlatByteBuff::new_empty_unlimited()).unwrap();
    log.write_block(&BlockOptions::default(), &[1]).unwrap();
    match LogFileQueueImpl::<LogQueueFileNumID, String, FlatByteBuff>::create("x".to_string(), log) {
        Err(LoqErr::LogNotEmpty { file }) => assert_eq!(file, "x"),
        Err(other) => panic!("unexpected {other:?}"),
        Ok(_) => panic!("expected an error"),
    }
}

#[test]
fn new_file_attempts_give_up() {
    let mut a = NewFileAttempts::new();
    assert!(matches!(a.begin_attempt(Some(2), None, Duration::from_secs(0)), NewFileStep::Attempt));
    a.attempt_failed("busy".to_string());
    assert!(matches!(a.begin_attempt(Some(2), None, Duration::from_secs(0)), NewFileStep::Attempt));
    a.attempt_failed("busy again".to_string());
    match a.begin_attempt(Some(2), None, Duration::from_secs(0)) {
        NewFileStep::Fail(NewFileGeneratorErr::AttemptLimit { io_erros }) => {
            assert_eq!(io_erros, vec!["busy".to_string(), "busy again".to_string()])
        },
        _ => panic!("expected AttemptLimit"),
    }
    let mut b = NewFileAttempts::new();
    match b.begin_attempt(None, Some(Duration::from_millis(5)), Duration::from_millis(6)) {
        NewFileStep::Fail(NewFileGeneratorErr::DurationLimit { io_erros }) => assert!(io_erros.is_empty()),
        _ => panic!("expected DurationLimit"),
    }
}

#[test]
fn tail_before_start_is_too_early() {
    let b = FlatByteBuff::new_empty_unlimited();
    assert!(matches!(Tail::try_read_block_at(3, &b), Err(BlockErr::PositionToSmall { .. })));
}

#[test]
fn created_queue_reads_back_its_id() {
    let log = LogFile::new(FlatByteBuff::new_empty_unlimited()).unwrap();
    let q = LogFileQueueImpl::<LogQueueFileNumID, String, FlatByteBuff>::create("x".to_string(), log).unwrap();
    let (id, _, log) = &q.files()[0];
    assert_eq!(*id, LogQueueFileNumID { id: 0, previous: None });
    let back = LogQueueFileNumID::read(&"x".to_string(), log).unwrap();
    assert_eq!(back, *id);
    let first = log.read_block(BlockId::new(0)).unwrap();
    assert!(first.data.is_empty());
    assert_eq!(first.head.block_options.get("log_file_id").unwrap().value(), "0");
}
