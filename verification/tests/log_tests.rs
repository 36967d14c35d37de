use logs::tracks::{prefixed, TrackTable};
use logs::bbuff::absbuff::{ByteBuff as FlatByteBuff, BytesCount, WriteBytesTo};
use logs::bbuff::streambuff::{ByteBuff, ByteReader, ByteWriter};
use logs::logfile::block::{BackRefs, Block, BlockHead, BlockId, BlockOptions, DataId, String16, String32};
use logs::logfile::logfile::LogFile;
use logs::logqueue::log_id::{
    BlockReader, BlockWriter, LogIdReadWriteErr, LogQueueFileId, LogQueueFileNumID,
};
use logs::logqueue::log_seq_verifier::{validate_sequence, IdOf, SeqValidateOp};
use logs::logqueue::path_tmpl::{random_letter, random_text, PathTemplateParser};
use logs::logqueue::LoqErr;
use logs::perf::{Counters, Metrics};

#[test]
fn read_write_test() -> Result<(), String> {
    let mut bb = ByteBuff::new();
    bb.write(1u8);
    bb.write(2u16);
    bb.write(3u32);
    bb.write(4u64);

    let mut a: u8 = 0;
    let mut b: u16 = 0;
    let mut c: u32 = 0;
    let mut d: u64 = 0;

    bb.position = 0;

    bb.read(&mut a)?;
    assert!(a == 1u8);

    bb.read(&mut b)?;
    assert!(b == 2);

    bb.read(&mut c)?;
    assert!(c == 3);

    bb.read(&mut d)?;
    assert!(d == 4);

    Ok(())
}

#[test]
fn stream_bytes_are_little_endian() {
    let mut bb = ByteBuff::new();
    bb.write(0x0102u16);
    bb.write(0x03040506u32);
    assert_eq!(bb.buff, vec![2, 1, 6, 5, 4, 3]);
}

#[test]
fn stream_read_past_end_fails() {
    let mut bb = ByteBuff::new();
    bb.write(7u8);
    bb.position = 0;
    let mut x: u32 = 0;
    assert!(bb.read(&mut x).is_err());
}

#[test]
fn test_block_rw() {
    let mut bb = FlatByteBuff::new_empty_unlimited();

    let block = Block {
        head: BlockHead {
            block_id: BlockId::new(0),
            data_type_id: DataId::new(1),
            back_refs: BackRefs::default(),
            block_options: BlockOptions::default(),
        },
        data: vec![1, 2, 3],
    };

    block.write_to(0, &mut bb).unwrap();
    println!("{block_size}", block_size = bb.bytes_count().unwrap());

    let (rblock, _) = Block::read_from(0, &bb).unwrap();
    assert!(rblock.head.block_id == block.head.block_id);
    assert!(rblock.head.data_type_id == block.head.data_type_id);
}

#[test]
fn block_round_trip_keeps_everything() {
    let mut bb = FlatByteBuff::new_empty_unlimited();
    let mut opts = BlockOptions::default();
    opts.set("k", "v").unwrap();
    let mut refs = BackRefs::default();
    refs.refs.push((BlockId::new(3), logs::logfile::block::FileOffset::new(77)));
    let block = Block {
        head: BlockHead {
            block_id: BlockId::new(5),
            data_type_id: DataId::new(9),
            back_refs: refs,
            block_options: opts,
        },
        data: vec![9, 8, 7, 6],
    };
    block.write_to(10, &mut bb).unwrap();
    let (rblock, _) = Block::read_from(10, &bb).unwrap();
    assert_eq!(rblock.head.block_id, BlockId::new(5));
    assert_eq!(rblock.head.data_type_id, DataId::new(9));
    assert_eq!(rblock.data, vec![9, 8, 7, 6]);
    assert_eq!(rblock.head.back_refs.refs.len(), 1);
    assert_eq!(rblock.head.back_refs.refs[0].0, BlockId::new(3));
    assert_eq!(rblock.head.back_refs.refs[0].1.value(), 77);
    assert_eq!(rblock.head.block_options.get("k").unwrap().value(), "v");
}

#[test]
fn blockopts_test_store_restore() {
    let mut bbuf = ByteBuff::new();

    let mut block_opt = BlockOptions::default();
    block_opt.set("key", "value").unwrap();

    bbuf.write(&block_opt);
    assert!(bbuf.buff.len() > 0);

    println!("{:x?}", bbuf.buff);

    let mut block_opt2 = BlockOptions::default();
    bbuf.position = 0;
    bbuf.read(&mut block_opt2).unwrap();

    assert!(block_opt2.len() == block_opt.len());
    assert!(block_opt.len() > 0);

    for (key, value) in block_opt2.entries() {
        println!("{} = {}", key.value(), value.value())
    }
}

#[test]
fn blockopts_set_get_delete() {
    let mut o = BlockOptions::default();
    assert!(o.is_empty());
    o.set("a", "1").unwrap();
    o.set("b", "2").unwrap();
    o.set("a", "3").unwrap();
    assert_eq!(o.len(), 2);
    assert_eq!(o.get("a").unwrap().value(), "3");
    let (k, v) = o.delete("a").unwrap();
    assert_eq!((k.value(), v.value()), ("a", "3"));
    assert!(o.get("a").is_none());
    assert_eq!(o.len(), 1);
}

#[test]
fn string_n_test_store_restore() {
    let mut bbuf = ByteBuff::new();

    let str1 = String16::try_from("value").unwrap();
    bbuf.write(str1.clone());

    let mut str2: String16 = String16::default();
    bbuf.position = 0;
    bbuf.read(&mut str2).unwrap();

    assert!(str1.value() == str2.value());

    let mut bbuf = ByteBuff::new();

    let str1 = String32::try_from("value").unwrap();
    bbuf.write(str1.clone());

    let mut str2: String32 = String32::default();
    bbuf.position = 0;
    bbuf.read(&mut str2).unwrap();

    assert!(str1.value() == str2.value())
}

#[test]
fn string16_rejects_long_text() {
    let long = "x".repeat(70000);
    assert!(String16::try_from(&long).is_err());
    assert!(String32::try_from(&long).is_ok());
}

fn block(id: u32, data: Vec<u8>) -> Block {
    Block {
        head: BlockHead {
            block_id: BlockId::new(id),
            data_type_id: DataId::new(0),
            back_refs: BackRefs::default(),
            block_options: BlockOptions::default(),
        },
        data,
    }
}

#[test]
fn test_empty_create() {
    let bb = FlatByteBuff::new_empty_unlimited();
    let log = LogFile::new(bb);
    assert!(log.is_ok())
}

#[test]
fn test_raw_append_block() {
    let bb = FlatByteBuff::new_empty_unlimited();

    println!("create log from empty buff");
    let mut log = LogFile::new(bb.clone()).unwrap();

    let b0 = block(0, vec![0u8, 1, 2]);
    let b1 = block(1, vec![10u8, 11, 12]);
    let b2 = block(2, vec![20u8, 21, 22]);

    log.append_block(&b0).unwrap();
    log.append_block(&b1).unwrap();
    log.append_block(&b2).unwrap();

    println!("data len {}", log.bytes_count().unwrap());
    println!("log {}", log.to_string());
}

#[test]
fn test_navigation() {
    let bb = FlatByteBuff::new_empty_unlimited();

    println!("create log from empty buff");
    let mut log = LogFile::new(bb.clone()).unwrap();

    let b0 = block(0, vec![0u8, 1, 2]);
    let b1 = block(1, vec![10u8, 11, 12]);
    let b2 = block(2, vec![20u8, 21, 22]);

    log.append_block(&b0).unwrap();
    log.append_block(&b1).unwrap();
    log.append_block(&b2).unwrap();

    let r0 = log.read_head_at(0u64).unwrap();
    assert!(r0.head.block_id == b0.head.block_id);

    let r1 = log.read_next_head(&r0).unwrap();
    let r1 = r1.unwrap();
    assert!(b1.head.block_id == r1.head.block_id);

    let r2 = log.read_next_head(&r1).unwrap();
    let r2 = r2.unwrap();
    assert!(b2.head.block_id == r2.head.block_id);

    let r3 = log.read_next_head(&r2).unwrap();
    assert!(r3.is_none());

    let rr1 = log.read_previous_head(&r2).unwrap();
    let rr1 = rr1.unwrap();
    assert!(rr1.head.block_id == r1.head.block_id);

    let rm0 = log.read_previous_head(&r0).unwrap();
    assert!(rm0.is_none());
}

#[test]
fn test_append_data() {
    let bb = FlatByteBuff::new_empty_unlimited();

    println!("create log from empty buff");
    let mut log = LogFile::new(bb.clone()).unwrap();

    let opts = BlockOptions::default();
    let data = vec![0u8, 1u8];
    let bid0 = log.write_block(&opts, &data).unwrap();
    println!("bid0 = {}", bid0.to_string());

    let bid1 = log.write_block(&opts, &data).unwrap();
    println!("bid1 = {}", bid1.to_string());

    let bid2 = log.write_block(&opts, &data).unwrap();
    println!("bid2 = {}", bid2.to_string());
    assert!(bid2.value() > bid1.value());
    assert!(bid1.value() > bid0.value());
}

#[test]
fn written_blocks_read_back() {
    let mut log = LogFile::new(FlatByteBuff::new_empty_unlimited()).unwrap();
    let mut opts = BlockOptions::default();
    opts.set("x", "y").unwrap();
    let id0 = log.write_block(&opts, &[1, 2, 3]).unwrap();
    let id1 = log.write_block(&BlockOptions::default(), &[4]).unwrap();
    assert_eq!(id0.value(), 0);
    assert_eq!(id1.value(), 1);
    assert_eq!(log.count().unwrap(), 2);
    let b0 = log.read_block(id0).unwrap();
    assert_eq!(b0.data, vec![1, 2, 3]);
    assert_eq!(b0.head.block_options.get("x").unwrap().value(), "y");
    let b1 = log.read_block(id1).unwrap();
    assert_eq!(b1.data, vec![4]);
    assert!(log.read_block(BlockId::new(7)).is_err());
}

#[test]
fn reopened_log_continues_numbering() {
    let mut log = LogFile::new(FlatByteBuff::new_empty_unlimited()).unwrap();
    for n in 0u8..5 {
        log.write_block(&BlockOptions::default(), &[n]).unwrap();
    }
    let bytes = log.bytes_count().unwrap();
    let mut raw = vec![0u8; bytes as usize];
    log.read_raw_bytes(0, &mut raw).unwrap();
    let mut copy = FlatByteBuff::new_empty_unlimited();
    copy.write_to(0, &raw).unwrap();
    let mut log2 = LogFile::new(copy).unwrap();
    let id = log2.write_block(&BlockOptions::default(), &[9]).unwrap();
    assert_eq!(id.value(), 5);
}

#[test]
fn test_pointer() {
    let bb = FlatByteBuff::new_empty_unlimited();
    let mut log = LogFile::new(bb).unwrap();

    for n in 0u8..130 {
        log.write_block(&BlockOptions::default(), &[n, n + 1, n + 2]).unwrap();
    }

    let mut ptr = log.pointer_to_end().unwrap();
    loop {
        let block_head = ptr.current_head();
        println!(
            "pointer to #{b_id:<6} : {data:<18}",
            b_id = block_head.head.block_id.value(),
            data = format!("{:?}", ptr.current_data())
        );

        println!(" back ref");
        for (idx, (b_id, b_off)) in block_head.head.back_refs.refs.iter().enumerate() {
            println!(" [{idx:0>2}] #{b_id:<4} off={b_off:<6}", b_id = b_id.value(), b_off = b_off.value())
        }
        println!("");

        match ptr.previous() {
            Err(_err) => break,
            Ok(next_ptr) => ptr = next_ptr,
        }
    }

    ptr = log.pointer_to_end().unwrap();
    let ptr1 = ptr.jump_back(ptr.current_head().head.block_id).unwrap();
    assert!(ptr.current_head().head.block_id == ptr1.current_head().head.block_id);

    let _ptr1 = ptr.jump_back(BlockId::new(9)).unwrap();
}

#[test]
fn pointer_jumps_land_on_the_block() {
    let mut log = LogFile::new(FlatByteBuff::new_empty_unlimited()).unwrap();
    for n in 0u8..40 {
        log.write_block(&BlockOptions::default(), &[n]).unwrap();
    }
    let ptr = log.pointer_to_end().unwrap();
    assert_eq!(ptr.current_head().head.block_id.value(), 39);
    let p9 = ptr.jump_back(BlockId::new(9)).unwrap();
    assert_eq!(p9.current_head().head.block_id.value(), 9);
    assert_eq!(p9.current_data().unwrap(), vec![9]);
    let p10 = p9.next().unwrap();
    assert_eq!(p10.current_head().head.block_id.value(), 10);
    let p0 = ptr.jump_back(BlockId::new(0)).unwrap();
    assert!(p0.previous().is_err());
    assert!(p9.jump_back(BlockId::new(20)).is_err());
}

#[derive(Debug, Clone, Copy, PartialEq)]
struct IdTest {
    id: u128,
    prev: Option<u128>,
}

impl LogQueueFileId for IdTest {
    fn spec_id(&self) -> u128 {
        self.id
    }
    fn spec_previous(&self) -> Option<u128> {
        self.prev
    }
    fn spec_new(prev: Option<u128>) -> Self {
        Self::new(prev)
    }
    fn id(&self) -> u128 {
        self.id
    }
    fn new(prev: Option<u128>) -> Self {
        Self {
            id: match prev {
                Some(n) => n + 1u128,
                None => 0u128,
            },
            prev: prev,
        }
    }
    fn previous(&self) -> Option<u128> {
        self.prev
    }
}

impl BlockWriter for IdTest {
    fn writes(
        &self,
        _options: BlockOptions,
        _data: Vec<u8>,
        _r: Result<(), LogIdReadWriteErr>,
        _new_options: BlockOptions,
        _new_data: Vec<u8>,
    ) -> bool {
        true
    }
    fn block_write(&self, _options: &mut BlockOptions, _data: &mut Vec<u8>) -> Result<(), LogIdReadWriteErr> {
        Ok(())
    }
}

impl BlockReader for IdTest {
    fn reads(_block: Block, _r: Result<Self, LogIdReadWriteErr>) -> bool {
        true
    }
    fn block_read(_block: &Block) -> Result<Self, LogIdReadWriteErr> {
        Err(LogIdReadWriteErr::ValueNotFound)
    }
}

impl SeqValidateOp<IdTest, IdTest, IdTest> for (IdTest, IdTest) {
    fn spec_items_count(_a: (IdTest, IdTest)) -> Result<u32, LoqErr<IdTest, IdTest>> {
        Ok(1u32)
    }
    fn items_count(_a: &(IdTest, IdTest)) -> Result<u32, LoqErr<IdTest, IdTest>> {
        Ok(1u32)
    }
}

impl IdOf<IdTest, IdTest, IdTest> for (IdTest, IdTest) {
    fn spec_id_of(a: (IdTest, IdTest)) -> Result<IdTest, LoqErr<IdTest, IdTest>> {
        Ok(a.0)
    }
    fn id_of(a: &(IdTest, IdTest)) -> Result<IdTest, LoqErr<IdTest, IdTest>> {
        Ok(a.0.clone())
    }
}

#[test]
fn valid_seq() {
    println!("valid_seq");
    println!("=================");

    let id0 = IdTest::new(None);
    let id1 = IdTest::new(Some(id0.id()));
    let id2 = IdTest::new(Some(id1.id()));
    let id3 = IdTest::new(Some(id2.id()));

    let logs = vec![
        (id3.clone(), id3.clone()),
        (id2.clone(), id2.clone()),
        (id0.clone(), id0.clone()),
        (id1.clone(), id1.clone()),
    ];
    match validate_sequence::<IdTest, IdTest, IdTest>(&logs) {
        Ok(seq) => {
            println!("ok");
            println!("tail = {:?}", seq.tail);
            for itm in seq.files {
                println!(" {itm:?}")
            }
            assert_eq!(seq.tail, (id3, id3));
        },
        Err(err) => {
            println!("err {err:?}");
            assert!(false);
        },
    }
}

#[test]
fn two_heads() {
    println!("two_heads");
    println!("=================");

    let id0 = IdTest::new(None);
    let id1 = IdTest::new(None);
    let id2 = IdTest::new(Some(id1.id()));
    let id3 = IdTest::new(Some(id2.id()));

    let logs = vec![
        (id3.clone(), id3.clone()),
        (id2.clone(), id2.clone()),
        (id0.clone(), id0.clone()),
        (id1.clone(), id1.clone()),
    ];
    match validate_sequence::<IdTest, IdTest, IdTest>(&logs) {
        Ok(seq) => {
            println!("ok");
            println!("tail = {:?}", seq.tail);
            for itm in seq.files {
                println!(" {itm:?}")
            }
            assert!(false);
        },
        Err(err) => {
            println!("err {err:?}");
            match err {
                LoqErr::OpenTwoHeads { heads: _ } => {},
                _ => {
                    assert!(false);
                },
            }
        },
    }
}

#[test]
fn two_refs() {
    println!("two_refs");
    println!("=================");

    let id0 = IdTest::new(None);
    let id1 = IdTest::new(Some(id0.id()));
    let id2 = IdTest::new(Some(id0.id()));
    let id3 = IdTest::new(Some(id2.id()));

    let logs = vec![
        (id3.clone(), id3.clone()),
        (id2.clone(), id2.clone()),
        (id0.clone(), id0.clone()),
        (id1.clone(), id1.clone()),
    ];

    for (id, _) in &logs {
        println!("log {id:?}")
    }

    match validate_sequence::<IdTest, IdTest, IdTest>(&logs) {
        Ok(seq) => {
            println!("ok");
            println!("tail = {:?}", seq.tail);
            for itm in seq.files {
                println!(" {itm:?}")
            }
            assert!(false);
        },
        Err(err) => {
            println!("err {err:?}");
            match err {
                LoqErr::OpenLogDuplicateId { id, files: _ } => {
                    assert!(id == id1)
                },
                _ => {
                    assert!(false);
                },
            }
            assert!(true);
        },
    }
}

#[test]
fn partial_queue() {
    println!("partial_queue");
    println!("=================");

    let id0 = IdTest::new(None);
    let id1 = IdTest::new(Some(id0.id()));
    let id2 = IdTest::new(Some(id1.id()));
    let id3 = IdTest::new(Some(id2.id()));

    let logs = vec![(id1.clone(), id1.clone()), (id2.clone(), id2.clone()), (id3.clone(), id3.clone())];
    match validate_sequence::<IdTest, IdTest, IdTest>(&logs) {
        Ok(seq) => {
            println!("ok");
            println!("tail = {:?}", seq.tail);
            for itm in &seq.files {
                println!(" {itm:?}")
            }
            assert!(seq.files.len() == 3);
            assert!(seq.files[0].0.id == id1.id());
            assert!(seq.files[1].0.id == id2.id());
            assert!(seq.files[2].0.id == id3.id());
        },
        Err(err) => {
            println!("err {err:?}");
            assert!(false);
        },
    }
}

#[test]
fn empty_queue_has_no_head() {
    let logs: Vec<(IdTest, IdTest)> = vec![];
    match validate_sequence::<IdTest, IdTest, IdTest>(&logs) {
        Err(LoqErr::OpenNoHeads) => {},
        other => panic!("unexpected {other:?}"),
    }
}

#[test]
fn num_id_round_trip_through_block() {
    let id = LogQueueFileNumID { id: 12, previous: Some(11) };
    let mut opts = BlockOptions::default();
    let mut data = Vec::new();
    id.block_write(&mut opts, &mut data).unwrap();
    let b = Block {
        head: BlockHead {
            block_id: BlockId::new(0),
            data_type_id: DataId::new(0),
            back_refs: BackRefs::default(),
            block_options: opts,
        },
        data,
    };
    let back = LogQueueFileNumID::block_read(&b).unwrap();
    assert_eq!(back, id);
    assert_eq!(id.to_string(), "LogQueueFileNumID(12, prev=11)");
    let mut opts2 = BlockOptions::default();
    opts2.set("log_file_id", "5").unwrap();
    let mut d2 = Vec::new();
    assert!(id.block_write(&mut opts2, &mut d2).is_err());
}

#[test]
fn parse_template_test() {
    let mut parser = PathTemplateParser::default();

    parser.set_variable("logn", "LOG-a");
    let env = vec![("USER".to_string(), "tester".to_string())];

    let tmpl = parser.parse(
        "/home/${env:USER}/${logn}/${time:yyyy-mm-dd}/${time:hh-mi-ss}-rnd${rnd:5}.log",
        &env,
    );
    match tmpl {
        Ok(path_tmpl) => {
            let generated = path_tmpl.generate(&parser.variables, |fmt: &str| fmt.to_string());
            println!("{generated}");

            parser.set_variable("logn", "LOG-b");

            let generated = path_tmpl.generate(&parser.variables, |fmt: &str| fmt.to_string());
            println!("{generated}");
        },
        _ => {},
    }
}

#[test]
fn path_template_parts() {
    let parser = PathTemplateParser::default().with_variable("logn", "LOG-a");
    let env = vec![("USER".to_string(), "tester".to_string())];
    let t = parser.parse("/home/${env:USER}/${logn}/x-${rnd:4}.log", &env).unwrap();
    let p = t.generate(&parser.variables, |f: &str| f.to_string());
    assert!(p.starts_with("/home/tester/LOG-a/x-"));
    assert!(p.ends_with(".log"));
    assert_eq!(p.len(), "/home/tester/LOG-a/x-".len() + 4 + ".log".len());
    let rnd = &p["/home/tester/LOG-a/x-".len().."/home/tester/LOG-a/x-".len() + 4];
    assert!(rnd.chars().all(|c| c.is_ascii_alphanumeric()));
}

#[test]
fn test_counters() {
    let mut counters = Counters::new();
    counters.inc("name1");
    counters.inc("name1");
    counters.inc("name2");

    for (name, cnt) in counters.entries() {
        println!("{name}={cnt}")
    }
}

#[test]
fn counters_count_and_diff() {
    let mut a = Counters::new();
    a.inc("x");
    a.inc("x");
    a.inc("y");
    assert_eq!(a.get("x"), Some(2));
    assert_eq!(a.get("y"), Some(1));
    assert_eq!(a.get("z"), None);
    assert_eq!(a.entries(), vec![("x".to_string(), 2), ("y".to_string(), 1)]);
    let mut b = a.snapshot();
    b.inc("x");
    b.inc("z");
    let d = a.diff(&b);
    assert_eq!(d.entries(), vec![("x".to_string(), 1), ("y".to_string(), 0), ("z".to_string(), 1)]);
}

#[test]
fn broken_link_is_reported() {
    let id0 = IdTest::new(None);
    let id1 = IdTest::new(Some(0));
    let id3 = IdTest::new(Some(2));
    let logs = vec![(id0, id0), (id1, id1), (id3, id3)];
    match validate_sequence::<IdTest, IdTest, IdTest>(&logs) {
        Err(LoqErr::OpenLogNotFound { prev_id, next_id, .. }) => {
            assert_eq!(prev_id, id1);
            assert_eq!(next_id, id3);
        },
        _ => panic!("expected OpenLogNotFound"),
    }
}

#[test]
fn undefined_variable_is_an_error() {
    let env: Vec<(String, String)> = Vec::new();
    match PathTemplateParser::default().parse("${root}/x.log", &env) {
        Err(e) => assert_eq!(e, "can't read internal variable root"),
        Ok(_) => panic!("expected an error"),
    }
}

#[test]
fn block_eight_points_back_to_seven_five_one() {
    let mut log = LogFile::new(FlatByteBuff::new_empty_unlimited()).unwrap();
    for n in 0u8..9 {
        assert_eq!(log.write_block(&BlockOptions::default(), &[n]).unwrap(), BlockId::new(n as u32));
    }
    let b8 = log.read_block(BlockId::new(8)).unwrap();
    let ids: Vec<u32> = b8.head.back_refs.refs.iter().map(|(id, _)| id.value()).collect();
    assert_eq!(ids, vec![7, 7, 5, 1]);
    for n in 0u8..9 {
        let b = log.read_block(BlockId::new(n as u32)).unwrap();
        assert_eq!(b.data, vec![n]);
    }
    assert!(log.read_block(BlockId::new(9)).is_err());
}

#[test]
fn reopened_log_reads_earlier_blocks() {
    let mut log = LogFile::new(FlatByteBuff::new_empty_unlimited()).unwrap();
    for n in 0u8..5 {
        log.write_block(&BlockOptions::default(), &[n, n]).unwrap();
    }
    let size = log.bytes_count().unwrap() as usize;
    let mut bytes = vec![0u8; size];
    assert_eq!(log.read_raw_bytes(0, &mut bytes).unwrap(), size as u64);
    let mut b = FlatByteBuff::new_empty_unlimited();
    b.write_to(0, &bytes).unwrap();
    let reopened = LogFile::new(b).unwrap();
    assert_eq!(reopened.count().unwrap(), 5);
    for n in 0u8..5 {
        assert_eq!(reopened.read_block(BlockId::new(n as u32)).unwrap().data, vec![n, n]);
    }
    let last = reopened.pointer_to_end().unwrap();
    let before = last.previous().unwrap();
    assert_eq!(before.current_head().head.block_id, BlockId::new(3));
    let again = before.next().unwrap();
    assert_eq!(again.current_head().head.block_id, BlockId::new(4));
    assert!(again.next().is_err());
}

#[test]
fn tracks_count_runs_under_full_names() {
    let mut t = TrackTable::new();
    let name = prefixed("a/", "b");
    assert_eq!(name, "a/b");
    assert!(t.can_add(&name, 5));
    t.add(&name, 5);
    t.add(&name, 7);
    t.add("c", 1);
    let e = t.entries();
    assert_eq!(e.len(), 2);
    assert_eq!(e[0], ("a/b".to_string(), 2, 12));
    assert_eq!(e[1], ("c".to_string(), 1, 1));
}

#[test]
fn random_letter_is_draw_modulo_letters() {
    assert_eq!(random_letter(0), '0');
    assert_eq!(random_letter(9), '9');
    assert_eq!(random_letter(10), 'a');
    assert_eq!(random_letter(35), 'z');
    assert_eq!(random_letter(36), '0');
    assert_eq!(random_letter(u64::MAX), "0123456789abcdefghijklmnopqrstuvwxyz".chars().nth((u64::MAX % 36) as usize).unwrap());
}

#[test]
fn random_text_one_letter_per_draw() {
    assert_eq!(random_text(&vec![1, 11, 37, 35]), "1b1z");
    assert_eq!(random_text(&vec![]), "");
}

#[test]
fn counters_diff_same_either_way() {
    let mut a = Counters::new();
    a.inc("x");
    a.inc("x");
    a.inc("y");
    let mut b = Counters::new();
    b.inc("z");
    b.inc("x");
    b.inc("x");
    b.inc("x");
    b.inc("x");
    let ab = a.diff(&b);
    let ba = b.diff(&a);
    for name in ["x", "y", "z", "w"] {
        assert_eq!(ab.get(name), ba.get(name), "{name}");
    }
    assert_eq!(ab.get("x"), Some(2));
    assert_eq!(ab.get("y"), Some(1));
    assert_eq!(ab.get("z"), Some(1));
    assert_eq!(ab.get("w"), None);
}

#[test]
fn path_template_clone_generates_same_paths() {
    let parser = PathTemplateParser::default().with_variable("logn", "LOG-a");
    let env = vec![("USER".to_string(), "tester".to_string())];
    let t = parser.parse("/home/${env:USER}/${logn}/${time:hh}.log", &env).unwrap();
    let c = t.clone();
    let vars = &parser.variables;
    assert_eq!(c.generate(vars, |f: &str| f.to_string()), t.generate(vars, |f: &str| f.to_string()));
    assert_eq!(c.generate(vars, |f: &str| f.to_string()), "/home/tester/LOG-a/hh.log");
}

#[test]
fn path_template_sees_variable_set_later() {
    let mut parser = PathTemplateParser::default();
    parser.set_variable("logn", "LOG-a");
    let env: Vec<(String, String)> = Vec::new();
    let t = parser.parse("/logs/${logn}.log", &env).unwrap();
    assert_eq!(t.generate(&parser.variables, |f: &str| f.to_string()), "/logs/LOG-a.log");
    parser.set_variable("logn", "LOG-b");
    assert_eq!(t.generate(&parser.variables, |f: &str| f.to_string()), "/logs/LOG-b.log");
}
