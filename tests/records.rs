use simpledb::log_page::{append_to_log_page, empty_log_page, read_log_page};
use simpledb::block_id::BlockId;
use simpledb::commit_record::CommitRecord;
use simpledb::log_record::{
    create_log_record, LogRecord, CHECKPOINT_FLAG, COMMIT_FLAG, ROLLBACK_FLAG, SETINT_FLAG,
    SETSTRING_FLAG, START_FLAG,
};
use simpledb::page::Page;
use simpledb::set_string_record::SetStringRecord;
use simpledb::error::DbError;

#[test]
fn test_commit_record_serialization() {
    let record = CommitRecord::create(123);
    let bytes = record.to_bytes().unwrap();

    let deserialized = create_log_record(&bytes).unwrap();

    assert_eq!(deserialized.op(), COMMIT_FLAG);
    assert_eq!(deserialized.tx_number(), 123);

    match deserialized {
        LogRecord::Commit { tx_num } => assert_eq!(tx_num, 123),
        _ => panic!("Failed to downcast to CommitRecord"),
    }
}

#[test]
fn test_set_string_record_serialization() {
    let blk = BlockId::new("datafile".to_string(), 123);
    let test_string = "Hello, world!".to_string();
    let record = SetStringRecord::create(202, blk, 32, test_string.clone());
    let bytes = record.to_bytes().unwrap();

    let deserialized = create_log_record(&bytes).unwrap();

    assert_eq!(deserialized.op(), SETSTRING_FLAG);
    assert_eq!(deserialized.tx_number(), 202);

    match deserialized {
        LogRecord::SetString { tx_num, blk, offset, val } => {
            assert_eq!(tx_num, 202);
            assert_eq!(offset, 32);
            assert_eq!(val, test_string);
            assert_eq!(blk.filename(), "datafile");
            assert_eq!(blk.number(), 123);
        }
        _ => panic!("Failed to downcast to SetStringRecord"),
    }
}

#[test]
fn commit_record_wire_bytes() {
    let bytes = CommitRecord::create(123).to_bytes().unwrap();
    assert_eq!(bytes, vec![2u8, 123, 0, 0, 0]);
}

#[test]
fn every_kind_round_trips() {
    let recs = vec![
        LogRecord::Checkpoint,
        LogRecord::Start { tx_num: 7 },
        LogRecord::Commit { tx_num: -3 },
        LogRecord::Rollback { tx_num: i32::MAX },
        LogRecord::SetInt { tx_num: 9, blk: BlockId::new("f".to_string(), 4), offset: 80, val: -12345 },
        LogRecord::SetString {
            tx_num: 10,
            blk: BlockId::new("dätä".to_string(), 0),
            offset: 0,
            val: "héllo ✓".to_string(),
        },
    ];
    let tags = [CHECKPOINT_FLAG, START_FLAG, COMMIT_FLAG, ROLLBACK_FLAG, SETINT_FLAG, SETSTRING_FLAG];
    for (r, tag) in recs.iter().zip(tags.iter()) {
        let bytes = r.to_bytes().unwrap();
        assert_eq!(bytes[0] as i32, *tag);
        let back = create_log_record(&bytes).unwrap();
        assert_eq!(back.op(), r.op());
        assert_eq!(back.tx_number(), r.tx_number());
        assert_eq!(format!("{:?}", back), format!("{:?}", r));
    }
}

#[test]
fn set_int_wire_layout() {
    let r = LogRecord::SetInt { tx_num: 1, blk: BlockId::new("ab".to_string(), 2), offset: 3, val: 4 };
    let bytes = r.to_bytes().unwrap();
    let expected: Vec<u8> = vec![
        4, 1, 0, 0, 0, 3, 0, 0, 0, 4, 0, 0, 0, 2, 0, 0, 0, 0, 0, 0, 0, b'a', b'b', 2, 0, 0, 0,
    ];
    assert_eq!(bytes, expected);
}

#[test]
fn unknown_tag_is_a_serialization_error() {
    assert!(matches!(create_log_record(&[9u8, 1, 0, 0, 0]), Err(DbError::Serialization(_))));
    assert!(matches!(create_log_record(&[]), Err(DbError::Serialization(_))));
}

#[test]
fn truncated_record_is_a_serialization_error() {
    assert!(matches!(create_log_record(&[2u8, 1, 0]), Err(DbError::Serialization(_))));
    let bytes = LogRecord::SetString {
        tx_num: 1,
        blk: BlockId::new("f".to_string(), 1),
        offset: 0,
        val: "abc".to_string(),
    }
    .to_bytes()
    .unwrap();
    assert!(matches!(create_log_record(&bytes[..bytes.len() - 1]), Err(DbError::Serialization(_))));
}

#[test]
fn commit_record_from_page() {
    let mut page = Page::new(16);
    page.set_int(0, COMMIT_FLAG);
    page.set_int(4, 55);
    let r = CommitRecord::new(&page);
    assert_eq!(r.tx_number(), 55);
    assert_eq!(r.op(), COMMIT_FLAG);
}

#[test]
fn set_string_record_from_page() {
    let mut page = Page::new(100);
    page.set_int(0, SETSTRING_FLAG);
    page.set_int(4, 202);
    page.set_string(8, "datafile");
    let ml = Page::max_length("datafile".len());
    page.set_int(8 + ml, 123);
    page.set_int(12 + ml, 32);
    page.set_string(16 + ml, "Hello");
    let r = SetStringRecord::new(&page).unwrap();
    assert_eq!(r.tx_number(), 202);
    assert_eq!(r.blk.filename(), "datafile");
    assert_eq!(r.blk.number(), 123);
    assert_eq!(r.offset, 32);
    assert_eq!(r.val, "Hello");
    assert!(matches!(SetStringRecord::new(&Page::new(10)), Err(DbError::Serialization(_))));
}

#[test]
fn page_int_and_string() {
    let mut page = Page::new(32);
    page.set_int(4, -2);
    assert_eq!(page.get_int(4), -2);
    assert_eq!(&page.contents()[4..8], &[0xfe, 0xff, 0xff, 0xff]);
    page.set_string(10, "hé");
    assert_eq!(page.get_string(10), Some("hé".to_string()));
    assert_eq!(page.get_int(10), 3);
    assert_eq!(Page::max_length(5), 9);
    assert_eq!(page.get_string(30), None);
}

#[test]
fn log_block_reads_newest_first() {
    let mut page = empty_log_page(32);
    assert_eq!(read_log_page(&page), Some(vec![]));
    assert!(append_to_log_page(&mut page, &[1, 2, 3]));
    assert!(append_to_log_page(&mut page, &[9]));
    assert_eq!(page.get_int(0), 32 - 7 - 5);
    assert_eq!(read_log_page(&page), Some(vec![vec![9u8], vec![1u8, 2, 3]]));
    assert!(!append_to_log_page(&mut page, &[0u8; 20]));
    assert_eq!(read_log_page(&page), Some(vec![vec![9u8], vec![1u8, 2, 3]]));
}
