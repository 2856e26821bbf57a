use lsm_engine::error::Error;
use lsm_engine::kv_file::{parse_record, write_record, KVFile, KVLine};
use lsm_engine::kvdb::KeyStatus;
use lsm_engine::utils::{compare_keys, parse_decimal, push_decimal, KeyOrder};

fn present(v: &str) -> KeyStatus<String> {
    KeyStatus::Present(v.to_string())
}

#[test]
fn decimal_digits_of_numbers() {
    let mut out = Vec::new();
    push_decimal(&mut out, 0);
    assert_eq!(out, b"0".to_vec());
    let mut out = Vec::new();
    push_decimal(&mut out, 7);
    push_decimal(&mut out, 10);
    push_decimal(&mut out, 12345);
    assert_eq!(out, b"71012345".to_vec());
}

#[test]
fn keys_compare_by_their_bytes() {
    assert_eq!(compare_keys("a", "b"), KeyOrder::Less);
    assert_eq!(compare_keys("b", "a"), KeyOrder::Greater);
    assert_eq!(compare_keys("abc", "abc"), KeyOrder::Equal);
    assert_eq!(compare_keys("", "a"), KeyOrder::Less);
    assert_eq!(compare_keys("ab", "abc"), KeyOrder::Less);
    assert_eq!(compare_keys("b", "abc"), KeyOrder::Greater);
    assert_eq!(compare_keys("Z", "a"), KeyOrder::Less);
    assert_eq!(compare_keys("z", "é"), KeyOrder::Less);
}

#[test]
fn numbers_without_padding_are_read() {
    assert_eq!(parse_decimal(b"0", 0), Some(0));
    assert_eq!(parse_decimal(b"x12345", 1), Some(12345));
    assert_eq!(parse_decimal(b"18446744073709551615", 0).map(|n| n as u64), Some(u64::MAX));
    assert_eq!(parse_decimal(b"18446744073709551616", 0), None);
    assert_eq!(parse_decimal(b"99999999999999999999999999999999999999999", 0), None);
    assert_eq!(parse_decimal(b"", 0), None);
    assert_eq!(parse_decimal(b"12", 2), None);
    assert_eq!(parse_decimal(b"012", 0), None);
    assert_eq!(parse_decimal(b"00", 0), None);
    assert_eq!(parse_decimal(b"1a", 0), None);
    assert_eq!(parse_decimal(b"-1", 0), None);
    assert_eq!(parse_decimal(b"1 ", 0), None);
}

#[test]
fn record_of_a_value_is_written_with_lengths() {
    let mut out = Vec::new();
    write_record(&mut out, "a", &present("1"));
    assert_eq!(out, b"1:a=1:1\n".to_vec());
    let mut out = Vec::new();
    write_record(&mut out, "key", &present("value"));
    assert_eq!(out, b"3:key=5:value\n".to_vec());
}

#[test]
fn record_of_a_tombstone_differs_from_an_empty_value() {
    let mut tombstone = Vec::new();
    write_record(&mut tombstone, "a", &KeyStatus::Deleted);
    assert_eq!(tombstone, b"1:a!\n".to_vec());
    let mut empty = Vec::new();
    write_record(&mut empty, "a", &present(""));
    assert_eq!(empty, b"1:a=0:\n".to_vec());
    let (line, next) = parse_record(&empty, 0).unwrap();
    assert_eq!(line.status, present(""));
    assert_eq!(next, 7);
    let (line, next) = parse_record(&tombstone, 0).unwrap();
    assert_eq!(line.status, KeyStatus::Deleted);
    assert_eq!(next, 5);
}

#[test]
fn record_is_read_back_from_its_offset() {
    let mut out = b"1:a=1:1\n".to_vec();
    write_record(&mut out, "second", &present("two"));
    let (line, next) = parse_record(&out, 8).unwrap();
    assert_eq!(
        line,
        KVLine { key: "second".to_string(), status: present("two"), offset: 8 }
    );
    assert_eq!(next, out.len());
}

#[test]
fn text_with_delimiters_inside_is_read_back() {
    let key = "a:b=c!\nd";
    let value = "1:x=\n\n!";
    let mut out = Vec::new();
    write_record(&mut out, key, &present(value));
    let (line, next) = parse_record(&out, 0).unwrap();
    assert_eq!(line.key, key);
    assert_eq!(line.status, present(value));
    assert_eq!(next, out.len());
}

#[test]
fn text_beyond_ascii_is_measured_in_bytes() {
    let mut out = Vec::new();
    write_record(&mut out, "é", &present("日本"));
    assert_eq!(out, "2:é=6:日本\n".as_bytes().to_vec());
    let (line, _) = parse_record(&out, 0).unwrap();
    assert_eq!(line.key, "é");
    assert_eq!(line.status, present("日本"));
}

#[test]
fn bytes_that_are_no_record_are_refused() {
    assert!(parse_record(b"", 0).is_none());
    assert!(parse_record(b"1:a=1:1", 0).is_none());
    assert!(parse_record(b"1:a", 0).is_none());
    assert!(parse_record(b":a=1:1\n", 0).is_none());
    assert!(parse_record(b"2:a=1:1\n", 0).is_none());
    assert!(parse_record(b"1:a?1:1\n", 0).is_none());
    assert!(parse_record(b"1:a=9:1\n", 0).is_none());
    assert!(parse_record(b"1:a!x", 0).is_none());
    assert!(parse_record(b"1a=1:1\n", 0).is_none());
    assert!(parse_record(b"99999999999999999999999999:a=1:1\n", 0).is_none());
    assert!(parse_record(b"1:a=1:1\n", 8).is_none());
}

#[test]
fn bytes_that_are_no_utf8_are_refused() {
    assert!(parse_record(&[b'1', b':', 0xff, b'!', b'\n'], 0).is_none());
    assert!(parse_record(&[b'1', b':', b'a', b'=', b'1', b':', 0xc3, b'\n'], 0).is_none());
    let (line, _) = parse_record(&[b'2', b':', 0xc3, 0xa9, b'!', b'\n'], 0).unwrap();
    assert_eq!(line.key, "é");
}

#[test]
fn length_with_leading_zeros_is_read() {
    let (line, next) = parse_record(b"001:a=0001:1\n", 0).unwrap();
    assert_eq!(line.key, "a");
    assert_eq!(line.status, present("1"));
    assert_eq!(next, 13);
}

#[test]
fn new_file_is_empty() {
    let file = KVFile::new("dir", "name").unwrap();
    assert_eq!(file.size().unwrap(), 0);
    assert_eq!(file.contents(), Vec::<u8>::new());
    assert_eq!(file.file_name(), "name");
    assert_eq!(file.dir_path(), "dir");
    assert_eq!(file.read_at_offset(0).unwrap(), None);
    assert_eq!(file.iter().unwrap().try_next().unwrap(), None);
}

#[test]
fn append_gives_the_offset_of_the_record() {
    let mut file = KVFile::new("dir", "name").unwrap();
    assert_eq!(file.append_line("a", &present("1")).unwrap(), 0);
    assert_eq!(file.append_line("bb", &KeyStatus::Deleted).unwrap(), 8);
    assert_eq!(file.append_line("c", &present("")).unwrap(), 14);
    assert_eq!(file.size().unwrap(), 21);
    assert_eq!(file.contents(), b"1:a=1:1\n2:bb!\n1:c=0:\n".to_vec());
}

#[test]
fn read_at_offset_gives_the_status_there() {
    let mut file = KVFile::new("dir", "name").unwrap();
    file.append_line("a", &present("1")).unwrap();
    file.append_line("bb", &KeyStatus::Deleted).unwrap();
    assert_eq!(file.read_at_offset(0).unwrap(), Some(present("1")));
    assert_eq!(file.read_at_offset(8).unwrap(), Some(KeyStatus::Deleted));
    assert_eq!(file.read_at_offset(14).unwrap(), None);
    assert_eq!(file.read_at_offset(1000).unwrap(), None);
    assert_eq!(file.read_at_offset(u64::MAX).unwrap(), None);
    assert_eq!(file.read_at_offset(3), Err(Error::MalformedRecord));
}

#[test]
fn cursor_gives_the_records_in_file_order() {
    let mut file = KVFile::new("dir", "name").unwrap();
    file.append_line("a", &present("1")).unwrap();
    file.append_line("bb", &KeyStatus::Deleted).unwrap();
    file.append_line("c", &present("3")).unwrap();
    let mut iter = file.iter().unwrap();
    assert_eq!(
        iter.try_next().unwrap(),
        Some(KVLine { key: "a".to_string(), status: present("1"), offset: 0 })
    );
    assert_eq!(
        iter.try_next().unwrap(),
        Some(KVLine { key: "bb".to_string(), status: KeyStatus::Deleted, offset: 8 })
    );
    assert_eq!(
        iter.try_next().unwrap(),
        Some(KVLine { key: "c".to_string(), status: present("3"), offset: 14 })
    );
    assert_eq!(iter.try_next().unwrap(), None);
    assert_eq!(iter.try_next().unwrap(), None);
}

#[test]
fn cursor_from_an_offset_starts_there() {
    let mut file = KVFile::new("dir", "name").unwrap();
    file.append_line("a", &present("1")).unwrap();
    file.append_line("bb", &KeyStatus::Deleted).unwrap();
    let mut iter = file.iter_from_offset(8).unwrap();
    assert_eq!(iter.try_next().unwrap().unwrap().key, "bb");
    assert_eq!(iter.try_next().unwrap(), None);
    let mut iter = file.iter_from_offset(500).unwrap();
    assert_eq!(iter.try_next().unwrap(), None);
    let mut iter = file.iter_from_offset(2).unwrap();
    assert_eq!(iter.try_next(), Err(Error::MalformedRecord));
}

#[test]
fn file_from_bytes_holds_those_bytes() {
    let bytes = b"1:a=1:1\n2:bb!\n".to_vec();
    let file = KVFile::from_bytes("dir", "name", bytes.clone()).unwrap();
    assert_eq!(file.contents(), bytes);
    assert_eq!(file.size().unwrap(), 14);
    assert_eq!(file.read_at_offset(8).unwrap(), Some(KeyStatus::Deleted));
    assert!(KVFile::from_bytes("dir", "name", Vec::new()).is_ok());
}

#[test]
fn file_from_malformed_bytes_is_refused() {
    assert_eq!(
        KVFile::from_bytes("dir", "name", b"1:a=1:1\n2:bb!".to_vec()).err(),
        Some(Error::MalformedRecord)
    );
    assert_eq!(
        KVFile::from_bytes("dir", "name", b"garbage\n".to_vec()).err(),
        Some(Error::MalformedRecord)
    );
    assert_eq!(
        KVFile::from_bytes("dir", "name", b"\n".to_vec()).err(),
        Some(Error::MalformedRecord)
    );
}

#[test]
fn rename_changes_the_name_only() {
    let mut file = KVFile::new("dir", "old").unwrap();
    file.append_line("a", &present("1")).unwrap();
    file.rename("new").unwrap();
    assert_eq!(file.file_name(), "new");
    assert_eq!(file.dir_path(), "dir");
    assert_eq!(file.contents(), b"1:a=1:1\n".to_vec());
}

#[test]
fn copy_reads_what_the_file_held() {
    let mut file = KVFile::new("dir", "name").unwrap();
    file.append_line("a", &present("1")).unwrap();
    let copy = file.copy().unwrap();
    file.append_line("b", &present("2")).unwrap();
    assert_eq!(copy.contents(), b"1:a=1:1\n".to_vec());
    assert_eq!(copy.file_name(), "name");
    assert_eq!(file.size().unwrap(), 16);
    assert!(copy.delete().is_ok());
}
