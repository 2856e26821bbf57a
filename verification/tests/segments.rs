use lsm_engine::error::Error;
use lsm_engine::in_memory_db::InMemoryDb;
use lsm_engine::kv_file::KVFile;
use lsm_engine::kvdb::KeyStatus;
use lsm_engine::segmented_files_db::segment_file::{SegmentFile, SegmentFileFactory};
use lsm_engine::segmented_files_db::segment_file::{SegmentReader, SegmentReaderFactory};
use lsm_engine::segmented_logs_with_indices_db::segment_file as hashed;
use lsm_engine::sstable::segment_file as sorted;

fn present(v: &str) -> KeyStatus<String> {
    KeyStatus::Present(v.to_string())
}

fn hashed_factory(threshold: u64) -> hashed::Factory {
    hashed::Factory { dir_path: "dir".to_string(), file_size_threshold: threshold }
}

fn sorted_factory(sparsity: u64) -> sorted::Factory {
    sorted::Factory { dir_path: "dir".to_string(), sparsity }
}

fn sorted_segment(sparsity: u64, name: &str, records: &[(&str, KeyStatus<String>)]) -> sorted::File {
    let mut file = sorted_factory(sparsity).new(name).unwrap();
    for (key, status) in records {
        file.set_status(key, status).unwrap();
    }
    file
}

#[test]
fn hashed_segment_says_what_was_written_last() {
    let mut file = hashed_factory(100).new("segment-0").unwrap();
    assert_eq!(file.get_status("a").unwrap(), None);
    file.set_status("a", &present("1")).unwrap();
    file.set_status("b", &present("2")).unwrap();
    file.set_status("a", &present("3")).unwrap();
    file.set_status("b", &KeyStatus::Deleted).unwrap();
    assert_eq!(file.get_status("a").unwrap(), Some(present("3")));
    assert_eq!(file.get_status("b").unwrap(), Some(KeyStatus::Deleted));
    assert_eq!(file.get_status("c").unwrap(), None);
    assert_eq!(file.contents(), b"1:a=1:1\n1:b=1:2\n1:a=1:3\n1:b!\n".to_vec());
    assert_eq!(file.file_name(), "segment-0");
}

#[test]
fn hashed_segment_is_full_beyond_its_threshold() {
    let mut file = hashed_factory(8).new("segment-0").unwrap();
    assert_eq!(file.ready_to_be_archived().unwrap(), false);
    file.set_status("a", &present("1")).unwrap();
    assert_eq!(file.ready_to_be_archived().unwrap(), false);
    file.set_status("b", &present("2")).unwrap();
    assert_eq!(file.ready_to_be_archived().unwrap(), true);
}

#[test]
fn hashed_lookup_follows_the_index() {
    let mut kvfile = KVFile::new("dir", "name").unwrap();
    kvfile.append_line("a", &present("1")).unwrap();
    kvfile.append_line("b", &present("2")).unwrap();
    let mut index: InMemoryDb<KeyStatus<u64>> = InMemoryDb::new();
    index.set("a", KeyStatus::Present(0));
    index.set("b", KeyStatus::Deleted);
    index.set("c", KeyStatus::Present(8));
    index.set("d", KeyStatus::Present(100));
    index.set("e", KeyStatus::Present(3));
    assert_eq!(hashed::get_status(&index, &kvfile, "a").unwrap(), Some(present("1")));
    assert_eq!(hashed::get_status(&index, &kvfile, "b").unwrap(), Some(KeyStatus::Deleted));
    assert_eq!(hashed::get_status(&index, &kvfile, "c").unwrap(), Some(present("2")));
    assert_eq!(hashed::get_status(&index, &kvfile, "d").unwrap(), None);
    assert_eq!(hashed::get_status(&index, &kvfile, "e"), Err(Error::MalformedRecord));
    assert_eq!(hashed::get_status(&index, &kvfile, "f").unwrap(), None);
}

#[test]
fn hashed_segment_absorbs_what_it_has_no_opinion_on() {
    let factory = hashed_factory(100);
    let mut older = factory.new("segment-1").unwrap();
    older.set_status("a", &present("old")).unwrap();
    older.set_status("b", &present("2")).unwrap();
    older.set_status("x", &KeyStatus::Deleted).unwrap();
    older.set_status("y", &present("w")).unwrap();
    let mut newer = factory.new("segment-0").unwrap();
    newer.set_status("a", &present("new")).unwrap();
    newer.set_status("y", &KeyStatus::Deleted).unwrap();
    {
        let reader = hashed::ReaderFactory {}.new(&older).unwrap();
        assert_eq!(reader.get_status("a").unwrap(), Some(present("old")));
        assert_eq!(reader.get_status("zz").unwrap(), None);
        newer.absorb(&reader).unwrap();
    }
    assert_eq!(newer.get_status("a").unwrap(), Some(present("new")));
    assert_eq!(newer.get_status("b").unwrap(), Some(present("2")));
    assert_eq!(newer.get_status("x").unwrap(), Some(KeyStatus::Deleted));
    assert_eq!(newer.get_status("y").unwrap(), Some(KeyStatus::Deleted));
    assert_eq!(newer.get_status("c").unwrap(), None);
    assert_eq!(newer.file_name(), "segment-0");
    assert_eq!(newer.contents(), b"1:a=3:new\n1:y!\n1:b=1:2\n1:x!\n".to_vec());
    assert!(older.delete().is_ok());
}

#[test]
fn hashed_segment_is_rebuilt_from_its_file() {
    let bytes = b"1:a=1:1\n1:b=1:2\n1:a=1:3\n1:b!\n".to_vec();
    let mut file = hashed_factory(100).from_disk("segment-4", bytes.clone()).unwrap();
    assert_eq!(file.get_status("a").unwrap(), Some(present("3")));
    assert_eq!(file.get_status("b").unwrap(), Some(KeyStatus::Deleted));
    assert_eq!(file.get_status("c").unwrap(), None);
    assert_eq!(file.file_name(), "segment-4");
    assert_eq!(file.contents(), bytes);
    file.set_status("c", &present("9")).unwrap();
    assert_eq!(file.get_status("c").unwrap(), Some(present("9")));
    file.rename("segment-5").unwrap();
    assert_eq!(file.file_name(), "segment-5");
    assert_eq!(file.get_status("a").unwrap(), Some(present("3")));
}

#[test]
fn hashed_segment_is_not_rebuilt_from_a_corrupt_file() {
    let r = hashed_factory(100).from_disk("segment-0", b"1:a=1:1\n1:b".to_vec());
    assert_eq!(r.err(), Some(Error::MalformedRecord));
}

#[test]
fn sorted_segment_takes_ascending_keys_only() {
    let mut file = sorted_factory(0).new("segment-0").unwrap();
    assert_eq!(file.set_status("b", &present("2")), Ok(()));
    assert_eq!(file.set_status("a", &present("1")), Err(Error::OutOfOrderWrite));
    assert_eq!(file.set_status("b", &present("3")), Err(Error::OutOfOrderWrite));
    assert_eq!(file.set_status("c", &KeyStatus::Deleted), Ok(()));
    assert_eq!(file.contents(), b"1:b=1:2\n1:c!\n".to_vec());
    assert_eq!(file.get_status("a").unwrap(), None);
    assert_eq!(file.get_status("b").unwrap(), Some(present("2")));
    assert_eq!(file.get_status("c").unwrap(), Some(KeyStatus::Deleted));
    assert_eq!(file.ready_to_be_archived().unwrap(), false);
}

#[test]
fn sparse_index_takes_the_first_record_and_those_far_enough_behind() {
    let records = [
        ("a", present("1")),
        ("b", present("2")),
        ("c", present("3")),
        ("d", present("4")),
        ("e", present("5")),
    ];
    let every = sorted_segment(0, "s", &records);
    assert_eq!(
        every.index_entries(),
        &vec![
            ("a".to_string(), 0),
            ("b".to_string(), 8),
            ("c".to_string(), 16),
            ("d".to_string(), 24),
            ("e".to_string(), 32)
        ]
    );
    let exact = sorted_segment(8, "s", &records);
    assert_eq!(
        exact.index_entries(),
        &vec![("a".to_string(), 0), ("c".to_string(), 16), ("e".to_string(), 32)]
    );
    let some = sorted_segment(7, "s", &records);
    assert_eq!(some.index_entries().len(), 5);
    let first_only = sorted_segment(1000, "s", &records);
    assert_eq!(first_only.index_entries(), &vec![("a".to_string(), 0)]);
    let none = sorted_segment(5, "s", &[]);
    assert_eq!(none.index_entries(), &vec![]);
}

#[test]
fn sorted_segment_finds_keys_between_index_entries() {
    let records = [
        ("b", present("2")),
        ("d", present("4")),
        ("f", KeyStatus::Deleted),
        ("h", present("8")),
        ("j", present("10")),
    ];
    for sparsity in [0, 8, 9, 20, 1000] {
        let file = sorted_segment(sparsity, "s", &records);
        assert_eq!(file.get_status("a").unwrap(), None);
        assert_eq!(file.get_status("b").unwrap(), Some(present("2")));
        assert_eq!(file.get_status("c").unwrap(), None);
        assert_eq!(file.get_status("d").unwrap(), Some(present("4")));
        assert_eq!(file.get_status("f").unwrap(), Some(KeyStatus::Deleted));
        assert_eq!(file.get_status("g").unwrap(), None);
        assert_eq!(file.get_status("h").unwrap(), Some(present("8")));
        assert_eq!(file.get_status("j").unwrap(), Some(present("10")));
        assert_eq!(file.get_status("k").unwrap(), None);
    }
}

#[test]
fn sorted_lookup_reads_from_the_indexed_offset() {
    let mut kvfile = KVFile::new("dir", "name").unwrap();
    kvfile.append_line("a", &present("1")).unwrap();
    kvfile.append_line("c", &present("3")).unwrap();
    kvfile.append_line("e", &present("5")).unwrap();
    let index = vec![("a".to_string(), 0), ("e".to_string(), 16)];
    assert_eq!(sorted::get_status(&index, &kvfile, "a").unwrap(), Some(present("1")));
    assert_eq!(sorted::get_status(&index, &kvfile, "c").unwrap(), Some(present("3")));
    assert_eq!(sorted::get_status(&index, &kvfile, "e").unwrap(), Some(present("5")));
    assert_eq!(sorted::get_status(&index, &kvfile, "b").unwrap(), None);
    assert_eq!(sorted::get_status(&index, &kvfile, "f").unwrap(), None);
    assert_eq!(sorted::get_status(&index, &kvfile, "").unwrap(), None);
    let empty = KVFile::new("dir", "name").unwrap();
    assert_eq!(sorted::get_status(&Vec::new(), &empty, "a").unwrap(), None);
}

#[test]
fn sorted_segments_merge_in_key_order_and_the_newer_wins() {
    let older = sorted_segment(
        10,
        "segment-1",
        &[("a", present("1")), ("c", present("3")), ("e", present("5"))],
    );
    let mut newer = sorted_segment(
        10,
        "segment-0",
        &[("b", present("2")), ("c", present("3'")), ("d", present("4"))],
    );
    {
        let reader = sorted::ReaderFactory {}.new(&older).unwrap();
        assert_eq!(reader.get_status("c").unwrap(), Some(present("3")));
        newer.absorb(&reader).unwrap();
    }
    assert_eq!(
        newer.contents(),
        b"1:a=1:1\n1:b=1:2\n1:c=2:3'\n1:d=1:4\n1:e=1:5\n".to_vec()
    );
    assert_eq!(newer.file_name(), "segment-0");
    assert_eq!(
        newer.index_entries(),
        &vec![("a".to_string(), 0), ("c".to_string(), 16), ("e".to_string(), 33)]
    );
    assert_eq!(newer.get_status("c").unwrap(), Some(present("3'")));
    assert_eq!(newer.get_status("e").unwrap(), Some(present("5")));
    assert_eq!(newer.set_status("e", &present("6")), Err(Error::OutOfOrderWrite));
    assert_eq!(newer.set_status("f", &present("6")), Ok(()));
}

#[test]
fn sorted_merge_keeps_tombstones_of_the_newer() {
    let older = sorted_segment(0, "segment-1", &[("x", present("v")), ("y", present("w"))]);
    let mut newer = sorted_segment(0, "segment-0", &[("x", KeyStatus::Deleted)]);
    {
        let reader = sorted::ReaderFactory {}.new(&older).unwrap();
        newer.absorb(&reader).unwrap();
    }
    assert_eq!(newer.contents(), b"1:x!\n1:y=1:w\n".to_vec());
    assert_eq!(newer.get_status("x").unwrap(), Some(KeyStatus::Deleted));
    assert_eq!(newer.get_status("y").unwrap(), Some(present("w")));
}

#[test]
fn sorted_merge_of_two_empty_segments_is_empty() {
    let older = sorted_segment(3, "segment-1", &[]);
    let mut newer = sorted_segment(3, "segment-0", &[]);
    {
        let reader = sorted::ReaderFactory {}.new(&older).unwrap();
        newer.absorb(&reader).unwrap();
    }
    assert_eq!(newer.contents(), Vec::<u8>::new());
    assert_eq!(newer.index_entries(), &vec![]);
    assert_eq!(newer.file_name(), "segment-0");
    assert_eq!(newer.set_status("a", &present("1")), Ok(()));
    assert_eq!(newer.index_entries(), &vec![("a".to_string(), 0)]);
}

#[test]
fn sorted_merge_with_an_empty_segment_copies_the_other() {
    let records = [("a", present("1")), ("b", KeyStatus::Deleted), ("c", present("3"))];
    let bytes = b"1:a=1:1\n1:b!\n1:c=1:3\n".to_vec();
    let full = sorted_segment(0, "segment-1", &records);
    let mut empty = sorted_segment(0, "segment-0", &[]);
    {
        let reader = sorted::ReaderFactory {}.new(&full).unwrap();
        empty.absorb(&reader).unwrap();
    }
    assert_eq!(empty.contents(), bytes);
    let none = sorted_segment(0, "segment-1", &[]);
    let mut full = sorted_segment(0, "segment-0", &records);
    {
        let reader = sorted::ReaderFactory {}.new(&none).unwrap();
        full.absorb(&reader).unwrap();
    }
    assert_eq!(full.contents(), bytes);
    assert_eq!(full.index_entries().len(), 3);
}

#[test]
fn sorted_segment_is_rebuilt_from_its_file() {
    let bytes = b"1:a=1:1\n1:b=1:2\n1:c=2:3'\n1:d=1:4\n1:e=1:5\n".to_vec();
    let mut file = sorted_factory(10).from_disk("segment-2", bytes.clone()).unwrap();
    assert_eq!(file.contents(), bytes);
    assert_eq!(file.file_name(), "segment-2");
    assert_eq!(
        file.index_entries(),
        &vec![("a".to_string(), 0), ("c".to_string(), 16), ("e".to_string(), 33)]
    );
    assert_eq!(file.get_status("d").unwrap(), Some(present("4")));
    assert_eq!(file.set_status("e", &present("x")), Err(Error::OutOfOrderWrite));
    assert_eq!(file.set_status("f", &present("x")), Ok(()));
    file.rename("segment-3").unwrap();
    assert_eq!(file.file_name(), "segment-3");
    let empty = sorted_factory(10).from_disk("segment-0", Vec::new()).unwrap();
    assert_eq!(empty.index_entries(), &vec![]);
}

#[test]
fn sorted_segment_is_not_rebuilt_from_an_unsorted_or_corrupt_file() {
    let factory = sorted_factory(0);
    assert_eq!(
        factory.from_disk("s", b"1:b=1:2\n1:a=1:1\n".to_vec()).err(),
        Some(Error::MalformedRecord)
    );
    assert_eq!(
        factory.from_disk("s", b"1:a=1:1\n1:a=1:2\n".to_vec()).err(),
        Some(Error::MalformedRecord)
    );
    assert_eq!(factory.from_disk("s", b"1:a=1:1".to_vec()).err(), Some(Error::MalformedRecord));
}

#[test]
fn sparse_index_entries_point_at_records_of_their_keys() {
    let mut records = Vec::new();
    for i in 0..40 {
        let status = if i % 7 == 0 { KeyStatus::Deleted } else { present(&"v".repeat(i % 5)) };
        records.push((format!("key{:03}", i), status));
    }
    for sparsity in [0u64, 1, 13, 40, 200, 100000] {
        let mut file = sorted_factory(sparsity).new("segment-0").unwrap();
        for (key, status) in &records {
            file.set_status(key, status).unwrap();
        }
        let bytes = file.contents();
        let entries = file.index_entries();
        assert_eq!(entries[0], ("key000".to_string(), 0));
        for pair in entries.windows(2) {
            assert!(pair[0].0 < pair[1].0);
            assert!(pair[1].1 - pair[0].1 > sparsity);
        }
        for (key, offset) in entries {
            let (line, _) = lsm_engine::kv_file::parse_record(&bytes, *offset as usize).unwrap();
            assert_eq!(&line.key, key);
            assert_eq!(line.offset, *offset);
        }
    }
}
