use lsm_engine::error::Error;
use lsm_engine::kv_file::KVFile;
use lsm_engine::kvdb::{KVDb, KeyStatus};
use lsm_engine::segmented_files_db::segment_file::{SegmentFile, SegmentFileFactory};
use lsm_engine::segmented_files_db::{segment_file_name, segment_position};
use lsm_engine::segmented_files_db::{SegmentCreationPolicy, SegmentedDb};
use lsm_engine::segmented_files_db::StoredFile;
use lsm_engine::segmented_logs_with_indices_db::SegmentedLogsWithIndicesDb;
use lsm_engine::sstable::segment_file::{Factory, File, ReaderFactory};
use lsm_engine::sstable::SSTable;

fn hashed(file_size_threshold: u64, merging_threshold: u64) -> SegmentedLogsWithIndicesDb {
    SegmentedLogsWithIndicesDb::new("dir", &Vec::new(), file_size_threshold, merging_threshold)
        .unwrap()
}

fn lsm(merging_threshold: u64, sparsity: u64, memtable_size_threshold: u64) -> SSTable {
    SSTable::new("dir", &Vec::new(), merging_threshold, sparsity, memtable_size_threshold).unwrap()
}

fn stored(name: &str, bytes: &[u8]) -> StoredFile {
    StoredFile { name: name.to_string(), bytes: bytes.to_vec() }
}

fn some(v: &str) -> Option<String> {
    Some(v.to_string())
}

fn keys_of(bytes: &[u8]) -> Vec<(String, KeyStatus<String>)> {
    let file = KVFile::from_bytes("dir", "name", bytes.to_vec()).unwrap();
    let mut iter = file.iter().unwrap();
    let mut out = Vec::new();
    loop {
        match iter.try_next().unwrap() {
            Some(line) => out.push((line.key, line.status)),
            None => return out,
        }
    }
}

#[test]
fn segment_files_are_named_after_their_position() {
    assert_eq!(segment_file_name(0), "segment-0");
    assert_eq!(segment_file_name(7), "segment-7");
    assert_eq!(segment_file_name(10), "segment-10");
    assert_eq!(segment_file_name(1234567890), "segment-1234567890");
}

#[test]
fn basic_reads_and_writes() {
    let mut db = hashed(500, 3);
    db.set("a", "1").unwrap();
    db.set("b", "2").unwrap();
    assert_eq!(db.get("a").unwrap(), some("1"));
    assert_eq!(db.get("b").unwrap(), some("2"));
    assert_eq!(db.get("c").unwrap(), None);
    let mut db = lsm(3, 100, 2000);
    db.set("a", "1").unwrap();
    db.set("b", "2").unwrap();
    assert_eq!(db.get("a").unwrap(), some("1"));
    assert_eq!(db.get("b").unwrap(), some("2"));
    assert_eq!(db.get("c").unwrap(), None);
}

#[test]
fn overwrite_and_delete() {
    let mut db = hashed(500, 3);
    db.set("k", "v1").unwrap();
    db.set("k", "v2").unwrap();
    assert_eq!(db.get("k").unwrap(), some("v2"));
    db.delete("k").unwrap();
    assert_eq!(db.get("k").unwrap(), None);
    let mut db = lsm(3, 100, 2000);
    db.set("k", "v1").unwrap();
    db.set("k", "v2").unwrap();
    assert_eq!(db.get("k").unwrap(), some("v2"));
    db.delete("k").unwrap();
    assert_eq!(db.get("k").unwrap(), None);
    db.flush().unwrap();
    assert_eq!(db.get("k").unwrap(), None);
    db.set("k", "v3").unwrap();
    assert_eq!(db.get("k").unwrap(), some("v3"));
}

#[test]
fn rotation_begins_a_segment_for_each_record() {
    let mut db = hashed(0, 10);
    assert_eq!(db.segment_count(), 1);
    db.set("a", "1").unwrap();
    assert_eq!(db.segment_count(), 1);
    db.set("b", "2").unwrap();
    assert_eq!(db.segment_count(), 2);
    db.set("c", "3").unwrap();
    assert_eq!(db.segment_count(), 3);
    assert_eq!(db.get("a").unwrap(), some("1"));
    assert_eq!(db.get("b").unwrap(), some("2"));
    assert_eq!(db.get("c").unwrap(), some("3"));
    let files = db.files();
    assert_eq!(files.len(), 3);
    assert_eq!(files[0].name, "segment-0");
    assert_eq!(files[0].bytes, b"1:c=1:3\n".to_vec());
    assert_eq!(files[1].name, "segment-1");
    assert_eq!(files[1].bytes, b"1:b=1:2\n".to_vec());
    assert_eq!(files[2].name, "segment-2");
    assert_eq!(files[2].bytes, b"1:a=1:1\n".to_vec());
}

#[test]
fn merge_with_overlap_keeps_the_newer_value() {
    let mut db = hashed(8, 2);
    db.set("a", "1").unwrap();
    db.set("b", "2").unwrap();
    assert_eq!(db.segment_count(), 1);
    db.set("a", "1'").unwrap();
    db.set("c", "3").unwrap();
    assert_eq!(db.segment_count(), 1);
    assert_eq!(db.get("a").unwrap(), some("1'"));
    assert_eq!(db.get("b").unwrap(), some("2"));
    assert_eq!(db.get("c").unwrap(), some("3"));
}

#[test]
fn tombstone_survives_a_merge() {
    let mut db = hashed(8, 2);
    db.set("x", "v").unwrap();
    db.set("y", "w").unwrap();
    db.delete("x").unwrap();
    assert_eq!(db.segment_count(), 1);
    assert_eq!(db.get("x").unwrap(), None);
    assert_eq!(db.get("y").unwrap(), some("w"));
}

#[test]
fn tombstone_in_a_newer_segment_hides_older_values() {
    let mut db = hashed(0, 10);
    db.set("x", "v").unwrap();
    db.set("other", "1").unwrap();
    db.delete("x").unwrap();
    assert_eq!(db.segment_count(), 3);
    assert_eq!(db.get("x").unwrap(), None);
    assert_eq!(db.get("other").unwrap(), some("1"));
    db.set("x", "again").unwrap();
    assert_eq!(db.get("x").unwrap(), some("again"));
}

#[test]
fn flushed_memtables_merge_into_one_sorted_file() {
    let mut db = lsm(2, 10, 6);
    db.set("e", "5").unwrap();
    db.set("a", "1").unwrap();
    db.set("c", "3").unwrap();
    assert_eq!(db.segment_count(), 1);
    assert_eq!(db.files()[0].bytes, b"1:a=1:1\n1:c=1:3\n1:e=1:5\n".to_vec());
    db.set("d", "4").unwrap();
    db.set("c", "3'").unwrap();
    assert_eq!(db.files()[0].bytes, b"1:a=1:1\n1:c=1:3\n1:e=1:5\n".to_vec());
    assert_eq!(db.get("c").unwrap(), some("3'"));
    db.set("b", "2").unwrap();
    assert_eq!(db.segment_count(), 1);
    let files = db.files();
    assert_eq!(files[0].name, "segment-0");
    assert_eq!(files[0].bytes, b"1:a=1:1\n1:b=1:2\n1:c=2:3'\n1:d=1:4\n1:e=1:5\n".to_vec());
    let keys: Vec<String> = keys_of(&files[0].bytes).into_iter().map(|(k, _)| k).collect();
    assert_eq!(keys, vec!["a", "b", "c", "d", "e"]);
    assert_eq!(db.get("a").unwrap(), some("1"));
    assert_eq!(db.get("b").unwrap(), some("2"));
    assert_eq!(db.get("c").unwrap(), some("3'"));
    assert_eq!(db.get("d").unwrap(), some("4"));
    assert_eq!(db.get("e").unwrap(), some("5"));
    assert_eq!(db.get("f").unwrap(), None);
}

#[test]
fn memtable_is_written_out_when_the_estimate_reaches_the_threshold() {
    let mut db = lsm(10, 0, 10);
    db.set("key", "value").unwrap();
    assert_eq!(db.segment_count(), 1);
    db.delete("k").unwrap();
    assert_eq!(db.segment_count(), 1);
    db.delete("z").unwrap();
    assert_eq!(db.segment_count(), 2);
    assert_eq!(db.files()[0].bytes, b"1:k!\n3:key=5:value\n1:z!\n".to_vec());
    db.set("é", "1234567").unwrap();
    assert_eq!(db.segment_count(), 2);
    db.set("", "1").unwrap();
    assert_eq!(db.segment_count(), 3);
    assert_eq!(db.get("é").unwrap(), some("1234567"));
    assert_eq!(db.get("").unwrap(), some("1"));
    assert_eq!(db.get("key").unwrap(), some("value"));
    assert_eq!(db.get("k").unwrap(), None);
}

#[test]
fn flush_of_an_empty_memtable_changes_nothing() {
    let mut db = lsm(4, 0, 100);
    db.flush().unwrap();
    assert_eq!(db.segment_count(), 1);
    db.set("a", "1").unwrap();
    db.flush().unwrap();
    assert_eq!(db.segment_count(), 2);
    db.flush().unwrap();
    assert_eq!(db.segment_count(), 2);
    assert_eq!(db.get("a").unwrap(), some("1"));
}

#[test]
fn segment_count_stays_within_the_merging_threshold() {
    for threshold in 1..6u64 {
        let mut db = hashed(20, threshold);
        let mut table = lsm(threshold, 5, 12);
        for i in 0..60 {
            let key = format!("key{}", i % 17);
            let value = format!("value{}", i);
            db.set(&key, &value).unwrap();
            table.set(&key, &value).unwrap();
            assert!(db.segment_count() as u64 <= threshold);
            assert!(table.segment_count() as u64 <= threshold);
            if i % 5 == 0 {
                db.delete(&key).unwrap();
                table.delete(&key).unwrap();
                assert!(db.segment_count() as u64 <= threshold);
                assert!(table.segment_count() as u64 <= threshold);
                assert_eq!(db.get(&key).unwrap(), None);
                assert_eq!(table.get(&key).unwrap(), None);
            } else {
                assert_eq!(db.get(&key).unwrap(), Some(value.clone()));
                assert_eq!(table.get(&key).unwrap(), Some(value));
            }
        }
    }
}

#[test]
fn engines_agree_with_a_plain_map() {
    let mut model = std::collections::BTreeMap::new();
    let mut db = hashed(30, 3);
    let mut table = lsm(3, 16, 25);
    let mut seed: u64 = 12345;
    for _ in 0..400 {
        seed = seed.wrapping_mul(6364136223846793005).wrapping_add(1442695040888963407);
        let key = format!("k{}", (seed >> 33) % 23);
        let value = format!("v{}", (seed >> 40) % 1000);
        if (seed >> 20) % 4 == 0 {
            model.remove(&key);
            db.delete(&key).unwrap();
            table.delete(&key).unwrap();
        } else {
            model.insert(key.clone(), value.clone());
            db.set(&key, &value).unwrap();
            table.set(&key, &value).unwrap();
        }
        for probe in 0..23 {
            let k = format!("k{}", probe);
            assert_eq!(db.get(&k).unwrap(), model.get(&k).cloned());
            assert_eq!(table.get(&k).unwrap(), model.get(&k).cloned());
        }
    }
    for file in table.files() {
        let keys: Vec<String> = keys_of(&file.bytes).into_iter().map(|(k, _)| k).collect();
        let mut sorted = keys.clone();
        sorted.sort();
        sorted.dedup();
        assert_eq!(keys, sorted);
    }
}

#[test]
fn reopened_store_answers_as_before() {
    let mut db = hashed(10, 4);
    for (k, v) in [("a", "1"), ("b", "2"), ("c", "3"), ("a", "4"), ("d", "5")] {
        db.set(k, v).unwrap();
    }
    db.delete("b").unwrap();
    let files = db.files();
    let again = SegmentedLogsWithIndicesDb::new("dir", &files, 10, 4).unwrap();
    assert_eq!(again.segment_count(), db.segment_count());
    for k in ["a", "b", "c", "d", "e"] {
        assert_eq!(again.get(k).unwrap(), db.get(k).unwrap());
    }
    assert_eq!(again.get("a").unwrap(), some("4"));
    assert_eq!(again.get("b").unwrap(), None);

    let mut table = lsm(4, 3, 8);
    for (k, v) in [("a", "1"), ("b", "2"), ("c", "3"), ("a", "4"), ("d", "5")] {
        table.set(k, v).unwrap();
    }
    table.delete("b").unwrap();
    table.flush().unwrap();
    let files = table.files();
    let again = SSTable::new("dir", &files, 4, 3, 8).unwrap();
    assert_eq!(again.segment_count(), table.segment_count());
    for k in ["a", "b", "c", "d", "e"] {
        assert_eq!(again.get(k).unwrap(), table.get(k).unwrap());
    }
    assert_eq!(again.get("a").unwrap(), some("4"));
    assert_eq!(again.get("b").unwrap(), None);
}

#[test]
fn store_opens_the_segments_of_a_directory_newest_first() {
    let files = vec![
        stored("segment-1", b"1:a=3:old\n1:b=1:2\n"),
        stored("notes.txt", b"not a segment"),
        stored("segment-0", b"1:a=3:new\n"),
        stored("merged_tmp_file.txt", b"1:z=1:9\n"),
        stored("segment-3", b"1:c=1:3\n"),
        stored("segment-0", b"1:a=5:other\n"),
    ];
    let db = SegmentedLogsWithIndicesDb::new("dir", &files, 100, 5).unwrap();
    assert_eq!(db.segment_count(), 3);
    assert_eq!(db.get("a").unwrap(), some("new"));
    assert_eq!(db.get("b").unwrap(), some("2"));
    assert_eq!(db.get("c").unwrap(), some("3"));
    assert_eq!(db.get("z").unwrap(), None);
    let kept = db.files();
    assert_eq!(kept.len(), 3);
    assert_eq!(kept[0].name, "segment-0");
    assert_eq!(kept[0].bytes, b"1:a=3:new\n".to_vec());
    assert_eq!(kept[1].name, "segment-1");
    assert_eq!(kept[1].bytes, b"1:a=3:old\n1:b=1:2\n".to_vec());
    assert_eq!(kept[2].name, "segment-2");
    assert_eq!(kept[2].bytes, b"1:c=1:3\n".to_vec());
    let none = SegmentedLogsWithIndicesDb::new("dir", &vec![stored("segment-1", b"")], 100, 5)
        .unwrap();
    assert_eq!(none.segment_count(), 1);
    assert_eq!(none.files()[0].bytes, Vec::<u8>::new());
}

#[test]
fn store_does_not_open_on_a_corrupt_segment() {
    let files = vec![stored("segment-0", b"1:a=1:1\n"), stored("segment-1", b"1:a=1")];
    assert_eq!(
        SegmentedLogsWithIndicesDb::new("dir", &files, 100, 5).err(),
        Some(Error::MalformedRecord)
    );
    let files = vec![stored("segment-0", b"1:b=1:1\n1:a=1:2\n")];
    assert!(SegmentedLogsWithIndicesDb::new("dir", &files, 100, 5).is_ok());
    assert_eq!(SSTable::new("dir", &files, 5, 0, 100).err(), Some(Error::MalformedRecord));
    let files = vec![stored("segment-0", b"1:a=1:1\n"), stored("segment-2", b"garbage")];
    assert_eq!(SSTable::new("dir", &files, 5, 0, 100).err(), Some(Error::MalformedRecord));
    let files = vec![stored("segment-0", b"1:a=1:1\n"), stored("segment-02", b"garbage")];
    assert!(SSTable::new("dir", &files, 5, 0, 100).is_ok());
}

#[test]
fn store_orders_its_segments_by_position() {
    let files = vec![
        stored("segment-10", b"1:k=2:10\n1:z=1:z\n"),
        stored("segment-9", b"1:k=1:9\n1:y=1:y\n"),
        stored("segment-100", b"1:k=3:100\n1:x=1:x\n"),
        stored("segment-2", b"1:k=1:2\n"),
    ];
    let db = SegmentedLogsWithIndicesDb::new("dir", &files, 100, 9).unwrap();
    assert_eq!(db.segment_count(), 4);
    assert_eq!(db.get("k").unwrap(), some("2"));
    let kept = db.files();
    let bytes: Vec<Vec<u8>> = kept.iter().map(|f| f.bytes.clone()).collect();
    assert_eq!(
        bytes,
        vec![
            b"1:k=1:2\n".to_vec(),
            b"1:k=1:9\n1:y=1:y\n".to_vec(),
            b"1:k=2:10\n1:z=1:z\n".to_vec(),
            b"1:k=3:100\n1:x=1:x\n".to_vec()
        ]
    );
    let names: Vec<String> = kept.into_iter().map(|f| f.name).collect();
    assert_eq!(names, vec!["segment-0", "segment-1", "segment-2", "segment-3"]);
}

#[test]
fn file_names_of_segments_give_their_position() {
    assert_eq!(segment_position("segment-0"), Some(0));
    assert_eq!(segment_position("segment-7"), Some(7));
    assert_eq!(segment_position("segment-1234567890"), Some(1234567890));
    assert_eq!(segment_position(&segment_file_name(usize::MAX)), Some(usize::MAX));
    assert_eq!(segment_position("segment-"), None);
    assert_eq!(segment_position("segment"), None);
    assert_eq!(segment_position(""), None);
    assert_eq!(segment_position("segment-07"), None);
    assert_eq!(segment_position("segment-7 "), None);
    assert_eq!(segment_position("segment-7.txt"), None);
    assert_eq!(segment_position("Segment-7"), None);
    assert_eq!(segment_position("xsegment-7"), None);
    assert_eq!(segment_position("segment--7"), None);
    assert_eq!(segment_position("ségment-7"), None);
    assert_eq!(segment_position("segment-٣"), None);
    assert_eq!(segment_position("segment-99999999999999999999999999"), None);
    assert_eq!(segment_position("merged_tmp_file.txt"), None);
}

#[test]
fn store_merges_down_at_the_first_write_after_opening() {
    let files = vec![
        stored("segment-0", b"1:a=1:0\n"),
        stored("segment-1", b"1:a=1:1\n1:b=1:1\n"),
        stored("segment-2", b"1:b=1:2\n1:c=1:2\n"),
        stored("segment-3", b"1:c=1:3\n1:d=1:3\n"),
    ];
    let mut db = SegmentedLogsWithIndicesDb::new("dir", &files, 100, 2).unwrap();
    assert_eq!(db.segment_count(), 4);
    db.set("e", "4").unwrap();
    assert_eq!(db.segment_count(), 1);
    assert_eq!(db.get("a").unwrap(), some("0"));
    assert_eq!(db.get("b").unwrap(), some("1"));
    assert_eq!(db.get("c").unwrap(), some("2"));
    assert_eq!(db.get("d").unwrap(), some("3"));
    assert_eq!(db.get("e").unwrap(), some("4"));
    let mut table = SSTable::new("dir", &files, 3, 0, 100).unwrap();
    assert_eq!(table.segment_count(), 4);
    table.delete("a").unwrap();
    assert_eq!(table.segment_count(), 2);
    assert_eq!(table.get("a").unwrap(), None);
    assert_eq!(table.get("b").unwrap(), some("1"));
    assert_eq!(table.get("d").unwrap(), some("3"));
}

#[test]
fn thresholds_of_zero_and_one_keep_a_single_segment() {
    for threshold in [0u64, 1] {
        let mut db = hashed(0, threshold);
        for (k, v) in [("a", "1"), ("b", "2"), ("a", "3")] {
            db.set(k, v).unwrap();
            assert_eq!(db.segment_count(), 1);
        }
        assert_eq!(db.get("a").unwrap(), some("3"));
        assert_eq!(db.get("b").unwrap(), some("2"));
    }
}

#[test]
fn manager_with_explicit_heads_writes_to_the_head_it_has() {
    let factory = Factory { dir_path: "dir".to_string(), sparsity: 0 };
    let mut db: SegmentedDb<File, Factory, ReaderFactory> = SegmentedDb::new(
        &Vec::new(),
        3,
        SegmentCreationPolicy::Explicit,
        factory,
        ReaderFactory {},
    )
    .unwrap();
    assert_eq!(db.set("b", "2"), Ok(()));
    assert_eq!(db.set("a", "1"), Err(Error::OutOfOrderWrite));
    assert_eq!(db.delete("b"), Err(Error::OutOfOrderWrite));
    assert_eq!(db.get("a").unwrap(), None);
    assert_eq!(db.get("b").unwrap(), some("2"));
    assert_eq!(db.delete("c"), Ok(()));
    assert_eq!(db.segment_count(), 1);
    let maker = Factory { dir_path: "dir".to_string(), sparsity: 0 };
    let mut head = maker.new("ready").unwrap();
    head.set_status("a", &KeyStatus::Present("1".to_string())).unwrap();
    head.set_status("b", &KeyStatus::Deleted).unwrap();
    db.prepend(head).unwrap();
    assert_eq!(db.segment_count(), 2);
    assert_eq!(db.get("a").unwrap(), some("1"));
    assert_eq!(db.get("b").unwrap(), None);
    let files = db.files();
    assert_eq!(files[0].name, "segment-0");
    assert_eq!(files[0].bytes, b"1:a=1:1\n1:b!\n".to_vec());
    assert_eq!(files[1].name, "segment-1");
    assert_eq!(files[1].bytes, b"1:b=1:2\n1:c!\n".to_vec());
    let mut head = maker.new("ready").unwrap();
    head.set_status("z", &KeyStatus::Present("26".to_string())).unwrap();
    db.prepend(head).unwrap();
    assert_eq!(db.segment_count(), 2);
    let files = db.files();
    assert_eq!(files[0].bytes, b"1:z=2:26\n".to_vec());
    assert_eq!(files[1].bytes, b"1:a=1:1\n1:b!\n1:c!\n".to_vec());
    db.merge().unwrap();
    assert_eq!(db.segment_count(), 2);
}

#[test]
fn stores_describe_themselves() {
    assert_eq!(hashed(1, 2).description(), "segmented logs with indices");
    assert_eq!(lsm(2, 1, 1).description(), "sorted string tables");
}

#[test]
fn merge_pass_keeps_every_answer() {
    let files = vec![
        stored("segment-0", b"1:a!\n1:e=1:0\n"),
        stored("segment-1", b"1:a=1:1\n1:b=1:1\n"),
        stored("segment-2", b"1:b!\n1:c=1:2\n"),
        stored("segment-3", b"1:c=1:3\n1:d=1:3\n"),
    ];
    for threshold in 0..7u64 {
        let factory = Factory { dir_path: "dir".to_string(), sparsity: 4 };
        let mut db: SegmentedDb<File, Factory, ReaderFactory> =
            SegmentedDb::new(&files, threshold, SegmentCreationPolicy::Explicit, factory, ReaderFactory {})
                .unwrap();
        let before: Vec<Option<String>> =
            ["a", "b", "c", "d", "e", "f"].iter().map(|k| db.get(k).unwrap()).collect();
        assert_eq!(before, vec![None, some("1"), some("2"), some("3"), some("0"), None]);
        db.merge().unwrap();
        let expected = if threshold > 4 { 4 } else if threshold >= 2 { threshold - 1 } else { 1 };
        assert_eq!(db.segment_count() as u64, expected);
        db.merge().unwrap();
        assert_eq!(db.segment_count() as u64, expected);
        let after: Vec<Option<String>> =
            ["a", "b", "c", "d", "e", "f"].iter().map(|k| db.get(k).unwrap()).collect();
        assert_eq!(after, before);
        let names: Vec<String> = db.files().into_iter().map(|f| f.name).collect();
        let positions: Vec<String> = (0..expected as usize).map(segment_file_name).collect();
        assert_eq!(names, positions);
    }
}
