//! The hash-indexed segment: a record file with an index in memory from every
//! key to the offset of its latest record.

use crate::error::Error;
use crate::in_memory_db::{sorted_keys, InMemoryDb};
use crate::kv_file::{entries_of, latest, lemma_entries_push, lemma_latest, lemma_offsets_increase};
use crate::kv_file::{encode_record, lemma_log_entries_append, log_entries, record_at};
use crate::kv_file::{valid_log, KVFile, LineView};
use crate::kv_file::{lines_of, log_lines, next_offset};
use crate::utils::{lemma_str_lt_irreflexive, str_lt};
use crate::kvdb::{opinion, status_view, KeyStatus};
use crate::segmented_files_db::segment_file::{SegmentFile, SegmentFileFactory};
use crate::segmented_files_db::segment_file::{SegmentReader, SegmentReaderFactory};
use vstd::prelude::*;

verus! {

/// What the index keeps for a record: its offset if it holds a value, the
/// tombstone itself if it is one.
pub open spec fn offset_status(line: LineView) -> KeyStatus<u64> {
    match line.status {
        KeyStatus::Present(_) => KeyStatus::Present(line.offset as u64),
        KeyStatus::Deleted => KeyStatus::Deleted,
    }
}

/// The index of a run of records: for each key, what is kept for its latest
/// record.
pub open spec fn index_of_lines(lines: Seq<LineView>) -> Map<Seq<char>, KeyStatus<u64>> {
    Map::new(
        |k: Seq<char>| latest(lines, k) is Some,
        |k: Seq<char>| offset_status(lines[latest(lines, k).unwrap()]),
    )
}

/// One more record overrides the index entry of its key and no other.
pub proof fn lemma_index_push(lines: Seq<LineView>, line: LineView)
    ensures
        index_of_lines(lines.push(line)) == index_of_lines(lines).insert(
            line.key,
            offset_status(line),
        ),
{
    let after = lines.push(line);
    assert(after.drop_last() =~= lines);
    assert forall|k: Seq<char>| #[trigger]
        index_of_lines(after).contains_key(k) implies index_of_lines(after)[k] == index_of_lines(
        lines,
    ).insert(line.key, offset_status(line))[k] by {
        if k != line.key {
            lemma_latest(lines, k);
        }
    }
    assert(index_of_lines(after) =~= index_of_lines(lines).insert(line.key, offset_status(line)));
}

/// What an index and a file say about a key, whether or not they agree: the
/// index decides, and an offset in it is looked up in the file.
pub open spec fn indexed_status(
    index: Map<Seq<char>, KeyStatus<u64>>,
    bytes: Seq<u8>,
    key: Seq<char>,
) -> Result<Option<KeyStatus<Seq<char>>>, Error> {
    match opinion(index, key) {
        None => Ok(None),
        Some(KeyStatus::Deleted) => Ok(Some(KeyStatus::Deleted)),
        Some(KeyStatus::Present(offset)) => if offset >= bytes.len() {
            Ok(None)
        } else {
            match record_at(bytes, offset as int) {
                Some((line, _)) => Ok(Some(line.status)),
                None => Err(Error::MalformedRecord),
            }
        },
    }
}

/// The view of what `get_status` returns.
pub open spec fn result_view(r: Result<Option<KeyStatus<String>>, Error>) -> Result<
    Option<KeyStatus<Seq<char>>>,
    Error,
> {
    match r {
        Ok(s) => Ok(status_view(s)),
        Err(e) => Err(e),
    }
}

/// Where the index is the index of the file's records, the two together say
/// about a key what the latest record about it says.
pub proof fn lemma_indexed_status(kvfile: &KVFile, key: Seq<char>)
    requires
        kvfile.wf(),
    ensures
        indexed_status(index_of_lines(kvfile.lines()), kvfile.bytes(), key) == Ok::<
            Option<KeyStatus<Seq<char>>>,
            Error,
        >(opinion(entries_of(kvfile.lines()), key)),
{
    kvfile.lemma_wf();
    let lines = kvfile.lines();
    lemma_latest(lines, key);
    if latest(lines, key) is Some {
        let i = latest(lines, key).unwrap();
        lemma_offsets_increase(kvfile.bytes(), lines, kvfile.bytes().len() as int, i, i + 1);
        lemma_offsets_increase(
            kvfile.bytes(),
            lines,
            kvfile.bytes().len() as int,
            i,
            lines.len() as int,
        );
        assert(record_at(kvfile.bytes(), lines[i].offset) is Some);
    }
}

/// Looks `key` up in an index, and in the file where the index gives an
/// offset.
pub fn get_status(index: &InMemoryDb<KeyStatus<u64>>, kvfile: &KVFile, key: &str) -> (r: Result<
    Option<KeyStatus<String>>,
    Error,
>)
    requires
        index.wf(),
    ensures
        result_view(r) == indexed_status(index.entries(), kvfile.bytes(), key@),
{
    match index.get(key) {
        Some(KeyStatus::Present(offset)) => kvfile.read_at_offset(*offset),
        Some(KeyStatus::Deleted) => Ok(Some(KeyStatus::Deleted)),
        None => Ok(None),
    }
}

/// The file of a segment after it has absorbed an older one: behind the bytes
/// it had, a record for each of the given keys of the older segment, in their
/// order, that the segment had no opinion on.
pub open spec fn absorbed(
    bytes: Seq<u8>,
    keys: Seq<Seq<char>>,
    mine: Map<Seq<char>, KeyStatus<Seq<char>>>,
    theirs: Map<Seq<char>, KeyStatus<Seq<char>>>,
) -> Seq<u8>
    decreases keys.len(),
{
    if keys.len() == 0 {
        bytes
    } else {
        let before = absorbed(bytes, keys.drop_last(), mine, theirs);
        if mine.contains_key(keys.last()) {
            before
        } else {
            before + encode_record(keys.last(), theirs[keys.last()])
        }
    }
}

/// A read-only handle on a hash-indexed segment.
pub struct Reader<'a> {
    kvfile: KVFile,
    index: &'a InMemoryDb<KeyStatus<u64>>,
}

impl<'a> Reader<'a> {
    /// The keys that the segment has an opinion on, in ascending order.
    pub closed spec fn keys(&self) -> Seq<Seq<char>> {
        self.index.key_seq()
    }

    /// The keys of a sound handle ascend, and are the keys that the file has
    /// a record about.
    pub proof fn lemma_keys(&self)
        requires
            self.wf(),
        ensures
            sorted_keys(self.keys()),
            forall|k: Seq<char>|
                log_entries(self.bytes()).contains_key(k) <==> self.keys().contains(k),
    {
        self.index.lemma_wf();
        self.kvfile.lemma_wf();
        assert forall|k: Seq<char>|
            log_entries(self.bytes()).contains_key(k) <==> self.keys().contains(k) by {
            assert(index_of_lines(self.kvfile.lines()).contains_key(k) == entries_of(
                self.kvfile.lines(),
            ).contains_key(k));
        }
    }
}

impl<'a> SegmentReader for Reader<'a> {
    closed spec fn wf(&self) -> bool {
        &&& self.kvfile.wf()
        &&& self.index.wf()
        &&& self.index.entries() == index_of_lines(self.kvfile.lines())
    }

    closed spec fn bytes(&self) -> Seq<u8> {
        self.kvfile.bytes()
    }

    fn get_status(&self, key: &str) -> (r: Result<Option<KeyStatus<String>>, Error>) {
        proof {
            self.kvfile.lemma_wf();
            lemma_indexed_status(&self.kvfile, key@);
        }
        get_status(self.index, &self.kvfile, key)
    }
}

/// A hash-indexed segment.
pub struct File {
    kvfile: KVFile,
    index: InMemoryDb<KeyStatus<u64>>,
    file_size_threshold: u64,
}

impl File {
    /// The records of the segment's file.
    pub closed spec fn lines(&self) -> Seq<LineView> {
        self.kvfile.lines()
    }

    /// The index of the segment.
    pub closed spec fn index(&self) -> Map<Seq<char>, KeyStatus<u64>> {
        self.index.entries()
    }

    /// The size in bytes beyond which the segment is to be archived.
    pub closed spec fn threshold(&self) -> u64 {
        self.file_size_threshold
    }

    /// The index of a sound segment is the index of its records, which are
    /// the records of its bytes.
    pub proof fn lemma_index(&self)
        requires
            self.wf(),
        ensures
            self.index() == index_of_lines(self.lines()),
            self.lines() == lines_of(self.bytes()),
            log_entries(self.bytes()) == entries_of(self.lines()),
    {
        self.kvfile.lemma_wf();
    }
}

impl SegmentFile for File {
    type Reader<'a> = Reader<'a>;

    closed spec fn wf(&self) -> bool {
        &&& self.kvfile.wf()
        &&& self.index.wf()
        &&& self.index.entries() == index_of_lines(self.kvfile.lines())
    }

    closed spec fn bytes(&self) -> Seq<u8> {
        self.kvfile.bytes()
    }

    closed spec fn name(&self) -> Seq<char> {
        self.kvfile.name()
    }

    open spec fn accepts(&self, key: Seq<char>) -> bool {
        true
    }

    open spec fn full(&self) -> bool {
        self.bytes().len() > self.threshold()
    }

    open spec fn valid_image(bytes: Seq<u8>) -> bool {
        valid_log(bytes)
    }

    open spec fn parameter(&self) -> u64 {
        self.threshold()
    }

    proof fn lemma_wf(&self) {
        self.kvfile.lemma_wf();
    }

    fn get_status(&self, key: &str) -> (r: Result<Option<KeyStatus<String>>, Error>) {
        proof {
            self.kvfile.lemma_wf();
            lemma_indexed_status(&self.kvfile, key@);
        }
        get_status(&self.index, &self.kvfile, key)
    }

    fn ready_to_be_archived(&self) -> (r: Result<bool, Error>) {
        Ok(self.kvfile.size()? > self.file_size_threshold)
    }

    fn set_status(&mut self, key: &str, status: &KeyStatus<String>) -> (r: Result<(), Error>)
        ensures
            final(self).lines() == old(self).lines().push(
                LineView { key: key@, status: status@, offset: old(self).bytes().len() as int },
            ),
            final(self).threshold() == old(self).threshold(),
    {
        proof {
            self.kvfile.lemma_wf();
            lemma_log_entries_append(self.kvfile.bytes(), key@, status@);
        }
        let offset = self.kvfile.append_line(key, status)?;
        let entry = match status {
            KeyStatus::Present(_) => KeyStatus::Present(offset),
            KeyStatus::Deleted => KeyStatus::Deleted,
        };
        self.index.set(key, entry);
        proof {
            lemma_index_push(
                old(self).kvfile.lines(),
                LineView { key: key@, status: status@, offset: old(self).bytes().len() as int },
            );
        }
        Ok(())
    }

    fn absorb<'a>(&mut self, other: &Reader<'a>) -> (r: Result<(), Error>)
        ensures
            final(self).threshold() == old(self).threshold(),
            final(self).bytes() == absorbed(
                old(self).bytes(),
                other.keys(),
                log_entries(old(self).bytes()),
                log_entries(other.bytes()),
            ),
    {
        let keys = other.index.keys();
        let ghost ks = other.index.key_seq();
        let ghost mine = entries_of(self.kvfile.lines());
        let ghost theirs = entries_of(other.kvfile.lines());
        let ghost start = self.kvfile.bytes();
        proof {
            other.index.lemma_wf();
            other.kvfile.lemma_wf();
            self.kvfile.lemma_wf();
            assert(ks.take(0) =~= Seq::<Seq<char>>::empty());
        }
        let mut i: usize = 0;
        while i < keys.len()
            invariant
                i <= keys@.len(),
                keys@.map_values(|k: String| k@) == ks,
                other.wf(),
                self.wf(),
                self.name() == old(self).name(),
                self.threshold() == old(self).threshold(),
                theirs == entries_of(other.kvfile.lines()),
                theirs == log_entries(other.bytes()),
                sorted_keys(ks),
                self.kvfile.bytes() == absorbed(start, ks.take(i as int), mine, theirs),
                forall|j: int| 0 <= j < ks.len() ==> theirs.contains_key(#[trigger] ks[j]),
                forall|k: Seq<char>| #[trigger]
                    mine.contains_key(k) ==> entries_of(self.kvfile.lines()).contains_key(k)
                        && entries_of(self.kvfile.lines())[k] == mine[k],
                forall|k: Seq<char>| #[trigger]
                    entries_of(self.kvfile.lines()).contains_key(k) && !mine.contains_key(k)
                        ==> theirs.contains_key(k) && entries_of(self.kvfile.lines())[k]
                        == theirs[k] && ks.take(i as int).contains(k),
                forall|j: int|
                    0 <= j < i ==> entries_of(self.kvfile.lines()).contains_key(#[trigger] ks[j]),
            decreases keys@.len() - i,
        {
            let key = keys[i].as_str();
            let ghost lines_before = self.kvfile.lines();
            let ghost size_before = self.kvfile.bytes().len() as int;
            assert(key@ == ks[i as int]);
            assert(theirs.contains_key(ks[i as int]));
            proof {
                assert(ks.take(i + 1).drop_last() =~= ks.take(i as int));
                assert(ks.take(i + 1).last() == key@);
                assert forall|k: Seq<char>| ks.take(i as int).contains(k) implies ks.take(
                    i + 1,
                ).contains(k) by {
                    let j = ks.take(i as int).index_of(k);
                    assert(ks.take(i + 1)[j] == k);
                }
                assert(ks.take(i + 1)[i as int] == key@);
                if ks.take(i as int).contains(key@) {
                    let j = ks.take(i as int).index_of(key@);
                    assert(str_lt(ks[j], ks[i as int]));
                    lemma_str_lt_irreflexive(key@);
                }
                lemma_latest(lines_before, key@);
            }
            if self.index.get(key).is_none() {
                assert(!entries_of(lines_before).contains_key(key@));
                let found = other.get_status(key)?;
                let status = found.unwrap();
                self.set_status(key, &status)?;
                proof {
                    lemma_entries_push(
                        lines_before,
                        LineView { key: key@, status: status@, offset: size_before },
                    );
                }
            } else {
                assert(entries_of(lines_before).contains_key(key@));
            }
            i += 1;
        }
        proof {
            self.kvfile.lemma_wf();
            let cur = entries_of(self.kvfile.lines());
            assert(ks.take(i as int) =~= ks);
            assert forall|k: Seq<char>| theirs.contains_key(k) implies cur.contains_key(k) by {
                other.index.lemma_wf();
                other.kvfile.lemma_wf();
                assert(index_of_lines(other.kvfile.lines()).contains_key(k));
                let j = ks.index_of(k);
                assert(ks[j] == k);
            }
            assert(cur =~= theirs.union_prefer_right(mine));
        }
        Ok(())
    }

    fn rename(&mut self, new_file_name: &str) -> (r: Result<(), Error>)
        ensures
            final(self).lines() == old(self).lines(),
            final(self).threshold() == old(self).threshold(),
    {
        self.kvfile.rename(new_file_name)
    }

    fn delete(self) -> (r: Result<(), Error>) {
        self.kvfile.delete()
    }

    fn file_name(&self) -> (r: String) {
        self.kvfile.file_name().to_owned()
    }

    fn contents(&self) -> (r: Vec<u8>) {
        self.kvfile.contents()
    }
}

/// Makes read-only handles on hash-indexed segments.
pub struct ReaderFactory {}

impl SegmentReaderFactory<File> for ReaderFactory {
    fn new<'a>(&self, file: &'a File) -> (r: Result<Reader<'a>, Error>) {
        Ok(Reader { kvfile: file.kvfile.copy()?, index: &file.index })
    }
}

/// Makes hash-indexed segments in one directory, all with one size threshold.
pub struct Factory {
    pub dir_path: String,
    pub file_size_threshold: u64,
}

impl SegmentFileFactory<File> for Factory {
    open spec fn parameter(&self) -> u64 {
        self.file_size_threshold
    }

    fn new(&self, file_name: &str) -> (r: Result<File, Error>)
        ensures
            r.unwrap().threshold() == self.file_size_threshold,
    {
        let kvfile = KVFile::new(self.dir_path.as_str(), file_name)?;
        let index = InMemoryDb::new();
        proof {
            assert(index_of_lines(Seq::<LineView>::empty()) =~= Map::<
                Seq<char>,
                KeyStatus<u64>,
            >::empty());
        }
        Ok(File { kvfile, index, file_size_threshold: self.file_size_threshold })
    }

    fn from_disk(&self, file_name: &str, bytes: Vec<u8>) -> (r: Result<File, Error>)
        ensures
            r matches Ok(f) ==> f.threshold() == self.file_size_threshold,
    {
        let kvfile = KVFile::from_bytes(self.dir_path.as_str(), file_name, bytes)?;
        let mut index: InMemoryDb<KeyStatus<u64>> = InMemoryDb::new();
        let mut iter = kvfile.iter()?;
        let ghost lines = kvfile.lines();
        let ghost mut n: int = 0;
        proof {
            kvfile.lemma_wf();
            assert(lines.take(0) =~= Seq::<LineView>::empty());
            assert(index_of_lines(Seq::<LineView>::empty()) =~= Map::<
                Seq<char>,
                KeyStatus<u64>,
            >::empty());
        }
        loop
            invariant
                kvfile.wf(),
                lines == kvfile.lines(),
                log_lines(kvfile.bytes(), lines),
                iter.bytes() == kvfile.bytes(),
                0 <= n <= lines.len(),
                n == 0 ==> iter.position() == 0,
                n > 0 ==> iter.position() == next_offset(
                    lines,
                    n - 1,
                    kvfile.bytes().len() as int,
                ),
                index.wf(),
                index.entries() == index_of_lines(lines.take(n)),
            ensures
                index.wf(),
                index.entries() == index_of_lines(lines),
            decreases lines.len() - n,
        {
            let line = match iter.next_line(Ghost(lines), Ghost(n))? {
                None => {
                    proof {
                        assert(lines.take(n) =~= lines);
                    }
                    break ;
                },
                Some(line) => line,
            };
            proof {
                lemma_offsets_increase(
                    kvfile.bytes(),
                    lines,
                    kvfile.bytes().len() as int,
                    n,
                    lines.len() as int,
                );
            }
            let entry = match line.status {
                KeyStatus::Present(_) => KeyStatus::Present(line.offset),
                KeyStatus::Deleted => KeyStatus::Deleted,
            };
            index.set(line.key.as_str(), entry);
            proof {
                lemma_index_push(lines.take(n), lines[n]);
                assert(lines.take(n).push(lines[n]) =~= lines.take(n + 1));
                n = n + 1;
            }
        }
        Ok(File { kvfile, index, file_size_threshold: self.file_size_threshold })
    }
}

} // verus!
