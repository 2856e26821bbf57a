//! The engine over sorted segments, with a memtable in front.
//!
//! Writes go to the memtable, an ordered map in memory.  When about as many
//! bytes have been written to it as the memtable size threshold, its entries
//! are written out in key order as a new sorted segment, which becomes the
//! head of the segments, and the memtable starts empty again.

pub mod segment_file;

use crate::error::Error;
use crate::in_memory_db::{sorted_keys, InMemoryDb};
use crate::kv_file::{entries_of, lemma_entries_empty, lemma_entries_push};
use crate::kv_file::{lines_of, log_entries, valid_log, LineView};
use crate::kvdb::{KVDb, KeyStatus};
use crate::segmented_files_db::segment_file::{SegmentFile, SegmentFileFactory};
use crate::segmented_files_db::{can_open, listing_of, listing_view, opened_images};
use crate::segmented_files_db::{contents_of, lemma_prepend, lemma_same_behind};
use crate::segmented_files_db::{lemma_write_head, merged_count, merged_down, written};
use crate::segmented_files_db::{stack_of, SegmentCreationPolicy, SegmentedDb, StoredFile};
use crate::sstable::segment_file::{sorted_lines, Factory, File, ReaderFactory};
use crate::utils::str_lt;
use vstd::prelude::*;
use vstd::utf8::encode_utf8;

verus! {

/// The name under which the memtable is written out before the new segment
/// takes its position.
pub const FLUSH_FILE_NAME: &'static str = "flushed_memtable_tmp_file.txt";

/// The statuses of a memtable as specifications see them.
pub open spec fn status_map(m: Map<Seq<char>, KeyStatus<String>>) -> Map<
    Seq<char>,
    KeyStatus<Seq<char>>,
> {
    Map::new(|k: Seq<char>| m.contains_key(k), |k: Seq<char>| m[k]@)
}

/// A size estimate grown by some bytes, as far as it can be counted.
pub open spec fn grown(size: u64, added: int) -> u64 {
    if size + added > u64::MAX {
        u64::MAX
    } else {
        (size + added) as u64
    }
}

/// The size estimate of the memtable after a write of `added` bytes: zero
/// when the write made the estimate reach the threshold and the memtable was
/// written out.
pub open spec fn size_after(size: u64, added: int, threshold: u64) -> u64 {
    if grown(size, added) >= threshold {
        0
    } else {
        grown(size, added)
    }
}

/// The memtable and the stack of segments after a write to the memtable,
/// which was written out after the write if `flush`.
pub open spec fn flushed_after(
    memtable: Map<Seq<char>, KeyStatus<Seq<char>>>,
    stack: Seq<Map<Seq<char>, KeyStatus<Seq<char>>>>,
    key: Seq<char>,
    status: KeyStatus<Seq<char>>,
    flush: bool,
    t: int,
) -> (Map<Seq<char>, KeyStatus<Seq<char>>>, Seq<Map<Seq<char>, KeyStatus<Seq<char>>>>) {
    if flush {
        (Map::empty(), merged_down(seq![memtable.insert(key, status)] + stack, t))
    } else {
        (memtable.insert(key, status), merged_down(stack, t))
    }
}

/// A store of keys and values in sorted segment files, with a memtable in
/// front of them.
pub struct SSTable {
    dir_path: String,
    sparsity: u64,
    memtable: InMemoryDb<KeyStatus<String>>,
    memtable_size: u64,
    memtable_size_threshold: u64,
    segmented_db: SegmentedDb<File, Factory, ReaderFactory>,
}

impl SSTable {
    /// The files of the segments, the newest first.
    pub closed spec fn images(&self) -> Seq<Seq<u8>> {
        self.segmented_db.images()
    }

    /// What the memtable says about each key.
    pub closed spec fn memtable(&self) -> Map<Seq<char>, KeyStatus<Seq<char>>> {
        status_map(self.memtable.entries())
    }

    /// The estimate of the bytes written to the memtable since it was empty.
    pub closed spec fn memtable_size(&self) -> u64 {
        self.memtable_size
    }

    /// The estimate at which the memtable is written out.
    pub closed spec fn memtable_size_threshold(&self) -> u64 {
        self.memtable_size_threshold
    }

    /// The number of segments at which a merge pass begins.
    pub closed spec fn merging_threshold(&self) -> u64 {
        self.segmented_db.threshold()
    }

    /// How many bytes at least lie between two indexed records of a segment.
    pub closed spec fn sparsity(&self) -> u64 {
        self.sparsity
    }

    /// The number of segments.
    pub open spec fn count(&self) -> int {
        self.images().len() as int
    }

    /// The contents of a sound store are what the memtable says, and behind
    /// it the segments; and the files of the segments can be opened again,
    /// which gives a store with the same files.
    pub proof fn lemma_reopen(&self)
        requires
            self.wf(),
        ensures
            self.contents() == contents_of(seq![self.memtable()] + stack_of(self.images())),
            can_open::<File>(listing_of(self.images())),
            opened_images(listing_of(self.images())) == self.images(),
    {
        self.segmented_db.lemma_wf();
    }

    /// The file of every segment of a sound store is a run of records in
    /// strictly ascending key order.
    pub proof fn lemma_sorted_files(&self)
        requires
            self.wf(),
        ensures
            forall|i: int|
                0 <= i < self.count() ==> valid_log(#[trigger] self.images()[i]) && sorted_lines(
                    lines_of(self.images()[i]),
                ),
    {
        self.segmented_db.lemma_wf();
    }

    /// Opens a store on the files of a directory, with an empty memtable.
    ///
    /// Fails if a segment file among them is no run of records in strictly
    /// ascending key order.
    pub fn new(
        dir_path: &str,
        files: &Vec<StoredFile>,
        merging_threshold: u64,
        sparsity: u64,
        memtable_size_threshold: u64,
    ) -> (r: Result<SSTable, Error>)
        ensures
            r is Ok <==> can_open::<File>(listing_view(files@)),
            r matches Err(e) ==> e == Error::MalformedRecord,
            r matches Ok(db) ==> db.wf() && db.images() == opened_images(listing_view(files@))
                && db.memtable() == Map::<Seq<char>, KeyStatus<Seq<char>>>::empty()
                && db.memtable_size() == 0 && db.merging_threshold() == merging_threshold
                && db.sparsity() == sparsity && db.memtable_size_threshold()
                == memtable_size_threshold,
    {
        let segmented_db = SegmentedDb::<File, Factory, ReaderFactory>::new(
            files,
            merging_threshold,
            SegmentCreationPolicy::Explicit,
            Factory { dir_path: dir_path.to_owned(), sparsity },
            ReaderFactory {  },
        )?;
        let db = SSTable {
            dir_path: dir_path.to_owned(),
            sparsity,
            memtable: InMemoryDb::new(),
            memtable_size: 0,
            memtable_size_threshold,
            segmented_db,
        };
        assert(db.memtable() =~= Map::<Seq<char>, KeyStatus<Seq<char>>>::empty());
        Ok(db)
    }

    /// Writes the entries of the memtable, in key order, to a new sorted
    /// segment.
    fn build_segment(&self) -> (r: Result<File, Error>)
        requires
            self.wf(),
        ensures
            r is Ok,
            r.unwrap().wf(),
            r.unwrap().parameter() == self.sparsity(),
            log_entries(r.unwrap().bytes()) == self.memtable(),
    {
        let factory = Factory { dir_path: self.dir_path.clone(), sparsity: self.sparsity };
        let mut segment = factory.new(FLUSH_FILE_NAME)?;
        let keys = self.memtable.keys();
        let ghost ks = self.memtable.key_seq();
        let ghost mem = self.memtable.entries();
        proof {
            self.memtable.lemma_wf();
            lemma_entries_empty();
        }
        let mut i: usize = 0;
        while i < keys.len()
            invariant
                i <= keys@.len(),
                keys@.map_values(|k: String| k@) == ks,
                ks == self.memtable.key_seq(),
                mem == self.memtable.entries(),
                self.memtable.wf(),
                sorted_keys(ks),
                forall|j: int| 0 <= j < ks.len() ==> mem.contains_key(#[trigger] ks[j]),
                segment.wf(),
                segment.parameter() == self.sparsity,
                segment.lines().len() == i,
                i > 0 ==> segment.lines().last().key == ks[i - 1],
                forall|j: int|
                    0 <= j < i ==> entries_of(segment.lines()).contains_key(#[trigger] ks[j]),
                forall|k: Seq<char>| #[trigger]
                    entries_of(segment.lines()).contains_key(k) ==> mem.contains_key(k)
                        && entries_of(segment.lines())[k] == mem[k]@,
            decreases keys@.len() - i,
        {
            let key = keys[i].as_str();
            assert(key@ == ks[i as int]);
            assert(mem.contains_key(ks[i as int]));
            let ghost lines = segment.lines();
            let ghost offset = segment.bytes().len() as int;
            let status = self.memtable.get(key).unwrap();
            proof {
                if i > 0 {
                    assert(str_lt(ks[i - 1], ks[i as int]));
                }
                lemma_entries_push(lines, LineView { key: key@, status: status@, offset });
            }
            segment.set_status(key, status)?;
            i += 1;
        }
        proof {
            segment.lemma_sorted();
            let built = entries_of(segment.lines());
            assert forall|k: Seq<char>| mem.contains_key(k) implies built.contains_key(k) by {
                self.memtable.lemma_wf();
                let j = ks.index_of(k);
                assert(ks[j] == k);
            }
            assert(built =~= status_map(mem));
        }
        Ok(segment)
    }

    /// Writes the memtable out as a new head segment, if it holds anything,
    /// and empties it; merges afterwards, if the segments are too many.
    pub fn flush(&mut self) -> (r: Result<(), Error>)
        requires
            old(self).wf(),
        ensures
            r is Ok,
            final(self).wf(),
            final(self).contents() == old(self).contents(),
            final(self).memtable() == Map::<Seq<char>, KeyStatus<Seq<char>>>::empty(),
            final(self).memtable_size() == 0,
            stack_of(final(self).images()) == if old(self).memtable() == Map::<
                Seq<char>,
                KeyStatus<Seq<char>>,
            >::empty() {
                stack_of(old(self).images())
            } else {
                merged_down(
                    seq![old(self).memtable()] + stack_of(old(self).images()),
                    old(self).merging_threshold() as int,
                )
            },
            final(self).count() == if old(self).memtable() == Map::<
                Seq<char>,
                KeyStatus<Seq<char>>,
            >::empty() {
                old(self).count()
            } else {
                merged_count(old(self).count() + 1, old(self).merging_threshold() as int)
            },
            final(self).merging_threshold() == old(self).merging_threshold(),
            final(self).sparsity() == old(self).sparsity(),
            final(self).memtable_size_threshold() == old(self).memtable_size_threshold(),
    {
        let ghost stack = stack_of(self.segmented_db.images());
        proof {
            self.memtable.lemma_wf();
        }
        if self.memtable.len() == 0 {
            proof {
                assert(self.memtable() =~= Map::<Seq<char>, KeyStatus<Seq<char>>>::empty()) by {
                    assert forall|k: Seq<char>| !self.memtable.entries().contains_key(k) by {
                        if self.memtable.key_seq().contains(k) {
                            let j = self.memtable.key_seq().index_of(k);
                        }
                    }
                }
            }
            self.memtable_size = 0;
            return Ok(());
        }
        proof {
            assert(self.memtable.entries().contains_key(self.memtable.key_seq()[0]));
            assert(self.memtable().contains_key(self.memtable.key_seq()[0]));
        }
        let segment = self.build_segment()?;
        self.segmented_db.prepend(segment)?;
        self.memtable = InMemoryDb::new();
        self.memtable_size = 0;
        proof {
            assert(self.memtable() =~= Map::<Seq<char>, KeyStatus<Seq<char>>>::empty());
            lemma_prepend(
                stack_of(self.segmented_db.images()),
                Map::<Seq<char>, KeyStatus<Seq<char>>>::empty(),
            );
        }
        Ok(())
    }

    /// Puts a status into the memtable and adds the bytes written to the size
    /// estimate; writes the memtable out when the estimate has reached the
    /// threshold, and lets the segments merge if they are too many.
    fn write(&mut self, key: &str, status: KeyStatus<String>, value_len: usize) -> (r: Result<
        (),
        Error,
    >)
        requires
            old(self).wf(),
        ensures
            r is Ok,
            final(self).wf(),
            final(self).contents() == written(
                old(self).contents(),
                key@,
                status@,
            ),
            final(self).memtable_size() == size_after(
                old(self).memtable_size(),
                (encode_utf8(key@).len() + value_len) as int,
                old(self).memtable_size_threshold(),
            ),
            flushed_after(
                old(self).memtable(),
                stack_of(old(self).images()),
                key@,
                status@,
                grown(old(self).memtable_size(), (encode_utf8(key@).len() + value_len) as int)
                    >= old(self).memtable_size_threshold(),
                old(self).merging_threshold() as int,
            ) == (final(self).memtable(), stack_of(final(self).images())),
            old(self).merging_threshold() >= 1 ==> final(self).count() <= old(self).merging_threshold(),
            final(self).merging_threshold() == old(self).merging_threshold(),
            final(self).sparsity() == old(self).sparsity(),
            final(self).memtable_size_threshold() == old(self).memtable_size_threshold(),
    {
        let ghost stack = seq![self.memtable()] + stack_of(self.segmented_db.images());
        let ghost before = self.memtable.entries();
        self.memtable.set(key, status);
        proof {
            assert(status_map(before.insert(key@, status)) =~= status_map(before).insert(
                key@,
                status@,
            ));
            assert(seq![self.memtable()] + stack_of(self.segmented_db.images()) =~= stack.update(
                0,
                stack[0].insert(key@, status@),
            ));
            lemma_write_head(stack, key@, status@);
            assert(self.memtable().contains_key(key@));
        }
        let added = (key.as_bytes().len() as u64).saturating_add(value_len as u64);
        self.memtable_size = self.memtable_size.saturating_add(added);
        if self.memtable_size >= self.memtable_size_threshold {
            self.flush()?;
        } else {
            let ghost behind = stack_of(self.segmented_db.images());
            self.segmented_db.merge()?;
            proof {
                lemma_same_behind(
                    self.memtable(),
                    behind,
                    stack_of(self.segmented_db.images()),
                );
            }
        }
        Ok(())
    }

    /// The number of segments.
    pub fn segment_count(&self) -> (r: usize)
        ensures
            r == self.count(),
    {
        self.segmented_db.segment_count()
    }

    /// The files of the segments, each under the name of its position, to be
    /// stored.  What is in the memtable is in none of them.
    pub fn files(&self) -> (r: Vec<StoredFile>)
        requires
            self.wf(),
        ensures
            listing_view(r@) == listing_of(self.images()),
    {
        self.segmented_db.files()
    }
}

impl KVDb for SSTable {
    closed spec fn wf(&self) -> bool {
        &&& self.segmented_db.wf()
        &&& self.segmented_db.policy() == SegmentCreationPolicy::Explicit
        &&& self.segmented_db.factory().sparsity == self.sparsity
        &&& self.memtable.wf()
    }

    closed spec fn contents(&self) -> Map<Seq<char>, Seq<char>> {
        contents_of(seq![status_map(self.memtable.entries())] + stack_of(self.segmented_db.images()))
    }

    fn set(&mut self, key: &str, value: &str) -> (r: Result<(), Error>)
        ensures
            final(self).memtable_size() == size_after(
                old(self).memtable_size(),
                (encode_utf8(key@).len() + encode_utf8(value@).len()) as int,
                old(self).memtable_size_threshold(),
            ),
            flushed_after(
                old(self).memtable(),
                stack_of(old(self).images()),
                key@,
                KeyStatus::Present(value@),
                grown(
                    old(self).memtable_size(),
                    (encode_utf8(key@).len() + encode_utf8(value@).len()) as int,
                ) >= old(self).memtable_size_threshold(),
                old(self).merging_threshold() as int,
            ) == (final(self).memtable(), stack_of(final(self).images())),
            old(self).merging_threshold() >= 1 ==> final(self).count() <= old(self).merging_threshold(),
            final(self).merging_threshold() == old(self).merging_threshold(),
            final(self).sparsity() == old(self).sparsity(),
            final(self).memtable_size_threshold() == old(self).memtable_size_threshold(),
    {
        self.write(key, KeyStatus::Present(value.to_owned()), value.as_bytes().len())
    }

    fn delete(&mut self, key: &str) -> (r: Result<(), Error>)
        ensures
            final(self).memtable_size() == size_after(
                old(self).memtable_size(),
                encode_utf8(key@).len() as int,
                old(self).memtable_size_threshold(),
            ),
            flushed_after(
                old(self).memtable(),
                stack_of(old(self).images()),
                key@,
                KeyStatus::Deleted,
                grown(old(self).memtable_size(), encode_utf8(key@).len() as int) >= old(self).memtable_size_threshold(),
                old(self).merging_threshold() as int,
            ) == (final(self).memtable(), stack_of(final(self).images())),
            old(self).merging_threshold() >= 1 ==> final(self).count() <= old(self).merging_threshold(),
            final(self).merging_threshold() == old(self).merging_threshold(),
            final(self).sparsity() == old(self).sparsity(),
            final(self).memtable_size_threshold() == old(self).memtable_size_threshold(),
    {
        self.write(key, KeyStatus::Deleted, 0)
    }

    fn get(&self, key: &str) -> (r: Result<Option<String>, Error>) {
        proof {
            lemma_prepend(
                stack_of(self.segmented_db.images()),
                status_map(self.memtable.entries()),
            );
        }
        match self.memtable.get(key) {
            Some(KeyStatus::Present(value)) => Ok(Some(value.clone())),
            Some(KeyStatus::Deleted) => Ok(None),
            None => self.segmented_db.get(key),
        }
    }

    fn description(&self) -> (r: String)
        ensures
            r@ == "sorted string tables"@,
    {
        "sorted string tables".to_owned()
    }
}

} // verus!
