//! The engine over hash-indexed segments.
//!
//! Writes go to the head segment; when the head has grown beyond the file size
//! threshold, a new head is begun before the write.

pub mod segment_file;

use crate::error::Error;
use crate::kvdb::{KVDb, KeyStatus};
use crate::segmented_files_db::{merged_down, written_stack};
use crate::segmented_files_db::{can_open, listing_of, listing_view, opened_images};
use crate::segmented_files_db::{contents_of, stack_of, SegmentCreationPolicy, SegmentedDb};
use crate::segmented_files_db::StoredFile;
use crate::segmented_logs_with_indices_db::segment_file::{Factory, File, ReaderFactory};
use vstd::prelude::*;

verus! {

/// A store of keys and values in hash-indexed segment files.
pub struct SegmentedLogsWithIndicesDb {
    segmented_db: SegmentedDb<File, Factory, ReaderFactory>,
}

impl SegmentedLogsWithIndicesDb {
    /// The files of the segments, the newest first.
    pub closed spec fn images(&self) -> Seq<Seq<u8>> {
        self.segmented_db.images()
    }

    /// The number of segments at which a merge pass begins.
    pub closed spec fn merging_threshold(&self) -> u64 {
        self.segmented_db.threshold()
    }

    /// The size in bytes beyond which a head segment is archived.
    pub closed spec fn file_size_threshold(&self) -> u64 {
        self.segmented_db.factory().file_size_threshold
    }

    /// The number of segments.
    pub open spec fn count(&self) -> int {
        self.images().len() as int
    }

    /// Restart durability: the files of a sound store can be opened again, and
    /// give a store with the same files and so the same contents.
    pub proof fn lemma_reopen(&self)
        requires
            self.wf(),
        ensures
            self.contents() == contents_of(stack_of(self.images())),
            can_open::<File>(listing_of(self.images())),
            opened_images(listing_of(self.images())) == self.images(),
    {
        self.segmented_db.lemma_wf();
    }

    /// Opens a store on the files of a directory.
    ///
    /// Fails if a segment file among them is no run of records.
    pub fn new(
        dir_path: &str,
        files: &Vec<StoredFile>,
        file_size_threshold: u64,
        merging_threshold: u64,
    ) -> (r: Result<SegmentedLogsWithIndicesDb, Error>)
        ensures
            r is Ok <==> can_open::<File>(listing_view(files@)),
            r matches Err(e) ==> e == Error::MalformedRecord,
            r matches Ok(db) ==> db.wf() && db.images() == opened_images(listing_view(files@))
                && db.merging_threshold() == merging_threshold && db.file_size_threshold()
                == file_size_threshold,
    {
        Ok(
            SegmentedLogsWithIndicesDb {
                segmented_db: SegmentedDb::<File, Factory, ReaderFactory>::new(
                    files,
                    merging_threshold,
                    SegmentCreationPolicy::Automatic,
                    Factory { dir_path: dir_path.to_owned(), file_size_threshold },
                    ReaderFactory {  },
                )?,
            },
        )
    }

    /// The number of segments.
    pub fn segment_count(&self) -> (r: usize)
        ensures
            r == self.count(),
    {
        self.segmented_db.segment_count()
    }

    /// The files of the segments, each under the name of its position, to be
    /// stored.
    pub fn files(&self) -> (r: Vec<StoredFile>)
        requires
            self.wf(),
        ensures
            listing_view(r@) == listing_of(self.images()),
    {
        self.segmented_db.files()
    }
}

impl KVDb for SegmentedLogsWithIndicesDb {
    closed spec fn wf(&self) -> bool {
        &&& self.segmented_db.wf()
        &&& self.segmented_db.policy() == SegmentCreationPolicy::Automatic
    }

    closed spec fn contents(&self) -> Map<Seq<char>, Seq<char>> {
        self.segmented_db.contents()
    }

    fn set(&mut self, key: &str, value: &str) -> (r: Result<(), Error>)
        ensures
            stack_of(final(self).images()) == merged_down(
                written_stack(
                    stack_of(old(self).images()),
                    old(self).images()[0].len() > old(self).file_size_threshold(),
                    key@,
                    KeyStatus::Present(value@),
                ),
                old(self).merging_threshold() as int,
            ),
            final(self).merging_threshold() == old(self).merging_threshold(),
            final(self).file_size_threshold() == old(self).file_size_threshold(),
            old(self).merging_threshold() >= 1 ==> final(self).count() <= old(self).merging_threshold(),
    {
        proof {
            self.segmented_db.lemma_wf();
        }
        self.segmented_db.set(key, value)
    }

    fn delete(&mut self, key: &str) -> (r: Result<(), Error>)
        ensures
            stack_of(final(self).images()) == merged_down(
                written_stack(
                    stack_of(old(self).images()),
                    old(self).images()[0].len() > old(self).file_size_threshold(),
                    key@,
                    KeyStatus::Deleted,
                ),
                old(self).merging_threshold() as int,
            ),
            final(self).merging_threshold() == old(self).merging_threshold(),
            final(self).file_size_threshold() == old(self).file_size_threshold(),
            old(self).merging_threshold() >= 1 ==> final(self).count() <= old(self).merging_threshold(),
    {
        proof {
            self.segmented_db.lemma_wf();
        }
        self.segmented_db.delete(key)
    }

    fn get(&self, key: &str) -> (r: Result<Option<String>, Error>) {
        self.segmented_db.get(key)
    }

    fn description(&self) -> (r: String)
        ensures
            r@ == "segmented logs with indices"@,
    {
        "segmented logs with indices".to_owned()
    }
}

} // verus!
