//! What every kind of segment file can do.
//!
//! A segment is one file of records together with whatever it keeps in memory
//! to find a record fast.  Whatever the kind, what a segment says about a key
//! is what the last record about that key in its file says.

use crate::error::Error;
use crate::kv_file::{encode_record, log_entries, valid_log};
use crate::kvdb::{opinion, status_view, KeyStatus};
use vstd::prelude::*;

verus! {

/// A read-only handle on a segment, independent of the handle that writes.
pub trait SegmentReader {
    /// The handle is sound.
    spec fn wf(&self) -> bool;

    /// The bytes of the segment's file.
    spec fn bytes(&self) -> Seq<u8>;

    /// What the segment says about `key`: a status, or `None` for no opinion.
    fn get_status(&self, key: &str) -> (r: Result<Option<KeyStatus<String>>, Error>)
        requires
            self.wf(),
        ensures
            r is Ok,
            status_view(r.unwrap()) == opinion(log_entries(self.bytes()), key@),
    ;
}

/// A segment file.
pub trait SegmentFile: Sized {
    /// The read-only handle of this kind of segment.
    type Reader<'a>: SegmentReader where Self: 'a;

    /// The segment is sound: its file and what it keeps in memory agree.
    spec fn wf(&self) -> bool;

    /// The bytes of the segment's file.
    spec fn bytes(&self) -> Seq<u8>;

    /// The name of the segment's file.
    spec fn name(&self) -> Seq<char>;

    /// Whether a record about `key` may be written to the segment now.
    spec fn accepts(&self, key: Seq<char>) -> bool;

    /// Whether the segment has grown beyond what it was made for.
    spec fn full(&self) -> bool;

    /// Whether a file image can be loaded as a segment of this kind.
    spec fn valid_image(bytes: Seq<u8>) -> bool;

    /// The setting that the segment was made with, and keeps for good.
    spec fn parameter(&self) -> u64;

    /// The file of a sound segment is a run of records that can be loaded
    /// again.
    proof fn lemma_wf(&self)
        requires
            self.wf(),
        ensures
            valid_log(self.bytes()),
            Self::valid_image(self.bytes()),
    ;

    /// What the segment says about `key`: a status, or `None` for no opinion.
    fn get_status(&self, key: &str) -> (r: Result<Option<KeyStatus<String>>, Error>)
        requires
            self.wf(),
        ensures
            r is Ok,
            status_view(r.unwrap()) == opinion(log_entries(self.bytes()), key@),
    ;

    /// Writes one record at the end of the segment, if the segment accepts
    /// its key.
    fn set_status(&mut self, key: &str, status: &KeyStatus<String>) -> (r: Result<(), Error>)
        requires
            old(self).wf(),
        ensures
            final(self).wf(),
            final(self).name() == old(self).name(),
            final(self).parameter() == old(self).parameter(),
            r is Ok <==> old(self).accepts(key@),
            r is Ok ==> final(self).bytes() == old(self).bytes() + encode_record(key@, status@),
            r is Ok ==> log_entries(final(self).bytes()) == log_entries(old(self).bytes()).insert(
                key@,
                status@,
            ),
            r is Err ==> r == Err::<(), Error>(Error::OutOfOrderWrite) && final(self).bytes() == old(
                self,
            ).bytes(),
    ;

    /// Whether the segment should be closed to writes and a new one begun.
    fn ready_to_be_archived(&self) -> (r: Result<bool, Error>)
        requires
            self.wf(),
        ensures
            r == Ok::<bool, Error>(self.full()),
    ;

    /// Takes in what an older segment says, wherever this segment has no
    /// opinion of its own.
    fn absorb<'a>(&mut self, other: &Self::Reader<'a>) -> (r: Result<(), Error>)
        requires
            old(self).wf(),
            other.wf(),
        ensures
            r is Ok,
            final(self).wf(),
            final(self).name() == old(self).name(),
            final(self).parameter() == old(self).parameter(),
            log_entries(final(self).bytes()) == log_entries(other.bytes()).union_prefer_right(
                log_entries(old(self).bytes()),
            ),
    ;

    /// Gives the segment's file another name.
    fn rename(&mut self, new_file_name: &str) -> (r: Result<(), Error>)
        requires
            old(self).wf(),
        ensures
            r is Ok,
            final(self).wf(),
            final(self).name() == new_file_name@,
            final(self).parameter() == old(self).parameter(),
            final(self).bytes() == old(self).bytes(),
            final(self).full() == old(self).full(),
            forall|k: Seq<char>| final(self).accepts(k) == old(self).accepts(k),
    ;

    /// Gives the segment up.
    fn delete(self) -> (r: Result<(), Error>)
        ensures
            r is Ok,
    ;

    /// The name of the segment's file.
    fn file_name(&self) -> (r: String)
        ensures
            r@ == self.name(),
    ;

    /// The bytes of the segment's file, to be stored.
    fn contents(&self) -> (r: Vec<u8>)
        ensures
            r@ == self.bytes(),
    ;
}

/// Makes read-only handles on segments.
pub trait SegmentReaderFactory<F: SegmentFile> {
    /// A handle on `file` that reads what `file` holds now.
    fn new<'a>(&self, file: &'a F) -> (r: Result<F::Reader<'a>, Error>)
        requires
            file.wf(),
        ensures
            r is Ok,
            r.unwrap().wf(),
            r.unwrap().bytes() == file.bytes(),
    ;
}

/// Makes segments, empty or from a stored file.
pub trait SegmentFileFactory<F: SegmentFile> {
    /// The setting that this maker gives to every segment it makes.
    spec fn parameter(&self) -> u64;

    /// An empty segment under the given file name.
    fn new(&self, file_name: &str) -> (r: Result<F, Error>)
        ensures
            r is Ok,
            r.unwrap().wf(),
            r.unwrap().bytes() == Seq::<u8>::empty(),
            r.unwrap().name() == file_name@,
            r.unwrap().parameter() == self.parameter(),
            forall|k: Seq<char>| r.unwrap().accepts(k),
    ;

    /// The segment stored under the given file name with the given bytes.
    fn from_disk(&self, file_name: &str, bytes: Vec<u8>) -> (r: Result<F, Error>)
        ensures
            r is Ok <==> F::valid_image(bytes@),
            r matches Err(e) ==> e == Error::MalformedRecord,
            r matches Ok(f) ==> f.wf() && f.bytes() == bytes@ && f.name() == file_name@
                && f.parameter() == self.parameter(),
    ;
}

} // verus!
