//! The key-value interface and the status of a key.

use crate::error::Error;
use vstd::prelude::*;

verus! {

/// What a store knows about a key: a live payload, or a tombstone.
#[derive(Debug, Clone, PartialEq, Eq)]
pub enum KeyStatus<T> {
    Present(T),
    Deleted,
}

impl<T: View> View for KeyStatus<T> {
    type V = KeyStatus<T::V>;

    open spec fn view(&self) -> KeyStatus<T::V> {
        match self {
            KeyStatus::Present(v) => KeyStatus::Present(v@),
            KeyStatus::Deleted => KeyStatus::Deleted,
        }
    }
}

/// The view of an optional status.
pub open spec fn status_view<T: View>(s: Option<KeyStatus<T>>) -> Option<KeyStatus<T::V>> {
    match s {
        Some(st) => Some(st@),
        None => None,
    }
}

/// What a map from keys to statuses says about one key.
pub open spec fn opinion<K, V>(m: Map<K, KeyStatus<V>>, key: K) -> Option<KeyStatus<V>> {
    if m.contains_key(key) {
        Some(m[key])
    } else {
        None
    }
}

/// What a read of `key` gives on a store with the given contents.
pub open spec fn read(contents: Map<Seq<char>, Seq<char>>, key: Seq<char>) -> Option<Seq<char>> {
    if contents.contains_key(key) {
        Some(contents[key])
    } else {
        None
    }
}

/// The view of what a read returns.
pub open spec fn value_view(value: Option<String>) -> Option<Seq<char>> {
    match value {
        Some(v) => Some(v@),
        None => None,
    }
}

/// A write to a store.
pub enum Op {
    Put(Seq<char>, Seq<char>),
    Delete(Seq<char>),
}

impl Op {
    /// The key that the write is about.
    pub open spec fn key(self) -> Seq<char> {
        match self {
            Op::Put(k, _) => k,
            Op::Delete(k) => k,
        }
    }
}

/// The contents of a store after one write.
pub open spec fn apply(contents: Map<Seq<char>, Seq<char>>, op: Op) -> Map<Seq<char>, Seq<char>> {
    match op {
        Op::Put(k, v) => contents.insert(k, v),
        Op::Delete(k) => contents.remove(k),
    }
}

/// The contents of a store after a run of writes.
pub open spec fn apply_all(contents: Map<Seq<char>, Seq<char>>, ops: Seq<Op>) -> Map<
    Seq<char>,
    Seq<char>,
>
    decreases ops.len(),
{
    if ops.len() == 0 {
        contents
    } else {
        apply(apply_all(contents, ops.drop_last()), ops.last())
    }
}

/// Writes about other keys leave what a read of `key` gives as it was.
pub proof fn lemma_untouched(contents: Map<Seq<char>, Seq<char>>, ops: Seq<Op>, key: Seq<char>)
    requires
        forall|i: int| 0 <= i < ops.len() ==> (#[trigger] ops[i]).key() != key,
    ensures
        read(apply_all(contents, ops), key) == read(contents, key),
    decreases ops.len(),
{
    if ops.len() > 0 {
        let front = ops.drop_last();
        assert forall|i: int| 0 <= i < front.len() implies (#[trigger] front[i]).key() != key by {
            assert(front[i] == ops[i]);
        }
        lemma_untouched(contents, front, key);
        assert(ops.last() == ops[ops.len() - 1]);
    }
}

/// Read your writes: after `key` is set to `value`, a read of `key` gives
/// `value`, until a later write about `key`.
pub proof fn lemma_read_your_writes(
    contents: Map<Seq<char>, Seq<char>>,
    key: Seq<char>,
    value: Seq<char>,
    later: Seq<Op>,
)
    requires
        forall|i: int| 0 <= i < later.len() ==> (#[trigger] later[i]).key() != key,
    ensures
        read(apply_all(apply(contents, Op::Put(key, value)), later), key) == Some(value),
{
    lemma_untouched(apply(contents, Op::Put(key, value)), later, key);
}

/// After `key` is deleted, a read of `key` gives nothing, until a later write
/// about `key`.
pub proof fn lemma_deleted_stays_deleted(
    contents: Map<Seq<char>, Seq<char>>,
    key: Seq<char>,
    later: Seq<Op>,
)
    requires
        forall|i: int| 0 <= i < later.len() ==> (#[trigger] later[i]).key() != key,
    ensures
        read(apply_all(apply(contents, Op::Delete(key)), later), key) is None,
{
    lemma_untouched(apply(contents, Op::Delete(key)), later, key);
}

/// After `key` is set to one value and later to another, whatever was written
/// in between, a read of `key` gives the second.
pub proof fn lemma_overwrite(
    contents: Map<Seq<char>, Seq<char>>,
    key: Seq<char>,
    first: Seq<char>,
    between: Seq<Op>,
    second: Seq<char>,
)
    ensures
        read(
            apply(apply_all(apply(contents, Op::Put(key, first)), between), Op::Put(key, second)),
            key,
        ) == Some(second),
{
}

/// A store of keys and values.
pub trait KVDb {
    /// The store is sound.
    spec fn wf(&self) -> bool;

    /// The keys and values that the store holds.
    spec fn contents(&self) -> Map<Seq<char>, Seq<char>>;

    /// Pairs `key` with `value`.
    fn set(&mut self, key: &str, value: &str) -> (r: Result<(), Error>)
        requires
            old(self).wf(),
        ensures
            r is Ok,
            final(self).wf(),
            final(self).contents() == apply(old(self).contents(), Op::Put(key@, value@)),
            read(final(self).contents(), key@) == Some(value@),
    ;

    /// Makes the store hold no value for `key`.
    fn delete(&mut self, key: &str) -> (r: Result<(), Error>)
        requires
            old(self).wf(),
        ensures
            r is Ok,
            final(self).wf(),
            final(self).contents() == apply(old(self).contents(), Op::Delete(key@)),
            read(final(self).contents(), key@) is None,
    ;

    /// The value of `key`, if the store holds one.
    fn get(&self, key: &str) -> (r: Result<Option<String>, Error>)
        requires
            self.wf(),
        ensures
            r is Ok,
            value_view(r.unwrap()) == read(self.contents(), key@),
    ;

    /// A label for the store.
    fn description(&self) -> (r: String);
}

} // verus!
