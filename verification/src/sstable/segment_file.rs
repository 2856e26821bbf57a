//! The sorted segment: a record file in strictly ascending key order, with a
//! sparse index in memory from some of its keys to the offsets of their
//! records.

use crate::error::Error;
use crate::kv_file::{entries_of, latest, lemma_entries_push, lemma_latest, lemma_offsets_increase};
use crate::kv_file::{lemma_log_entries_append, lemma_next_offset, lines_of, log_lines};
use crate::kv_file::{lemma_offsets_ordered, next_offset, record_at};
use crate::kv_file::{valid_log, KVFile, LineView};
use crate::kvdb::{opinion, status_view, KeyStatus};
use crate::segmented_files_db::segment_file::{SegmentFile, SegmentFileFactory};
use crate::segmented_files_db::segment_file::{SegmentReader, SegmentReaderFactory};
use crate::utils::{compare_keys, lemma_str_lt_irreflexive, lemma_str_lt_total};
use crate::utils::{lemma_str_lt_transitive, str_le, str_lt, KeyOrder};
use vstd::prelude::*;

verus! {

/// The name under which a merge writes its result before it takes the place
/// of the segment.
pub const TMP_FILE_NAME: &'static str = "merged_tmp_file.txt";

/// The records stand in strictly ascending key order.
pub open spec fn sorted_lines(lines: Seq<LineView>) -> bool {
    forall|i: int, j: int|
        0 <= i < j < lines.len() ==> str_lt((#[trigger] lines[i]).key, (#[trigger] lines[j]).key)
}

/// The sparse index of a run of records: the first record, and after it
/// every record that starts more than `sparsity` bytes behind the one indexed
/// last.
pub open spec fn sparse_of(lines: Seq<LineView>, sparsity: int) -> Seq<(Seq<char>, int)>
    decreases lines.len(),
{
    if lines.len() == 0 {
        Seq::empty()
    } else {
        let prev = sparse_of(lines.drop_last(), sparsity);
        let line = lines.last();
        if prev.len() == 0 || line.offset - prev.last().1 > sparsity {
            prev.push((line.key, line.offset))
        } else {
            prev
        }
    }
}

/// The offset that was indexed last, or zero where nothing was.
pub open spec fn last_indexed(sparse: Seq<(Seq<char>, int)>) -> int {
    if sparse.len() == 0 {
        0
    } else {
        sparse.last().1
    }
}

/// A sparse index as specifications see it.
pub open spec fn sparse_view(index: Seq<(String, u64)>) -> Seq<(Seq<char>, int)> {
    index.map_values(|e: (String, u64)| (e.0@, e.1 as int))
}

/// `sparse` picks records of `lines`, entry `e` the record at `pos[e]`: in
/// file order, and the first record among them.
pub open spec fn sparse_at(sparse: Seq<(Seq<char>, int)>, lines: Seq<LineView>, pos: Seq<int>) -> bool {
    &&& pos.len() == sparse.len()
    &&& forall|e: int|
        0 <= e < sparse.len() ==> 0 <= #[trigger] pos[e] < lines.len() && sparse[e] == (
            lines[pos[e]].key,
            lines[pos[e]].offset,
        )
    &&& forall|e: int, f: int| 0 <= e < f < sparse.len() ==> #[trigger] pos[e] < #[trigger] pos[f]
    &&& (lines.len() > 0 ==> sparse.len() > 0 && pos[0] == 0)
}

/// `sparse` is a sparse index of `lines`: some of its records in file order,
/// the first record among them.
pub open spec fn sparse_valid(sparse: Seq<(Seq<char>, int)>, lines: Seq<LineView>) -> bool {
    exists|pos: Seq<int>| sparse_at(sparse, lines, pos)
}

/// The sparse index that the placement rule builds picks records of the file
/// in file order, the first among them.
pub proof fn lemma_sparse_of(lines: Seq<LineView>, sparsity: int) -> (pos: Seq<int>)
    ensures
        sparse_at(sparse_of(lines, sparsity), lines, pos),
        sparse_valid(sparse_of(lines, sparsity), lines),
    decreases lines.len(),
{
    if lines.len() == 0 {
        let pos = Seq::<int>::empty();
        assert(sparse_at(sparse_of(lines, sparsity), lines, pos));
        pos
    } else {
        let front = lines.drop_last();
        let p = lemma_sparse_of(front, sparsity);
        let prev = sparse_of(front, sparsity);
        let line = lines.last();
        let pos = if prev.len() == 0 || line.offset - prev.last().1 > sparsity {
            p.push(lines.len() - 1)
        } else {
            p
        };
        let sparse = sparse_of(lines, sparsity);
        assert forall|e: int| 0 <= e < sparse.len() implies 0 <= #[trigger] pos[e] < lines.len()
            && sparse[e] == (lines[pos[e]].key, lines[pos[e]].offset) by {
            if e < prev.len() {
                assert(pos[e] == p[e]);
                assert(lines[p[e]] == front[p[e]]);
            }
        }
        assert forall|e: int, f: int| 0 <= e < f < sparse.len() implies #[trigger] pos[e]
            < #[trigger] pos[f] by {
            assert(pos[e] == p[e]);
            if f < prev.len() {
                assert(pos[f] == p[f]);
            }
        }
        if prev.len() > 0 {
            assert(pos[0] == p[0]);
        }
        assert(sparse_at(sparse, lines, pos));
        pos
    }
}

/// Any two entries of the sparse index lie more than `sparsity` bytes apart.
pub proof fn lemma_sparse_gaps(lines: Seq<LineView>, sparsity: int)
    requires
        0 <= sparsity,
    ensures
        forall|e: int, f: int|
            0 <= e < f < sparse_of(lines, sparsity).len() ==> (#[trigger] sparse_of(
                lines,
                sparsity,
            )[f]).1 - (#[trigger] sparse_of(lines, sparsity)[e]).1 > sparsity,
    decreases lines.len(),
{
    if lines.len() > 0 {
        lemma_sparse_gaps(lines.drop_last(), sparsity);
        let prev = sparse_of(lines.drop_last(), sparsity);
        let sparse = sparse_of(lines, sparsity);
        assert forall|e: int, f: int| 0 <= e < f < sparse.len() implies (#[trigger] sparse[f]).1
            - (#[trigger] sparse[e]).1 > sparsity by {
            if f < prev.len() {
                assert(sparse[f] == prev[f]);
                assert(sparse[e] == prev[e]);
            } else {
                assert(sparse[e] == prev[e]);
                if e < prev.len() - 1 {
                    assert(prev[prev.len() - 1].1 - prev[e].1 > sparsity);
                }
            }
        }
    }
}

/// One more record extends the sparse index by the placement rule.
pub proof fn lemma_sparse_push(lines: Seq<LineView>, line: LineView, sparsity: int)
    ensures
        sparse_of(lines.push(line), sparsity) == if sparse_of(lines, sparsity).len() == 0
            || line.offset - last_indexed(sparse_of(lines, sparsity)) > sparsity {
            sparse_of(lines, sparsity).push((line.key, line.offset))
        } else {
            sparse_of(lines, sparsity)
        },
{
    assert(lines.push(line).drop_last() =~= lines);
}

/// What a scan for `key` knows when it has passed the first `n` records: the
/// record about `key` among them, if there is one, and its status.
#[verifier::opaque]
pub open spec fn scan_state(
    lines: Seq<LineView>,
    key: Seq<char>,
    n: int,
    status: Option<KeyStatus<Seq<char>>>,
) -> bool {
    &&& 0 <= n <= lines.len()
    &&& status == opinion(entries_of(lines.take(n)), key)
}

/// Records below the start of a scan whose keys all differ from `key` leave
/// the scan with nothing found.
proof fn lemma_scan_start(lines: Seq<LineView>, key: Seq<char>, n: int)
    requires
        0 <= n <= lines.len(),
        forall|m: int| 0 <= m < n ==> (#[trigger] lines[m]).key != key,
    ensures
        scan_state(lines, key, n, None),
{
    reveal(scan_state);
    lemma_latest(lines.take(n), key);
    if latest(lines.take(n), key) is Some {
        let m = latest(lines.take(n), key).unwrap();
        assert(lines.take(n)[m] == lines[m]);
    }
}

/// The scan passes one more record.
proof fn lemma_scan_step(
    lines: Seq<LineView>,
    key: Seq<char>,
    n: int,
    status: Option<KeyStatus<Seq<char>>>,
)
    requires
        scan_state(lines, key, n, status),
        n < lines.len(),
    ensures
        scan_state(
            lines,
            key,
            n + 1,
            if lines[n].key == key {
                Some(lines[n].status)
            } else {
                status
            },
        ),
{
    reveal(scan_state);
    assert(lines.take(n + 1) =~= lines.take(n).push(lines[n]));
    lemma_entries_push(lines.take(n), lines[n]);
}

/// Where no record from `n` on is about `key`, the scan has found what the
/// whole file says.
proof fn lemma_scan_done(
    lines: Seq<LineView>,
    key: Seq<char>,
    n: int,
    status: Option<KeyStatus<Seq<char>>>,
)
    requires
        scan_state(lines, key, n, status),
        forall|m: int| n <= m < lines.len() ==> (#[trigger] lines[m]).key != key,
    ensures
        status == opinion(entries_of(lines), key),
    decreases lines.len() - n,
{
    if n < lines.len() {
        lemma_scan_step(lines, key, n, status);
        lemma_scan_done(lines, key, n + 1, status);
    } else {
        reveal(scan_state);
        assert(lines.take(n) =~= lines);
    }
}

/// In a sorted file no record behind one with a greater key is about `key`.
proof fn lemma_none_behind(lines: Seq<LineView>, key: Seq<char>, n: int)
    requires
        sorted_lines(lines),
        0 <= n < lines.len(),
        str_lt(key, lines[n].key),
    ensures
        forall|m: int| n <= m < lines.len() ==> (#[trigger] lines[m]).key != key,
{
    assert forall|m: int| n <= m < lines.len() implies (#[trigger] lines[m]).key != key by {
        lemma_str_lt_irreflexive(key);
        if n < m {
            assert(str_lt(lines[n].key, lines[m].key));
            lemma_str_lt_transitive(key, lines[n].key, lines[m].key);
        }
    }
}

/// In a sorted file no record before one with a key at or below `key` is
/// about `key`.
proof fn lemma_none_before(lines: Seq<LineView>, key: Seq<char>, n: int)
    requires
        sorted_lines(lines),
        0 <= n < lines.len(),
        str_le(lines[n].key, key),
    ensures
        forall|m: int| 0 <= m < n ==> (#[trigger] lines[m]).key != key,
{
    assert forall|m: int| 0 <= m < n implies (#[trigger] lines[m]).key != key by {
        assert(str_lt(lines[m].key, lines[n].key));
        lemma_str_lt_irreflexive(key);
        if lines[n].key != key {
            lemma_str_lt_transitive(lines[m].key, lines[n].key, key);
        }
    }
}

/// Reads a sorted file from record `first` on until a key above `key`, and
/// gives the status of the record about `key` that it met.
fn scan_from(kvfile: &KVFile, start: u64, key: &str, Ghost(first): Ghost<int>) -> (r: Result<
    Option<KeyStatus<String>>,
    Error,
>)
    requires
        kvfile.wf(),
        sorted_lines(kvfile.lines()),
        0 <= first < kvfile.lines().len(),
        start == kvfile.lines()[first].offset,
        str_le(kvfile.lines()[first].key, key@),
    ensures
        r is Ok,
        status_view(r.unwrap()) == opinion(entries_of(kvfile.lines()), key@),
{
    let ghost lines = kvfile.lines();
    let ghost end = kvfile.bytes().len() as int;
    let ghost mut n: int = first;
    proof {
        kvfile.lemma_wf();
        lemma_offsets_increase(kvfile.bytes(), lines, end, first, lines.len() as int);
        if first > 0 {
            lemma_offsets_increase(kvfile.bytes(), lines, end, first - 1, first);
        }
        lemma_none_before(lines, key@, first);
        lemma_scan_start(lines, key@, first);
        lemma_next_offset(lines, first - 1, end);
    }
    let mut iter = kvfile.iter_from_offset(start)?;
    let mut status: Option<KeyStatus<String>> = None;
    loop
        invariant_except_break
            n == 0 ==> iter.position() == 0,
            n > 0 ==> iter.position() == next_offset(lines, n - 1, iter.bytes().len() as int),
        invariant
            lines == kvfile.lines(),
            log_lines(iter.bytes(), lines),
            sorted_lines(lines),
            0 <= n <= lines.len(),
            scan_state(lines, key@, n, status_view(status)),
        ensures
            status_view(status) == opinion(entries_of(lines), key@),
        decreases lines.len() - n,
    {
        let line = match iter.next_line(Ghost(lines), Ghost(n))? {
            None => {
                proof {
                    lemma_scan_done(lines, key@, n, status_view(status));
                }
                break ;
            },
            Some(line) => line,
        };
        match compare_keys(line.key.as_str(), key) {
            KeyOrder::Greater => {
                proof {
                    lemma_none_behind(lines, key@, n);
                    lemma_scan_done(lines, key@, n, status_view(status));
                }
                break ;
            },
            KeyOrder::Equal => {
                proof {
                    lemma_scan_step(lines, key@, n, status_view(status));
                }
                status = Some(line.status);
            },
            KeyOrder::Less => {
                proof {
                    lemma_str_lt_irreflexive(key@);
                    lemma_scan_step(lines, key@, n, status_view(status));
                }
            },
        }
        proof {
            n = n + 1;
        }
    }
    Ok(status)
}

/// Looks `key` up in a sorted file: finds in the sparse index the last entry
/// at or below `key`, and reads the file from there until a greater key.
pub fn get_status(sparse_index: &Vec<(String, u64)>, kvfile: &KVFile, key: &str) -> (r: Result<
    Option<KeyStatus<String>>,
    Error,
>)
    requires
        kvfile.wf(),
        sorted_lines(kvfile.lines()),
        sparse_valid(sparse_view(sparse_index@), kvfile.lines()),
    ensures
        r is Ok,
        status_view(r.unwrap()) == opinion(entries_of(kvfile.lines()), key@),
{
    let ghost lines = kvfile.lines();
    let ghost sparse = sparse_view(sparse_index@);
    let ghost pos = choose|pos: Seq<int>| sparse_at(sparse, lines, pos);
    let ghost end = kvfile.bytes().len() as int;
    proof {
        kvfile.lemma_wf();
    }
    let mut lo: usize = 0;
    let mut hi: usize = sparse_index.len();
    while lo < hi
        invariant
            lo <= hi <= sparse.len(),
            sparse == sparse_view(sparse_index@),
            sparse_at(sparse, lines, pos),
            sorted_lines(lines),
            forall|e: int| 0 <= e < lo ==> str_le((#[trigger] sparse[e]).0, key@),
            forall|e: int| hi <= e < sparse.len() ==> str_lt(key@, (#[trigger] sparse[e]).0),
        decreases hi - lo,
    {
        let mid = lo + (hi - lo) / 2;
        assert(sparse[mid as int].0 == sparse_index@[mid as int].0@);
        match compare_keys(sparse_index[mid].0.as_str(), key) {
            KeyOrder::Greater => {
                assert forall|e: int| mid <= e < sparse.len() implies str_lt(
                    key@,
                    (#[trigger] sparse[e]).0,
                ) by {
                    if mid < e {
                        assert(pos[mid as int] < pos[e]);
                        assert(str_lt(lines[pos[mid as int]].key, lines[pos[e]].key));
                        lemma_str_lt_transitive(key@, sparse[mid as int].0, sparse[e].0);
                    }
                }
                hi = mid;
            },
            _ => {
                assert forall|e: int| 0 <= e < mid + 1 implies str_le(
                    (#[trigger] sparse[e]).0,
                    key@,
                ) by {
                    lemma_str_lt_total(sparse[mid as int].0, key@);
                    if e < mid {
                        assert(pos[e] < pos[mid as int]);
                        assert(str_lt(lines[pos[e]].key, lines[pos[mid as int]].key));
                        if sparse[mid as int].0 != key@ {
                            lemma_str_lt_transitive(sparse[e].0, sparse[mid as int].0, key@);
                        }
                    }
                }
                lo = mid + 1;
            },
        }
    }
    if lo == 0 {
        proof {
            if lines.len() > 0 {
                assert(str_lt(key@, sparse[0].0));
                assert(pos[0] == 0);
                lemma_none_behind(lines, key@, 0);
            }
            lemma_scan_start(lines, key@, 0);
            lemma_scan_done(lines, key@, 0, None);
        }
        return Ok(None);
    }
    let start = sparse_index[lo - 1].1;
    proof {
        assert(sparse[lo - 1] == (lines[pos[lo - 1]].key, lines[pos[lo - 1]].offset));
        assert(sparse[lo - 1].1 == sparse_index@[lo - 1].1 as int);
        lemma_offsets_increase(kvfile.bytes(), lines, end, pos[lo - 1], lines.len() as int);
    }
    scan_from(kvfile, start, key, Ghost(pos[lo - 1]))
}

/// A read-only handle on a sorted segment.
pub struct Reader<'a> {
    kvfile: KVFile,
    sparse_index: &'a Vec<(String, u64)>,
}

impl<'a> Reader<'a> {
    /// The records of the segment's file.
    pub closed spec fn lines(&self) -> Seq<LineView> {
        self.kvfile.lines()
    }
}

impl<'a> SegmentReader for Reader<'a> {
    closed spec fn wf(&self) -> bool {
        &&& self.kvfile.wf()
        &&& sorted_lines(self.kvfile.lines())
        &&& sparse_valid(sparse_view(self.sparse_index@), self.kvfile.lines())
    }

    closed spec fn bytes(&self) -> Seq<u8> {
        self.kvfile.bytes()
    }

    fn get_status(&self, key: &str) -> (r: Result<Option<KeyStatus<String>>, Error>) {
        proof {
            self.kvfile.lemma_wf();
        }
        get_status(self.sparse_index, &self.kvfile, key)
    }
}

/// A sorted segment.
pub struct File {
    dir_path: String,
    sparsity: u64,
    kvfile: KVFile,
    sparse_index: Vec<(String, u64)>,
    last_indexed_offset: u64,
    last_key: Option<String>,
}

/// The view of an optional key.
pub open spec fn key_view(key: Option<String>) -> Option<Seq<char>> {
    match key {
        Some(k) => Some(k@),
        None => None,
    }
}

/// The key of the last record, if there is a record.
pub open spec fn last_key_of(lines: Seq<LineView>) -> Option<Seq<char>> {
    if lines.len() == 0 {
        None
    } else {
        Some(lines.last().key)
    }
}

impl File {
    /// The records of the segment's file.
    pub closed spec fn lines(&self) -> Seq<LineView> {
        self.kvfile.lines()
    }

    /// The sparse index of the segment: keys and the offsets of their
    /// records.
    pub closed spec fn sparse_index(&self) -> Seq<(Seq<char>, int)> {
        sparse_view(self.sparse_index@)
    }

    /// The offset that the segment indexed last.
    pub closed spec fn last_indexed_offset(&self) -> int {
        self.last_indexed_offset as int
    }

    /// How many bytes at least lie between two indexed records.
    pub closed spec fn sparsity(&self) -> int {
        self.sparsity as int
    }

    /// The directory of the segment.
    pub closed spec fn dir(&self) -> Seq<char> {
        self.dir_path@
    }

    /// The sparse index of the segment: keys and the offsets of their
    /// records.
    pub fn index_entries(&self) -> (r: &Vec<(String, u64)>)
        ensures
            sparse_view(r@) == self.sparse_index(),
    {
        &self.sparse_index
    }

    /// The file of a sound segment is strictly sorted by key.
    pub proof fn lemma_sorted(&self)
        requires
            self.wf(),
        ensures
            self.lines() == lines_of(self.bytes()),
            sorted_lines(self.lines()),
    {
        self.kvfile.lemma_wf();
    }

    /// The sparse index of a sound segment is the one that the placement rule
    /// builds, and every entry of it names the key of the record that starts
    /// at its offset.
    pub proof fn lemma_sparse_index(&self)
        requires
            self.wf(),
        ensures
            self.sparse_index() == sparse_of(self.lines(), self.sparsity()),
            self.last_indexed_offset() == last_indexed(self.sparse_index()),
            sparse_valid(self.sparse_index(), self.lines()),
            forall|e: int, f: int|
                0 <= e < f < self.sparse_index().len() ==> (#[trigger] self.sparse_index()[f]).1
                    - (#[trigger] self.sparse_index()[e]).1 > self.sparsity(),
            forall|e: int|
                0 <= e < self.sparse_index().len() ==> (match record_at(
                    self.bytes(),
                    (#[trigger] self.sparse_index()[e]).1,
                ) {
                    Some((line, _)) => line.key == self.sparse_index()[e].0,
                    None => false,
                }),
    {
        self.kvfile.lemma_wf();
        lemma_sparse_gaps(self.lines(), self.sparsity());
        let pos = lemma_sparse_of(self.lines(), self.sparsity());
        let sparse = self.sparse_index();
        let lines = self.lines();
        assert forall|e: int| 0 <= e < sparse.len() implies (match record_at(
            self.bytes(),
            (#[trigger] sparse[e]).1,
        ) {
            Some((line, _)) => line.key == sparse[e].0,
            None => false,
        }) by {
            assert(sparse[e] == (lines[pos[e]].key, lines[pos[e]].offset));
            assert(record_at(self.bytes(), lines[pos[e]].offset) is Some);
        }
    }
}

/// What the placement rule makes of a sparse index when a record with the
/// given key starts at `offset`.
pub open spec fn sparse_step(
    sparse: Seq<(Seq<char>, int)>,
    key: Seq<char>,
    offset: int,
    sparsity: int,
) -> Seq<(Seq<char>, int)> {
    if sparse.len() == 0 || offset - last_indexed(sparse) > sparsity {
        sparse.push((key, offset))
    } else {
        sparse
    }
}

/// The offset indexed last lies inside the file.
pub proof fn lemma_last_indexed_bound(bytes: Seq<u8>, lines: Seq<LineView>, sparsity: int)
    requires
        log_lines(bytes, lines),
    ensures
        0 <= last_indexed(sparse_of(lines, sparsity)) <= bytes.len(),
{
    let pos = lemma_sparse_of(lines, sparsity);
    let sparse = sparse_of(lines, sparsity);
    if sparse.len() > 0 {
        let p = pos[sparse.len() - 1];
        lemma_offsets_increase(bytes, lines, bytes.len() as int, p, lines.len() as int);
    }
}

/// A record with a key above the last key keeps a sorted file sorted.
pub proof fn lemma_sorted_push(lines: Seq<LineView>, line: LineView)
    requires
        sorted_lines(lines),
        lines.len() == 0 || str_lt(lines.last().key, line.key),
    ensures
        sorted_lines(lines.push(line)),
{
    let after = lines.push(line);
    assert forall|i: int, j: int| 0 <= i < j < after.len() implies str_lt(
        (#[trigger] after[i]).key,
        (#[trigger] after[j]).key,
    ) by {
        assert(after[i] == lines[i]);
        if j < lines.len() {
            assert(after[j] == lines[j]);
        } else if i < lines.len() - 1 {
            assert(str_lt(lines[i].key, lines[lines.len() - 1].key));
            lemma_str_lt_transitive(lines[i].key, lines.last().key, line.key);
        }
    }
}

/// Applies the placement rule to one record: indexes it if it is the first,
/// or starts more than `sparsity` bytes behind the record indexed last.
fn index_record(
    sparse_index: &mut Vec<(String, u64)>,
    last_indexed_offset: &mut u64,
    sparsity: u64,
    key: &str,
    offset: u64,
)
    requires
        *old(last_indexed_offset) as int == last_indexed(sparse_view(old(sparse_index)@)),
        *old(last_indexed_offset) <= offset,
    ensures
        sparse_view(final(sparse_index)@) == sparse_step(
            sparse_view(old(sparse_index)@),
            key@,
            offset as int,
            sparsity as int,
        ),
        *final(last_indexed_offset) as int == last_indexed(sparse_view(final(sparse_index)@)),
{
    if sparse_index.len() == 0 || offset - *last_indexed_offset > sparsity {
        sparse_index.push((key.to_owned(), offset));
        *last_indexed_offset = offset;
        assert(sparse_view(sparse_index@) =~= sparse_view(old(sparse_index)@).push(
            (key@, offset as int),
        ));
    }
}

/// Whether a record with the given key may follow a record with key `last`.
fn follows(last: &Option<String>, key: &str) -> (r: bool)
    ensures
        r == match key_view(*last) {
            None => true,
            Some(prev) => str_lt(prev, key@),
        },
{
    match last {
        None => true,
        Some(prev) => match compare_keys(prev.as_str(), key) {
            KeyOrder::Less => true,
            _ => false,
        },
    }
}

/// What holds while two sorted files `a` (the newer) and `b` are merged into
/// `o`, when the first `ia` records of `a` and the first `ib` of `b` are done.
pub open spec fn merge_inv(
    a: Seq<LineView>,
    b: Seq<LineView>,
    o: Seq<LineView>,
    ia: int,
    ib: int,
) -> bool {
    &&& 0 <= ia <= a.len()
    &&& 0 <= ib <= b.len()
    &&& sorted_lines(a)
    &&& sorted_lines(b)
    &&& sorted_lines(o)
    &&& forall|m: int, p: int|
        0 <= m < o.len() && ia <= p < a.len() ==> str_lt(
            (#[trigger] o[m]).key,
            (#[trigger] a[p]).key,
        )
    &&& forall|m: int, q: int|
        0 <= m < o.len() && ib <= q < b.len() ==> str_lt(
            (#[trigger] o[m]).key,
            (#[trigger] b[q]).key,
        )
    &&& forall|p: int, q: int|
        0 <= p < ia && ib <= q < b.len() ==> str_lt((#[trigger] a[p]).key, (#[trigger] b[q]).key)
    &&& forall|q: int, p: int|
        0 <= q < ib && ia <= p < a.len() ==> str_lt((#[trigger] b[q]).key, (#[trigger] a[p]).key)
    &&& entries_of(o) == entries_of(b.take(ib)).union_prefer_right(entries_of(a.take(ia)))
}

/// The merge starts with nothing done and nothing written.
pub proof fn lemma_merge_start(a: Seq<LineView>, b: Seq<LineView>)
    requires
        sorted_lines(a),
        sorted_lines(b),
    ensures
        merge_inv(a, b, Seq::empty(), 0, 0),
{
    let o = Seq::<LineView>::empty();
    assert(a.take(0) =~= o);
    assert(b.take(0) =~= o);
    assert(entries_of(o) =~= entries_of(o).union_prefer_right(entries_of(o)));
}

/// The merge writes the next record of the newer file: its key is the
/// smaller, or the older file is done, or the keys are equal and the older
/// file's record is dropped.
pub proof fn lemma_merge_take_this(
    a: Seq<LineView>,
    b: Seq<LineView>,
    o: Seq<LineView>,
    ia: int,
    ib: int,
    offset: int,
    skip: bool,
)
    requires
        merge_inv(a, b, o, ia, ib),
        ia < a.len(),
        skip ==> ib < b.len() && b[ib].key == a[ia].key,
        !skip ==> ib == b.len() || str_lt(a[ia].key, b[ib].key),
    ensures
        o.len() == 0 || str_lt(o.last().key, a[ia].key),
        merge_inv(
            a,
            b,
            o.push(LineView { key: a[ia].key, status: a[ia].status, offset }),
            ia + 1,
            if skip {
                ib + 1
            } else {
                ib
            },
        ),
{
    let k = a[ia].key;
    let line = LineView { key: k, status: a[ia].status, offset };
    let o2 = o.push(line);
    let ib2 = if skip {
        ib + 1
    } else {
        ib
    };
    if o.len() > 0 {
        assert(str_lt(o[o.len() - 1].key, a[ia].key));
    }
    lemma_sorted_push(o, line);
    assert forall|q: int| ib2 <= q < b.len() implies str_lt(k, (#[trigger] b[q]).key) by {
        if q > ib {
            assert(str_lt(b[ib].key, b[q].key));
            if !skip {
                lemma_str_lt_transitive(k, b[ib].key, b[q].key);
            }
        }
    }
    assert forall|m: int, p: int| 0 <= m < o2.len() && ia + 1 <= p < a.len() implies str_lt(
        (#[trigger] o2[m]).key,
        (#[trigger] a[p]).key,
    ) by {
        if m < o.len() {
            assert(o2[m] == o[m]);
        } else {
            assert(str_lt(a[ia].key, a[p].key));
        }
    }
    assert forall|m: int, q: int| 0 <= m < o2.len() && ib2 <= q < b.len() implies str_lt(
        (#[trigger] o2[m]).key,
        (#[trigger] b[q]).key,
    ) by {
        if m < o.len() {
            assert(o2[m] == o[m]);
        }
    }
    assert forall|q: int, p: int| 0 <= q < ib2 && ia + 1 <= p < a.len() implies str_lt(
        (#[trigger] b[q]).key,
        (#[trigger] a[p]).key,
    ) by {
        if q == ib {
            assert(str_lt(a[ia].key, a[p].key));
        }
    }
    lemma_entries_push(o, line);
    assert(a.take(ia + 1) =~= a.take(ia).push(a[ia]));
    lemma_entries_push(a.take(ia), a[ia]);
    if skip {
        assert(b.take(ib + 1) =~= b.take(ib).push(b[ib]));
        lemma_entries_push(b.take(ib), b[ib]);
    }
    assert(entries_of(o2) =~= entries_of(b.take(ib2)).union_prefer_right(
        entries_of(a.take(ia + 1)),
    ));
}

/// The merge writes the next record of the older file: its key is the
/// smaller, or the newer file is done.
pub proof fn lemma_merge_take_other(
    a: Seq<LineView>,
    b: Seq<LineView>,
    o: Seq<LineView>,
    ia: int,
    ib: int,
    offset: int,
)
    requires
        merge_inv(a, b, o, ia, ib),
        ib < b.len(),
        ia == a.len() || str_lt(b[ib].key, a[ia].key),
    ensures
        o.len() == 0 || str_lt(o.last().key, b[ib].key),
        merge_inv(
            a,
            b,
            o.push(LineView { key: b[ib].key, status: b[ib].status, offset }),
            ia,
            ib + 1,
        ),
{
    let k = b[ib].key;
    let line = LineView { key: k, status: b[ib].status, offset };
    let o2 = o.push(line);
    if o.len() > 0 {
        assert(str_lt(o[o.len() - 1].key, b[ib].key));
    }
    lemma_sorted_push(o, line);
    assert forall|p: int| ia <= p < a.len() implies str_lt(k, (#[trigger] a[p]).key) by {
        if p > ia {
            assert(str_lt(a[ia].key, a[p].key));
            lemma_str_lt_transitive(k, a[ia].key, a[p].key);
        }
    }
    assert forall|m: int, p: int| 0 <= m < o2.len() && ia <= p < a.len() implies str_lt(
        (#[trigger] o2[m]).key,
        (#[trigger] a[p]).key,
    ) by {
        if m < o.len() {
            assert(o2[m] == o[m]);
        }
    }
    assert forall|m: int, q: int| 0 <= m < o2.len() && ib + 1 <= q < b.len() implies str_lt(
        (#[trigger] o2[m]).key,
        (#[trigger] b[q]).key,
    ) by {
        if m < o.len() {
            assert(o2[m] == o[m]);
        } else {
            assert(str_lt(b[ib].key, b[q].key));
        }
    }
    assert forall|p: int, q: int| 0 <= p < ia && ib + 1 <= q < b.len() implies str_lt(
        (#[trigger] a[p]).key,
        (#[trigger] b[q]).key,
    ) by {}
    lemma_entries_push(o, line);
    assert(b.take(ib + 1) =~= b.take(ib).push(b[ib]));
    lemma_entries_push(b.take(ib), b[ib]);
    assert(!entries_of(a.take(ia)).contains_key(k)) by {
        lemma_latest(a.take(ia), k);
        if latest(a.take(ia), k) is Some {
            let p = latest(a.take(ia), k).unwrap();
            assert(a.take(ia)[p] == a[p]);
            assert(str_lt(a[p].key, b[ib].key));
            lemma_str_lt_irreflexive(k);
        }
    }
    assert(entries_of(o2) =~= entries_of(b.take(ib + 1)).union_prefer_right(
        entries_of(a.take(ia)),
    ));
}

/// When both files are done, what was written says what the two files say
/// together, the newer file first.
pub proof fn lemma_merge_done(a: Seq<LineView>, b: Seq<LineView>, o: Seq<LineView>)
    requires
        merge_inv(a, b, o, a.len() as int, b.len() as int),
    ensures
        sorted_lines(o),
        entries_of(o) == entries_of(b).union_prefer_right(entries_of(a)),
{
    assert(a.take(a.len() as int) =~= a);
    assert(b.take(b.len() as int) =~= b);
}

impl SegmentFile for File {
    type Reader<'a> = Reader<'a>;

    closed spec fn wf(&self) -> bool {
        &&& self.kvfile.wf()
        &&& sorted_lines(self.kvfile.lines())
        &&& sparse_view(self.sparse_index@) == sparse_of(self.kvfile.lines(), self.sparsity as int)
        &&& self.last_indexed_offset as int == last_indexed(sparse_view(self.sparse_index@))
        &&& key_view(self.last_key) == last_key_of(self.kvfile.lines())
        &&& self.dir_path@ == self.kvfile.dir()
    }

    closed spec fn bytes(&self) -> Seq<u8> {
        self.kvfile.bytes()
    }

    closed spec fn name(&self) -> Seq<char> {
        self.kvfile.name()
    }

    open spec fn accepts(&self, key: Seq<char>) -> bool {
        self.lines().len() == 0 || str_lt(self.lines().last().key, key)
    }

    open spec fn full(&self) -> bool {
        false
    }

    open spec fn valid_image(bytes: Seq<u8>) -> bool {
        valid_log(bytes) && sorted_lines(lines_of(bytes))
    }

    open spec fn parameter(&self) -> u64 {
        self.sparsity() as u64
    }

    proof fn lemma_wf(&self) {
        self.kvfile.lemma_wf();
    }

    fn set_status(&mut self, key: &str, status: &KeyStatus<String>) -> (r: Result<(), Error>)
        ensures
            r is Ok ==> final(self).lines() == old(self).lines().push(
                LineView { key: key@, status: status@, offset: old(self).bytes().len() as int },
            ),
            r is Err ==> final(self).lines() == old(self).lines(),
            final(self).sparsity() == old(self).sparsity(),
            final(self).dir() == old(self).dir(),
    {
        if !follows(&self.last_key, key) {
            return Err(Error::OutOfOrderWrite);
        }
        let ghost lines = self.kvfile.lines();
        let ghost line = LineView {
            key: key@,
            status: status@,
            offset: self.kvfile.bytes().len() as int,
        };
        proof {
            self.kvfile.lemma_wf();
            lemma_log_entries_append(self.kvfile.bytes(), key@, status@);
            lemma_last_indexed_bound(self.kvfile.bytes(), lines, self.sparsity as int);
            lemma_sparse_push(lines, line, self.sparsity as int);
            lemma_sorted_push(lines, line);
        }
        let offset = self.kvfile.append_line(key, status)?;
        index_record(
            &mut self.sparse_index,
            &mut self.last_indexed_offset,
            self.sparsity,
            key,
            offset,
        );
        self.last_key = Some(key.to_owned());
        Ok(())
    }

    fn get_status(&self, key: &str) -> (r: Result<Option<KeyStatus<String>>, Error>) {
        proof {
            self.kvfile.lemma_wf();
            lemma_sparse_of(self.kvfile.lines(), self.sparsity as int);
        }
        get_status(&self.sparse_index, &self.kvfile, key)
    }

    fn ready_to_be_archived(&self) -> (r: Result<bool, Error>) {
        Ok(false)
    }

    fn absorb<'a>(&mut self, other: &Reader<'a>) -> (r: Result<(), Error>)
        ensures
            final(self).sparsity() == old(self).sparsity(),
            final(self).dir() == old(self).dir(),
    {
        let mut new_file = KVFile::new(self.dir_path.as_str(), TMP_FILE_NAME)?;
        let mut new_index: Vec<(String, u64)> = Vec::new();
        let mut last_indexed_offset: u64 = 0;
        let mut last_key: Option<String> = None;
        let sparsity = self.sparsity;
        let ghost a = self.kvfile.lines();
        let ghost b = other.kvfile.lines();
        proof {
            self.kvfile.lemma_wf();
            other.kvfile.lemma_wf();
            lemma_merge_start(a, b);
            assert(sparse_view(new_index@) =~= sparse_of(Seq::<LineView>::empty(), sparsity as int));
        }
        let mut this_iter = self.kvfile.iter()?;
        let mut this_buf = this_iter.next_line(Ghost(a), Ghost(0))?;
        let mut other_iter = other.kvfile.iter()?;
        let mut other_buf = other_iter.next_line(Ghost(b), Ghost(0))?;
        let ghost mut ia: int = 0;
        let ghost mut ib: int = 0;
        loop
            invariant
                log_lines(this_iter.bytes(), a),
                log_lines(other_iter.bytes(), b),
                ia < a.len() ==> this_iter.position() == next_offset(
                    a,
                    ia,
                    this_iter.bytes().len() as int,
                ),
                ib < b.len() ==> other_iter.position() == next_offset(
                    b,
                    ib,
                    other_iter.bytes().len() as int,
                ),
                match this_buf {
                    Some(line) => ia < a.len() && line@ == a[ia],
                    None => ia == a.len(),
                },
                match other_buf {
                    Some(line) => ib < b.len() && line@ == b[ib],
                    None => ib == b.len(),
                },
                new_file.wf(),
                new_file.dir() == old(self).dir_path@,
                new_file.name() == TMP_FILE_NAME@,
                merge_inv(a, b, new_file.lines(), ia, ib),
                key_view(last_key) == last_key_of(new_file.lines()),
                sparse_view(new_index@) == sparse_of(new_file.lines(), sparsity as int),
                last_indexed_offset as int == last_indexed(sparse_view(new_index@)),
            ensures
                new_file.wf(),
                new_file.dir() == old(self).dir_path@,
                merge_inv(a, b, new_file.lines(), a.len() as int, b.len() as int),
                key_view(last_key) == last_key_of(new_file.lines()),
                sparse_view(new_index@) == sparse_of(new_file.lines(), sparsity as int),
                last_indexed_offset as int == last_indexed(sparse_view(new_index@)),
            decreases (a.len() - ia) + (b.len() - ib),
        {
            if this_buf.is_none() && other_buf.is_none() {
                break ;
            }
            let ghost o = new_file.lines();
            let ghost offset = new_file.bytes().len() as int;
            let (take_this, skip_other): (bool, bool) = match &this_buf {
                None => (false, false),
                Some(mine) => match &other_buf {
                    None => (true, false),
                    Some(theirs) => match compare_keys(mine.key.as_str(), theirs.key.as_str()) {
                        KeyOrder::Less => (true, false),
                        KeyOrder::Equal => (true, true),
                        KeyOrder::Greater => (false, false),
                    },
                },
            };
            proof {
                new_file.lemma_wf();
                lemma_last_indexed_bound(new_file.bytes(), o, sparsity as int);
                if take_this {
                    lemma_merge_take_this(a, b, o, ia, ib, offset, skip_other);
                    let line = LineView { key: a[ia].key, status: a[ia].status, offset };
                    lemma_sparse_push(o, line, sparsity as int);
                } else {
                    lemma_merge_take_other(a, b, o, ia, ib, offset);
                    let line = LineView { key: b[ib].key, status: b[ib].status, offset };
                    lemma_sparse_push(o, line, sparsity as int);
                }
            }
            if skip_other {
                other_buf = other_iter.next_line(Ghost(b), Ghost(ib + 1))?;
                proof {
                    ib = ib + 1;
                }
            }
            let line = if take_this {
                let line = this_buf.unwrap();
                this_buf = this_iter.next_line(Ghost(a), Ghost(ia + 1))?;
                proof {
                    ia = ia + 1;
                }
                line
            } else {
                let line = other_buf.unwrap();
                other_buf = other_iter.next_line(Ghost(b), Ghost(ib + 1))?;
                proof {
                    ib = ib + 1;
                }
                line
            };
            let should_write = follows(&last_key, line.key.as_str());
            assert(should_write);
            if should_write {
                let offset = new_file.append_line(line.key.as_str(), &line.status)?;
                index_record(
                    &mut new_index,
                    &mut last_indexed_offset,
                    sparsity,
                    line.key.as_str(),
                    offset,
                );
                last_key = Some(line.key);
            }
        }
        proof {
            lemma_merge_done(a, b, new_file.lines());
            new_file.lemma_wf();
        }
        let file_name = self.kvfile.file_name().to_owned();
        std::mem::swap(&mut self.kvfile, &mut new_file);
        new_file.delete()?;
        self.kvfile.rename(file_name.as_str())?;
        self.sparse_index = new_index;
        self.last_indexed_offset = last_indexed_offset;
        self.last_key = last_key;
        proof {
            self.kvfile.lemma_wf();
        }
        Ok(())
    }

    fn rename(&mut self, new_file_name: &str) -> (r: Result<(), Error>)
        ensures
            final(self).lines() == old(self).lines(),
            final(self).sparsity() == old(self).sparsity(),
            final(self).dir() == old(self).dir(),
    {
        self.kvfile.rename(new_file_name)
    }

    fn delete(self) -> (r: Result<(), Error>) {
        self.kvfile.delete()
    }

    fn file_name(&self) -> (r: String) {
        self.kvfile.file_name().to_owned()
    }

    fn contents(&self) -> (r: Vec<u8>) {
        self.kvfile.contents()
    }
}

/// Makes read-only handles on sorted segments.
pub struct ReaderFactory {}

impl SegmentReaderFactory<File> for ReaderFactory {
    fn new<'a>(&self, file: &'a File) -> (r: Result<Reader<'a>, Error>) {
        proof {
            lemma_sparse_of(file.kvfile.lines(), file.sparsity as int);
        }
        Ok(Reader { kvfile: file.kvfile.copy()?, sparse_index: &file.sparse_index })
    }
}

/// Makes sorted segments in one directory, all with one sparsity.
pub struct Factory {
    pub dir_path: String,
    pub sparsity: u64,
}

impl SegmentFileFactory<File> for Factory {
    open spec fn parameter(&self) -> u64 {
        self.sparsity
    }

    fn new(&self, file_name: &str) -> (r: Result<File, Error>)
        ensures
            r.unwrap().sparsity() == self.sparsity,
            r.unwrap().dir() == self.dir_path@,
            r.unwrap().lines() == Seq::<LineView>::empty(),
    {
        let kvfile = KVFile::new(self.dir_path.as_str(), file_name)?;
        let sparse_index: Vec<(String, u64)> = Vec::new();
        proof {
            assert(sparse_view(sparse_index@) =~= sparse_of(
                Seq::<LineView>::empty(),
                self.sparsity as int,
            ));
        }
        Ok(
            File {
                dir_path: self.dir_path.clone(),
                sparsity: self.sparsity,
                kvfile,
                sparse_index,
                last_indexed_offset: 0,
                last_key: None,
            },
        )
    }

    fn from_disk(&self, file_name: &str, bytes: Vec<u8>) -> (r: Result<File, Error>)
        ensures
            r matches Ok(f) ==> f.sparsity() == self.sparsity && f.dir() == self.dir_path@,
    {
        let kvfile = KVFile::from_bytes(self.dir_path.as_str(), file_name, bytes)?;
        let mut last_indexed_offset: u64 = 0;
        let mut sparse_index: Vec<(String, u64)> = Vec::new();
        let mut last_key: Option<String> = None;
        let sparsity = self.sparsity;
        let ghost lines = kvfile.lines();
        let ghost mut n: int = 0;
        proof {
            kvfile.lemma_wf();
            assert(lines.take(0) =~= Seq::<LineView>::empty());
            assert(sparse_view(sparse_index@) =~= sparse_of(lines.take(0), sparsity as int));
        }
        let mut iter = kvfile.iter()?;
        loop
            invariant
                kvfile.wf(),
                lines == kvfile.lines(),
                lines == lines_of(bytes@),
                valid_log(bytes@),
                log_lines(kvfile.bytes(), lines),
                iter.bytes() == kvfile.bytes(),
                0 <= n <= lines.len(),
                n == 0 ==> iter.position() == 0,
                n > 0 ==> iter.position() == next_offset(lines, n - 1, kvfile.bytes().len() as int),
                sorted_lines(lines.take(n)),
                key_view(last_key) == last_key_of(lines.take(n)),
                sparse_view(sparse_index@) == sparse_of(lines.take(n), sparsity as int),
                last_indexed_offset as int == last_indexed(sparse_view(sparse_index@)),
            ensures
                sorted_lines(lines),
                key_view(last_key) == last_key_of(lines),
                sparse_view(sparse_index@) == sparse_of(lines, sparsity as int),
                last_indexed_offset as int == last_indexed(sparse_view(sparse_index@)),
            decreases lines.len() - n,
        {
            let line = match iter.next_line(Ghost(lines), Ghost(n))? {
                None => {
                    proof {
                        assert(lines.take(n) =~= lines);
                    }
                    break ;
                },
                Some(line) => line,
            };
            proof {
                assert(lines.take(n + 1) =~= lines.take(n).push(lines[n]));
                if n > 0 {
                    assert(lines.take(n).last() == lines[n - 1]);
                }
            }
            if !follows(&last_key, line.key.as_str()) {
                proof {
                    assert(!str_lt(lines[n - 1].key, lines[n].key));
                }
                return Err(Error::MalformedRecord);
            }
            proof {
                lemma_sorted_push(lines.take(n), lines[n]);
                lemma_sparse_push(lines.take(n), lines[n], sparsity as int);
                lemma_last_indexed_bound(kvfile.bytes(), lines, sparsity as int);
                let pos = lemma_sparse_of(lines.take(n), sparsity as int);
                let sparse = sparse_of(lines.take(n), sparsity as int);
                if sparse.len() > 0 {
                    let p = pos[sparse.len() - 1];
                    assert(lines.take(n)[p] == lines[p]);
                    lemma_offsets_ordered(kvfile.bytes(), lines, kvfile.bytes().len() as int, p, n);
                }
                lemma_offsets_ordered(kvfile.bytes(), lines, kvfile.bytes().len() as int, n, n);
            }
            index_record(
                &mut sparse_index,
                &mut last_indexed_offset,
                sparsity,
                line.key.as_str(),
                line.offset,
            );
            last_key = Some(line.key);
            proof {
                n = n + 1;
            }
        }
        Ok(
            File {
                dir_path: self.dir_path.clone(),
                sparsity: self.sparsity,
                kvfile,
                sparse_index,
                last_indexed_offset,
                last_key,
            },
        )
    }
}

} // verus!
