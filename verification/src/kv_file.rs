//! The append-only record file.
//!
//! A file is a run of records, one per line.  A record is a key, a status and
//! nothing else; every key and value is written as its length in decimal, a
//! colon, and its bytes, so a record can be read from its first byte without
//! looking for a delimiter inside the text:
//!
//! ```text
//! <key length>:<key>=<value length>:<value>\n      a live value
//! <key length>:<key>!\n                            a tombstone
//! ```

use crate::error::Error;
use crate::kvdb::KeyStatus;
use crate::utils::{dec_digits, dec_value, is_digit, push_decimal, string_from_utf8};
use crate::utils::{lemma_dec_round_trip, lemma_dec_value_prefix};
use vstd::prelude::*;
use vstd::slice::{slice_subrange, slice_to_vec};
use vstd::utf8::{decode_utf8, encode_utf8, valid_utf8};
use vstd::utf8::{encode_utf8_decode_utf8, encode_utf8_valid_utf8};

verus! {

/// The byte between a length and the text it measures.
pub const COLON: u8 = 0x3a;

/// The byte between a key and its live value.
pub const EQUALS: u8 = 0x3d;

/// The byte after the key of a tombstone.
pub const BANG: u8 = 0x21;

/// The byte that ends a record.
pub const NEWLINE: u8 = 0x0a;

/// One record of a file, as specifications see it.
pub struct LineView {
    pub key: Seq<char>,
    pub status: KeyStatus<Seq<char>>,
    pub offset: int,
}

/// One record of a file: a key, its status, and the offset of its first byte.
#[derive(Debug, Clone, PartialEq, Eq)]
pub struct KVLine {
    pub key: String,
    pub status: KeyStatus<String>,
    pub offset: u64,
}

impl View for KVLine {
    type V = LineView;

    open spec fn view(&self) -> LineView {
        LineView { key: self.key@, status: self.status@, offset: self.offset as int }
    }
}

/// The first position at or after `pos` that holds no digit.
pub open spec fn digits_end(s: Seq<u8>, pos: int) -> int
    decreases s.len() - pos,
{
    if 0 <= pos < s.len() && is_digit(s[pos]) {
        digits_end(s, pos + 1)
    } else {
        pos
    }
}

/// The length-prefixed field that starts at `pos`: its bytes, and the position
/// after them.
pub open spec fn field_at(s: Seq<u8>, pos: int) -> Option<(Seq<u8>, int)> {
    let e = digits_end(s, pos);
    if pos < 0 || e == pos || e >= s.len() || s[e] != COLON {
        None
    } else {
        let n = dec_value(s.subrange(pos, e));
        if e + 1 + n > s.len() {
            None
        } else {
            Some((s.subrange(e + 1, e + 1 + n), e + 1 + n))
        }
    }
}

/// The length-prefixed text that starts at `pos`, and the position after it.
pub open spec fn text_at(s: Seq<u8>, pos: int) -> Option<(Seq<char>, int)> {
    match field_at(s, pos) {
        Some((b, e)) => if valid_utf8(b) {
            Some((decode_utf8(b), e))
        } else {
            None
        },
        None => None,
    }
}

/// The record that starts at `pos`, and the position after it.
#[verifier::opaque]
pub open spec fn record_at(s: Seq<u8>, pos: int) -> Option<(LineView, int)> {
    match text_at(s, pos) {
        None => None,
        Some((key, p)) => if p >= s.len() {
            None
        } else if s[p] == BANG {
            if p + 1 < s.len() && s[p + 1] == NEWLINE {
                Some((LineView { key, status: KeyStatus::Deleted, offset: pos }, p + 2))
            } else {
                None
            }
        } else if s[p] == EQUALS {
            match text_at(s, p + 1) {
                None => None,
                Some((value, q)) => if q < s.len() && s[q] == NEWLINE {
                    Some((LineView { key, status: KeyStatus::Present(value), offset: pos }, q + 1))
                } else {
                    None
                },
            }
        } else {
            None
        },
    }
}

/// A field as it is written: length, colon, bytes.
pub open spec fn encode_field(b: Seq<u8>) -> Seq<u8> {
    dec_digits(b.len()) + seq![COLON] + b
}

/// A record as it is written.
pub open spec fn encode_record(key: Seq<char>, status: KeyStatus<Seq<char>>) -> Seq<u8> {
    match status {
        KeyStatus::Deleted => encode_field(encode_utf8(key)) + seq![BANG, NEWLINE],
        KeyStatus::Present(v) => encode_field(encode_utf8(key)) + seq![EQUALS] + encode_field(
            encode_utf8(v),
        ) + seq![NEWLINE],
    }
}

/// The offset of the record after record `i`, or `end` after the last one.
#[verifier::opaque]
pub open spec fn next_offset(lines: Seq<LineView>, i: int, end: int) -> int {
    if i + 1 < lines.len() {
        lines[i + 1].offset
    } else {
        end
    }
}

/// `lines` are the records of `bytes` from its start up to `end`, in order and
/// without a gap.
pub open spec fn lines_cover(bytes: Seq<u8>, lines: Seq<LineView>, end: int) -> bool {
    &&& 0 <= end <= bytes.len()
    &&& (lines.len() == 0 ==> end == 0)
    &&& (lines.len() > 0 ==> lines[0].offset == 0)
    &&& forall|i: int|
        0 <= i < lines.len() ==> record_at(bytes, (#[trigger] lines[i]).offset) == Some(
            (lines[i], next_offset(lines, i, end)),
        )
}

/// `lines` are the records of the whole of `bytes`.
pub open spec fn log_lines(bytes: Seq<u8>, lines: Seq<LineView>) -> bool {
    lines_cover(bytes, lines, bytes.len() as int)
}

/// `bytes` is a run of records and nothing else.
pub open spec fn valid_log(bytes: Seq<u8>) -> bool {
    exists|lines: Seq<LineView>| log_lines(bytes, lines)
}

/// The records of a valid file image.
pub open spec fn lines_of(bytes: Seq<u8>) -> Seq<LineView> {
    choose|lines: Seq<LineView>| log_lines(bytes, lines)
}

proof fn lemma_digits_end_is(s: Seq<u8>, pos: int, e: int)
    requires
        0 <= pos <= e <= s.len(),
        forall|i: int| pos <= i < e ==> is_digit(#[trigger] s[i]),
        e == s.len() || !is_digit(s[e]),
    ensures
        digits_end(s, pos) == e,
    decreases e - pos,
{
    if pos < e {
        lemma_digits_end_is(s, pos + 1, e);
    }
}

proof fn lemma_digits_end_props(s: Seq<u8>, pos: int)
    requires
        0 <= pos <= s.len(),
    ensures
        pos <= digits_end(s, pos) <= s.len(),
        forall|i: int| pos <= i < digits_end(s, pos) ==> is_digit(#[trigger] s[i]),
        digits_end(s, pos) == s.len() || !is_digit(s[digits_end(s, pos)]),
    decreases s.len() - pos,
{
    if pos < s.len() && is_digit(s[pos]) {
        lemma_digits_end_props(s, pos + 1);
    }
}

/// A field, where there is one, starts inside the bytes, is followed by its
/// end, and ends inside them.
proof fn lemma_field_bounds(s: Seq<u8>, pos: int)
    requires
        field_at(s, pos) is Some,
    ensures
        0 <= pos < s.len(),
        pos + 2 <= field_at(s, pos).unwrap().1 <= s.len(),
        field_at(s, pos).unwrap().1 == digits_end(s, pos) + 1 + field_at(s, pos).unwrap().0.len(),
{
    if 0 <= pos <= s.len() {
        lemma_digits_end_props(s, pos);
    }
}

/// Bytes added behind a field do not change it.
proof fn lemma_field_stable(s: Seq<u8>, t: Seq<u8>, pos: int)
    requires
        field_at(s, pos) is Some,
    ensures
        field_at(s + t, pos) == field_at(s, pos),
{
    lemma_field_bounds(s, pos);
    lemma_digits_end_props(s, pos);
    let e = digits_end(s, pos);
    let st = s + t;
    assert forall|i: int| pos <= i < e implies is_digit(#[trigger] st[i]) by {
        assert(st[i] == s[i]);
    }
    assert(st[e] == s[e]);
    lemma_digits_end_is(st, pos, e);
    assert(st.subrange(pos, e) =~= s.subrange(pos, e));
    let n = dec_value(s.subrange(pos, e));
    assert(st.subrange(e + 1, e + 1 + n) =~= s.subrange(e + 1, e + 1 + n));
}

/// Bytes added behind a record do not change it.
pub proof fn lemma_record_stable(s: Seq<u8>, t: Seq<u8>, pos: int)
    requires
        record_at(s, pos) is Some,
    ensures
        record_at(s + t, pos) == record_at(s, pos),
{
    reveal(record_at);
    let st = s + t;
    lemma_field_stable(s, t, pos);
    lemma_field_bounds(s, pos);
    let p = field_at(s, pos).unwrap().1;
    assert(st[p] == s[p]);
    if s[p] == BANG {
        assert(st[p + 1] == s[p + 1]);
    } else {
        lemma_field_stable(s, t, p + 1);
        lemma_field_bounds(s, p + 1);
        let q = field_at(s, p + 1).unwrap().1;
        assert(st[q] == s[q]);
    }
}

/// A record starts inside the bytes, ends after its start, and carries the
/// offset it was read at.
pub proof fn lemma_record_bounds(s: Seq<u8>, pos: int)
    requires
        record_at(s, pos) is Some,
    ensures
        0 <= pos < record_at(s, pos).unwrap().1 <= s.len(),
        record_at(s, pos).unwrap().0.offset == pos,
{
    reveal(record_at);
    lemma_field_bounds(s, pos);
    let p = field_at(s, pos).unwrap().1;
    if s[p] == EQUALS {
        lemma_field_bounds(s, p + 1);
    }
}

/// A field that was written at `pos` is read back from there.
proof fn lemma_field_round_trip(s: Seq<u8>, pos: int, b: Seq<u8>)
    requires
        0 <= pos,
        pos + encode_field(b).len() <= s.len(),
        s.subrange(pos, pos + encode_field(b).len()) == encode_field(b),
    ensures
        field_at(s, pos) == Some((b, pos + encode_field(b).len())),
{
    let d = dec_digits(b.len());
    let enc = encode_field(b);
    lemma_dec_round_trip(b.len());
    let e = pos + d.len();
    assert forall|i: int| pos <= i < e implies is_digit(#[trigger] s[i]) by {
        assert(s[i] == s.subrange(pos, pos + enc.len())[i - pos]);
        assert(enc[i - pos] == d[i - pos]);
    }
    assert(s[e] == s.subrange(pos, pos + enc.len())[e - pos]);
    assert(enc[e - pos] == COLON);
    lemma_digits_end_is(s, pos, e);
    assert(s.subrange(pos, e) =~= d) by {
        assert forall|i: int| 0 <= i < d.len() implies s.subrange(pos, e)[i] == d[i] by {
            assert(s[pos + i] == s.subrange(pos, pos + enc.len())[i]);
            assert(enc[i] == d[i]);
        }
    }
    assert(s.subrange(e + 1, e + 1 + b.len()) =~= b) by {
        assert forall|i: int| 0 <= i < b.len() implies s.subrange(e + 1, e + 1 + b.len())[i]
            == b[i] by {
            assert(s[e + 1 + i] == s.subrange(pos, pos + enc.len())[e + 1 + i - pos]);
            assert(enc[d.len() + 1 + i] == b[i]);
        }
    }
}

/// A record that was appended to a file is read back from where the file
/// ended before.
pub proof fn lemma_record_round_trip(s: Seq<u8>, key: Seq<char>, status: KeyStatus<Seq<char>>)
    ensures
        record_at(s + encode_record(key, status), s.len() as int) == Some(
            (
                LineView { key, status, offset: s.len() as int },
                (s.len() + encode_record(key, status).len()) as int,
            ),
        ),
{
    reveal(record_at);
    let enc = encode_record(key, status);
    let full = s + enc;
    let pos = s.len() as int;
    let kb = encode_utf8(key);
    let kf = encode_field(kb);
    encode_utf8_valid_utf8(key);
    encode_utf8_decode_utf8(key);
    assert(full.subrange(pos, pos + kf.len()) =~= kf);
    lemma_field_round_trip(full, pos, kb);
    let p = pos + kf.len();
    match status {
        KeyStatus::Deleted => {
            assert(full[p] == enc[p - pos]);
            assert(full[p + 1] == enc[p + 1 - pos]);
        },
        KeyStatus::Present(v) => {
            let vb = encode_utf8(v);
            let vf = encode_field(vb);
            encode_utf8_valid_utf8(v);
            encode_utf8_decode_utf8(v);
            assert(full[p] == enc[p - pos]);
            assert(full.subrange(p + 1, p + 1 + vf.len()) =~= vf);
            lemma_field_round_trip(full, p + 1, vb);
            assert(full[p + 1 + vf.len()] == enc[p + 1 + vf.len() - pos]);
        },
    }
}

/// What `next_offset` stands for.
pub proof fn lemma_next_offset(lines: Seq<LineView>, i: int, end: int)
    ensures
        next_offset(lines, i, end) == if i + 1 < lines.len() {
            lines[i + 1].offset
        } else {
            end
        },
{
    reveal(next_offset);
}

/// The records of a file start at strictly increasing offsets, all before the
/// end.
pub proof fn lemma_offsets_increase(bytes: Seq<u8>, lines: Seq<LineView>, end: int, i: int, j: int)
    requires
        lines_cover(bytes, lines, end),
        0 <= i < j <= lines.len(),
    ensures
        0 <= lines[i].offset < next_offset(lines, j - 1, end),
        next_offset(lines, j - 1, end) <= end,
    decreases lines.len() - i,
{
    reveal(next_offset);
    lemma_record_bounds(bytes, lines[i].offset);
    if i + 1 < j {
        lemma_offsets_increase(bytes, lines, end, i + 1, j);
    }
    if j < lines.len() {
        lemma_offsets_increase(bytes, lines, end, j, lines.len() as int);
    }
}

/// Of two records of a file, the earlier starts at the smaller offset, and
/// both start inside the file.
pub proof fn lemma_offsets_ordered(
    bytes: Seq<u8>,
    lines: Seq<LineView>,
    end: int,
    i: int,
    j: int,
)
    requires
        lines_cover(bytes, lines, end),
        0 <= i <= j < lines.len(),
    ensures
        0 <= lines[i].offset <= lines[j].offset < end,
        i < j ==> lines[i].offset < lines[j].offset,
{
    lemma_offsets_increase(bytes, lines, end, j, lines.len() as int);
    lemma_next_offset(lines, lines.len() - 1, end);
    if i < j {
        lemma_offsets_increase(bytes, lines, end, i, j);
        lemma_next_offset(lines, j - 1, end);
    }
}

proof fn lemma_lines_agree(
    bytes: Seq<u8>,
    l1: Seq<LineView>,
    e1: int,
    l2: Seq<LineView>,
    e2: int,
    i: int,
)
    requires
        lines_cover(bytes, l1, e1),
        lines_cover(bytes, l2, e2),
        0 <= i < l1.len(),
        i < l2.len(),
    ensures
        l1[i] == l2[i],
    decreases i,
{
    reveal(next_offset);
    if i > 0 {
        lemma_lines_agree(bytes, l1, e1, l2, e2, i - 1);
        assert(l1[i - 1] == l2[i - 1]);
    }
}

/// Two readings of one file, one up to `e1` and one up to `e2`, agree as far as
/// the shorter goes.
pub proof fn lemma_cover_prefix(
    bytes: Seq<u8>,
    l1: Seq<LineView>,
    e1: int,
    l2: Seq<LineView>,
    e2: int,
)
    requires
        lines_cover(bytes, l1, e1),
        lines_cover(bytes, l2, e2),
        e1 <= e2,
    ensures
        l1.len() <= l2.len(),
        l1 =~= l2.take(l1.len() as int),
        e1 < e2 ==> l1.len() < l2.len() && l2[l1.len() as int].offset == e1,
        e1 == e2 ==> l1.len() == l2.len(),
{
    reveal(next_offset);
    if l1.len() > 0 && l2.len() > 0 {
        let k = if l1.len() <= l2.len() {
            l1.len() - 1
        } else {
            l2.len() - 1
        };
        lemma_lines_agree(bytes, l1, e1, l2, e2, k);
        assert(l1[k] == l2[k]);
        if l1.len() > l2.len() {
            lemma_offsets_increase(bytes, l1, e1, k + 1, l1.len() as int);
        }
        if l1.len() < l2.len() {
            lemma_offsets_increase(bytes, l2, e2, k + 1, l2.len() as int);
        }
    } else if l1.len() > 0 {
        lemma_offsets_increase(bytes, l1, e1, 0, l1.len() as int);
    } else if l2.len() > 0 {
        lemma_offsets_increase(bytes, l2, e2, 0, l2.len() as int);
    }
    if l1.len() <= l2.len() {
        assert forall|i: int| 0 <= i < l1.len() implies l1[i] == l2.take(l1.len() as int)[i] by {
            lemma_lines_agree(bytes, l1, e1, l2, e2, i);
        }
    }
}

/// A file image has one reading only.
pub proof fn lemma_lines_unique(bytes: Seq<u8>, lines: Seq<LineView>)
    requires
        log_lines(bytes, lines),
    ensures
        valid_log(bytes),
        lines_of(bytes) == lines,
{
    reveal(next_offset);
    let other = lines_of(bytes);
    lemma_cover_prefix(bytes, lines, bytes.len() as int, other, bytes.len() as int);
    assert(other.take(lines.len() as int) =~= other);
}

/// A reading up to `pos` and the record at `pos` make a reading up to the end
/// of that record.
pub proof fn lemma_cover_extend(
    bytes: Seq<u8>,
    lines: Seq<LineView>,
    pos: int,
    line: LineView,
    next: int,
)
    requires
        lines_cover(bytes, lines, pos),
        record_at(bytes, pos) == Some((line, next)),
    ensures
        lines_cover(bytes, lines.push(line), next),
{
    reveal(next_offset);
    lemma_record_bounds(bytes, pos);
    let after = lines.push(line);
    assert forall|i: int| 0 <= i < after.len() implies record_at(
        bytes,
        (#[trigger] after[i]).offset,
    ) == Some((after[i], next_offset(after, i, next))) by {
        if i < lines.len() {
            assert(after[i] == lines[i]);
            if i + 1 < lines.len() {
                assert(after[i + 1] == lines[i + 1]);
            }
        }
    }
    if lines.len() > 0 {
        assert(after[0] == lines[0]);
    }
}

/// Where a reading stops before the end of the bytes and no record follows,
/// the bytes are no run of records.
pub proof fn lemma_cover_stuck(bytes: Seq<u8>, lines: Seq<LineView>, pos: int)
    requires
        lines_cover(bytes, lines, pos),
        pos < bytes.len(),
        record_at(bytes, pos) is None,
    ensures
        !valid_log(bytes),
{
    reveal(next_offset);
    if valid_log(bytes) {
        let all = lines_of(bytes);
        lemma_cover_prefix(bytes, lines, pos, all, bytes.len() as int);
        assert(record_at(bytes, all[lines.len() as int].offset) is Some);
    }
}

/// Appending a record to a file appends it to the file's reading.
pub proof fn lemma_append(
    bytes: Seq<u8>,
    lines: Seq<LineView>,
    key: Seq<char>,
    status: KeyStatus<Seq<char>>,
)
    requires
        log_lines(bytes, lines),
    ensures
        log_lines(
            bytes + encode_record(key, status),
            lines.push(LineView { key, status, offset: bytes.len() as int }),
        ),
{
    reveal(next_offset);
    let enc = encode_record(key, status);
    let line = LineView { key, status, offset: bytes.len() as int };
    let after = lines.push(line);
    let full = bytes + enc;
    lemma_record_round_trip(bytes, key, status);
    assert forall|i: int| 0 <= i < after.len() implies record_at(
        full,
        (#[trigger] after[i]).offset,
    ) == Some((after[i], next_offset(after, i, full.len() as int))) by {
        if i < lines.len() {
            assert(after[i] == lines[i]);
            lemma_record_stable(bytes, enc, lines[i].offset);
            if i + 1 < lines.len() {
                assert(after[i + 1] == lines[i + 1]);
            }
        }
    }
}

/// The position of the last record of `lines` that is about `key`.
pub open spec fn latest(lines: Seq<LineView>, key: Seq<char>) -> Option<int>
    decreases lines.len(),
{
    if lines.len() == 0 {
        None
    } else if lines.last().key == key {
        Some(lines.len() - 1)
    } else {
        latest(lines.drop_last(), key)
    }
}

/// What a run of records says about each key: the status in the last record
/// that names it.
pub open spec fn entries_of(lines: Seq<LineView>) -> Map<Seq<char>, KeyStatus<Seq<char>>> {
    Map::new(
        |k: Seq<char>| latest(lines, k) is Some,
        |k: Seq<char>| lines[latest(lines, k).unwrap()].status,
    )
}

/// What a valid file image says about each key.
pub open spec fn log_entries(bytes: Seq<u8>) -> Map<Seq<char>, KeyStatus<Seq<char>>> {
    entries_of(lines_of(bytes))
}

/// `latest` finds a record about the key, and no later record is about it.
pub proof fn lemma_latest(lines: Seq<LineView>, key: Seq<char>)
    ensures
        match latest(lines, key) {
            Some(i) => 0 <= i < lines.len() && lines[i].key == key && forall|j: int|
                i < j < lines.len() ==> (#[trigger] lines[j]).key != key,
            None => forall|j: int| 0 <= j < lines.len() ==> (#[trigger] lines[j]).key != key,
        },
    decreases lines.len(),
{
    if lines.len() > 0 && lines.last().key != key {
        let front = lines.drop_last();
        lemma_latest(front, key);
        assert forall|j: int| 0 <= j < front.len() implies front[j] == lines[j] by {}
        match latest(front, key) {
            Some(i) => {
                assert forall|j: int| i < j < lines.len() implies (#[trigger] lines[j]).key
                    != key by {
                    if j < front.len() {
                        assert(front[j] == lines[j]);
                    }
                }
            },
            None => {
                assert forall|j: int| 0 <= j < lines.len() implies (#[trigger] lines[j]).key
                    != key by {
                    if j < front.len() {
                        assert(front[j] == lines[j]);
                    }
                }
            },
        }
    }
}

/// One more record overrides what was known about its key and nothing else.
pub proof fn lemma_entries_push(lines: Seq<LineView>, line: LineView)
    ensures
        entries_of(lines.push(line)) == entries_of(lines).insert(line.key, line.status),
{
    let after = lines.push(line);
    assert(after.drop_last() =~= lines);
    assert forall|k: Seq<char>| #[trigger]
        entries_of(after).contains_key(k) == entries_of(lines).insert(
            line.key,
            line.status,
        ).contains_key(k) by {}
    assert forall|k: Seq<char>| #[trigger] entries_of(after).contains_key(k) implies entries_of(
        after,
    )[k] == entries_of(lines).insert(line.key, line.status)[k] by {
        if k != line.key {
            lemma_latest(lines, k);
        }
    }
    assert(entries_of(after) =~= entries_of(lines).insert(line.key, line.status));
}

/// No records, no entries.
pub proof fn lemma_entries_empty()
    ensures
        entries_of(Seq::<LineView>::empty()) == Map::<Seq<char>, KeyStatus<Seq<char>>>::empty(),
{
    assert(entries_of(Seq::<LineView>::empty()) =~= Map::<
        Seq<char>,
        KeyStatus<Seq<char>>,
    >::empty());
}

/// An empty file says nothing.
pub proof fn lemma_log_entries_empty()
    ensures
        valid_log(Seq::<u8>::empty()),
        lines_of(Seq::<u8>::empty()) == Seq::<LineView>::empty(),
        log_entries(Seq::<u8>::empty()) == Map::<Seq<char>, KeyStatus<Seq<char>>>::empty(),
{
    lemma_lines_unique(Seq::<u8>::empty(), Seq::<LineView>::empty());
    lemma_entries_empty();
}

/// A record appended to a file overrides what the file said about its key and
/// nothing else.
pub proof fn lemma_log_entries_append(bytes: Seq<u8>, key: Seq<char>, status: KeyStatus<Seq<char>>)
    requires
        valid_log(bytes),
    ensures
        valid_log(bytes + encode_record(key, status)),
        log_entries(bytes + encode_record(key, status)) == log_entries(bytes).insert(key, status),
{
    let lines = lines_of(bytes);
    let line = LineView { key, status, offset: bytes.len() as int };
    lemma_append(bytes, lines, key, status);
    lemma_lines_unique(bytes + encode_record(key, status), lines.push(line));
    lemma_entries_push(lines, line);
}

/// Reads the length-prefixed field at `pos` and gives the range of its bytes.
fn parse_field(data: &[u8], pos: usize) -> (r: Option<(usize, usize)>)
    requires
        pos <= data@.len(),
    ensures
        r is Some <==> field_at(data@, pos as int) is Some,
        r matches Some((a, b)) ==> a <= b <= data@.len() && field_at(data@, pos as int) == Some(
            (data@.subrange(a as int, b as int), b as int),
        ),
{
    let len = data.len();
    let mut e = pos;
    while e < len && data[e] >= 0x30 && data[e] <= 0x39
        invariant
            pos <= e <= len,
            len == data@.len(),
            forall|i: int| pos <= i < e ==> is_digit(#[trigger] data@[i]),
        decreases len - e,
    {
        e += 1;
    }
    proof {
        lemma_digits_end_is(data@, pos as int, e as int);
    }
    if e == pos || e >= len || data[e] != COLON {
        return None;
    }
    let ghost whole = data@.subrange(pos as int, e as int);
    let mut n: usize = 0;
    let mut i = pos;
    while i < e
        invariant
            pos <= i <= e < len,
            len == data@.len(),
            whole == data@.subrange(pos as int, e as int),
            forall|j: int| pos <= j < e ==> is_digit(#[trigger] data@[j]),
            n == dec_value(data@.subrange(pos as int, i as int)),
            n <= len,
            digits_end(data@, pos as int) == e,
            data@[e as int] == COLON,
        decreases e - i,
    {
        let d: u8 = data[i] - 0x30;
        let v: u128 = (n as u128) * 10 + (d as u128);
        proof {
            let sub = data@.subrange(pos as int, i + 1);
            assert(sub.drop_last() =~= data@.subrange(pos as int, i as int));
            assert(sub.last() == data@[i as int]);
            assert(dec_value(sub) == v);
        }
        if v > len as u128 {
            proof {
                assert forall|j: int| 0 <= j < whole.len() implies is_digit(
                    #[trigger] whole[j],
                ) by {
                    assert(whole[j] == data@[pos + j]);
                }
                lemma_dec_value_prefix(whole, i + 1 - pos);
                assert(whole.take(i + 1 - pos) =~= data@.subrange(pos as int, i + 1));
            }
            return None;
        }
        n = v as usize;
        i += 1;
    }
    if n > len - (e + 1) {
        return None;
    }
    Some((e + 1, e + 1 + n))
}

/// Reads the length-prefixed text at `pos`.
fn parse_text(data: &[u8], pos: usize) -> (r: Option<(String, usize)>)
    requires
        pos <= data@.len(),
    ensures
        r is Some <==> text_at(data@, pos as int) is Some,
        r matches Some((s, e)) ==> e <= data@.len() && text_at(data@, pos as int) == Some(
            (s@, e as int),
        ),
{
    match parse_field(data, pos) {
        None => None,
        Some((a, b)) => {
            let bytes = slice_to_vec(slice_subrange(data, a, b));
            match string_from_utf8(bytes) {
                None => None,
                Some(s) => {
                    proof {
                        encode_utf8_decode_utf8(s@);
                    }
                    Some((s, b))
                },
            }
        },
    }
}

/// Reads the record that starts at `pos`, and says where the next one starts.
///
/// Gives `None` exactly where no record starts at `pos`.
pub fn parse_record(data: &[u8], pos: usize) -> (r: Option<(KVLine, usize)>)
    requires
        pos <= data@.len(),
    ensures
        r is Some <==> record_at(data@, pos as int) is Some,
        r matches Some((line, next)) ==> record_at(data@, pos as int) == Some(
            (line@, next as int),
        ),
{
    proof {
        reveal(record_at);
    }
    let len = data.len();
    let (key, p) = match parse_text(data, pos) {
        None => {
            return None;
        },
        Some(found) => found,
    };
    if p >= len {
        return None;
    }
    if data[p] == BANG {
        if p + 1 < len && data[p + 1] == NEWLINE {
            Some((KVLine { key, status: KeyStatus::Deleted, offset: pos as u64 }, p + 2))
        } else {
            None
        }
    } else if data[p] == EQUALS {
        match parse_text(data, p + 1) {
            None => None,
            Some((value, q)) => {
                if q < len && data[q] == NEWLINE {
                    Some(
                        (KVLine { key, status: KeyStatus::Present(value), offset: pos as u64 }, q + 1),
                    )
                } else {
                    None
                }
            },
        }
    } else {
        None
    }
}

/// Appends a length-prefixed text to `out`.
fn write_text(out: &mut Vec<u8>, text: &str)
    ensures
        final(out)@ == old(out)@ + encode_field(encode_utf8(text@)),
{
    let bytes = text.as_bytes();
    push_decimal(out, bytes.len());
    out.push(COLON);
    out.extend_from_slice(bytes);
    assert(out@ =~= old(out)@ + encode_field(encode_utf8(text@)));
}

/// Appends one record to `out`, as the file format writes it.
pub fn write_record(out: &mut Vec<u8>, key: &str, status: &KeyStatus<String>)
    ensures
        final(out)@ == old(out)@ + encode_record(key@, status@),
{
    write_text(out, key);
    match status {
        KeyStatus::Deleted => {
            out.push(BANG);
        },
        KeyStatus::Present(value) => {
            out.push(EQUALS);
            write_text(out, value.as_str());
        },
    }
    out.push(NEWLINE);
    assert(out@ =~= old(out)@ + encode_record(key@, status@));
}

/// An append-only file of records, held in memory under the name it has in
/// its directory.
pub struct KVFile {
    dir_path: String,
    file_name: String,
    data: Vec<u8>,
    lines: Ghost<Seq<LineView>>,
}

impl KVFile {
    /// The directory of the file.
    pub closed spec fn dir(&self) -> Seq<char> {
        self.dir_path@
    }

    /// The name of the file in its directory.
    pub closed spec fn name(&self) -> Seq<char> {
        self.file_name@
    }

    /// The bytes of the file.
    pub closed spec fn bytes(&self) -> Seq<u8> {
        self.data@
    }

    /// The records of the file, in file order.
    pub closed spec fn lines(&self) -> Seq<LineView> {
        self.lines@
    }

    /// The file holds records and nothing else.
    pub closed spec fn wf(&self) -> bool {
        log_lines(self.data@, self.lines@)
    }

    /// The records of a file are the one reading of its bytes, and a file is
    /// no longer than an offset can count.
    pub proof fn lemma_wf(&self)
        requires
            self.wf(),
        ensures
            log_lines(self.bytes(), self.lines()),
            valid_log(self.bytes()),
            self.lines() == lines_of(self.bytes()),
            self.bytes().len() <= usize::MAX,
    {
        lemma_lines_unique(self.data@, self.lines@);
        assert(self.data.len() == self.data@.len());
    }

    /// A new, empty file.
    pub fn new(dir_path: &str, file_name: &str) -> (r: Result<KVFile, Error>)
        ensures
            r is Ok,
            r.unwrap().wf(),
            r.unwrap().bytes() == Seq::<u8>::empty(),
            r.unwrap().lines() == Seq::<LineView>::empty(),
            r.unwrap().dir() == dir_path@,
            r.unwrap().name() == file_name@,
    {
        Ok(
            KVFile {
                dir_path: dir_path.to_owned(),
                file_name: file_name.to_owned(),
                data: Vec::new(),
                lines: Ghost(Seq::empty()),
            },
        )
    }

    /// A file with the given bytes, which must be a run of records.
    pub fn from_bytes(dir_path: &str, file_name: &str, bytes: Vec<u8>) -> (r: Result<
        KVFile,
        Error,
    >)
        ensures
            r is Ok <==> valid_log(bytes@),
            r is Err ==> r == Err::<KVFile, Error>(Error::MalformedRecord),
            r matches Ok(f) ==> f.wf() && f.bytes() == bytes@ && f.dir() == dir_path@
                && f.name() == file_name@,
    {
        let len = bytes.len();
        let mut pos: usize = 0;
        let ghost mut lines: Seq<LineView> = Seq::empty();
        while pos < len
            invariant
                pos <= len,
                len == bytes@.len(),
                lines_cover(bytes@, lines, pos as int),
            decreases len - pos,
        {
            match parse_record(bytes.as_slice(), pos) {
                None => {
                    proof {
                        lemma_cover_stuck(bytes@, lines, pos as int);
                    }
                    return Err(Error::MalformedRecord);
                },
                Some((line, next)) => {
                    proof {
                        lemma_record_bounds(bytes@, pos as int);
                        lemma_cover_extend(bytes@, lines, pos as int, line@, next as int);
                        lines = lines.push(line@);
                    }
                    pos = next;
                },
            }
        }
        proof {
            lemma_lines_unique(bytes@, lines);
        }
        Ok(
            KVFile {
                dir_path: dir_path.to_owned(),
                file_name: file_name.to_owned(),
                data: bytes,
                lines: Ghost(lines),
            },
        )
    }

    /// Writes one record at the end of the file and gives the offset of its
    /// first byte.
    pub fn append_line(&mut self, key: &str, status: &KeyStatus<String>) -> (r: Result<u64, Error>)
        requires
            old(self).wf(),
        ensures
            final(self).wf(),
            r == Ok::<u64, Error>(old(self).bytes().len() as u64),
            final(self).bytes() == old(self).bytes() + encode_record(key@, status@),
            final(self).lines() == old(self).lines().push(
                LineView { key: key@, status: status@, offset: old(self).bytes().len() as int },
            ),
            final(self).dir() == old(self).dir(),
            final(self).name() == old(self).name(),
    {
        let offset = self.data.len() as u64;
        write_record(&mut self.data, key, status);
        proof {
            lemma_append(old(self).data@, old(self).lines@, key@, status@);
            self.lines@ = self.lines@.push(
                LineView { key: key@, status: status@, offset: old(self).data@.len() as int },
            );
        }
        Ok(offset)
    }

    /// The status in the record that starts at `offset`; `None` past the end
    /// of the file.
    pub fn read_at_offset(&self, offset: u64) -> (r: Result<Option<KeyStatus<String>>, Error>)
        ensures
            offset >= self.bytes().len() ==> r == Ok::<Option<KeyStatus<String>>, Error>(None),
            offset < self.bytes().len() ==> match record_at(self.bytes(), offset as int) {
                Some((line, _)) => r matches Ok(Some(status)) && status@ == line.status,
                None => r == Err::<Option<KeyStatus<String>>, Error>(Error::MalformedRecord),
            },
    {
        if offset >= self.data.len() as u64 {
            return Ok(None);
        }
        match parse_record(self.data.as_slice(), offset as usize) {
            None => Err(Error::MalformedRecord),
            Some((line, _)) => Ok(Some(line.status)),
        }
    }

    /// The length of the file in bytes.
    pub fn size(&self) -> (r: Result<u64, Error>)
        ensures
            r == Ok::<u64, Error>(self.bytes().len() as u64),
            self.bytes().len() <= u64::MAX,
    {
        Ok(self.data.len() as u64)
    }

    /// A cursor at the first record.
    pub fn iter(&self) -> (r: Result<KVFileIter<'_>, Error>)
        ensures
            r is Ok,
            r.unwrap().bytes() == self.bytes(),
            r.unwrap().position() == 0,
    {
        Ok(KVFileIter { file: self, offset: 0 })
    }

    /// A cursor at `offset`, or at the end of the file if `offset` is beyond
    /// it.
    pub fn iter_from_offset(&self, offset: u64) -> (r: Result<KVFileIter<'_>, Error>)
        ensures
            r is Ok,
            r.unwrap().bytes() == self.bytes(),
            r.unwrap().position() == if offset <= self.bytes().len() {
                offset as int
            } else {
                self.bytes().len() as int
            },
    {
        let len = self.data.len();
        let start = if offset <= len as u64 {
            offset as usize
        } else {
            len
        };
        Ok(KVFileIter { file: self, offset: start })
    }

    /// Gives the file another name.
    pub fn rename(&mut self, new_file_name: &str) -> (r: Result<(), Error>)
        ensures
            r is Ok,
            final(self).name() == new_file_name@,
            final(self).dir() == old(self).dir(),
            final(self).bytes() == old(self).bytes(),
            final(self).lines() == old(self).lines(),
            final(self).wf() == old(self).wf(),
    {
        self.file_name = new_file_name.to_owned();
        Ok(())
    }

    /// Gives the file up.
    pub fn delete(self) -> (r: Result<(), Error>)
        ensures
            r is Ok,
    {
        Ok(())
    }

    /// A second handle on the same records, to read them while another file
    /// is written.
    pub fn copy(&self) -> (r: Result<KVFile, Error>)
        ensures
            r is Ok,
            r.unwrap().bytes() == self.bytes(),
            r.unwrap().lines() == self.lines(),
            r.unwrap().wf() == self.wf(),
            r.unwrap().dir() == self.dir(),
            r.unwrap().name() == self.name(),
    {
        Ok(
            KVFile {
                dir_path: self.dir_path.clone(),
                file_name: self.file_name.clone(),
                data: self.data.clone(),
                lines: Ghost(self.lines@),
            },
        )
    }

    /// The name of the file in its directory.
    pub fn file_name(&self) -> (r: &str)
        ensures
            r@ == self.name(),
    {
        self.file_name.as_str()
    }

    /// The directory of the file.
    pub fn dir_path(&self) -> (r: &str)
        ensures
            r@ == self.dir(),
    {
        self.dir_path.as_str()
    }

    /// The bytes of the file, to be stored.
    pub fn contents(&self) -> (r: Vec<u8>)
        ensures
            r@ == self.bytes(),
    {
        self.data.clone()
    }
}

/// A cursor over the records of a file.
pub struct KVFileIter<'a> {
    file: &'a KVFile,
    offset: usize,
}

impl<'a> KVFileIter<'a> {
    /// The bytes of the file under the cursor.
    pub closed spec fn bytes(&self) -> Seq<u8> {
        self.file.data@
    }

    /// The offset of the record that the cursor gives next.
    pub closed spec fn position(&self) -> int {
        self.offset as int
    }

    /// Reads record `n` of the file through a cursor that stands at it.
    pub(crate) fn next_line(&mut self, Ghost(lines): Ghost<Seq<LineView>>, Ghost(n): Ghost<int>) -> (r:
        Result<Option<KVLine>, Error>)
        requires
            log_lines(old(self).bytes(), lines),
            0 <= n <= lines.len(),
            n == 0 ==> old(self).position() == 0,
            n > 0 ==> old(self).position() == next_offset(
                lines,
                n - 1,
                old(self).bytes().len() as int,
            ),
        ensures
            final(self).bytes() == old(self).bytes(),
            r is Ok,
            n < lines.len() ==> r.unwrap() is Some && r.unwrap().unwrap()@ == lines[n] && final(self).position() == next_offset(lines, n, old(self).bytes().len() as int),
            n == lines.len() ==> r.unwrap() is None && final(self).position() == old(
                self,
            ).position(),
    {
        proof {
            let bytes = self.bytes();
            lemma_next_offset(lines, n - 1, bytes.len() as int);
            if n < lines.len() {
                lemma_offsets_increase(bytes, lines, bytes.len() as int, n, lines.len() as int);
                assert(record_at(bytes, lines[n].offset) is Some);
            }
        }
        self.try_next()
    }

    /// Gives the record under the cursor and moves behind it; `None` at the
    /// end of the file.
    pub fn try_next(&mut self) -> (r: Result<Option<KVLine>, Error>)
        requires
            0 <= old(self).position() <= old(self).bytes().len(),
        ensures
            final(self).bytes() == old(self).bytes(),
            0 <= final(self).position() <= final(self).bytes().len(),
            old(self).position() == old(self).bytes().len() ==> r == Ok::<Option<KVLine>, Error>(
                None,
            ) && final(self).position() == old(self).position(),
            old(self).position() < old(self).bytes().len() ==> match record_at(
                old(self).bytes(),
                old(self).position(),
            ) {
                Some((line, next)) => r matches Ok(Some(got)) && got@ == line && final(self).position() == next,
                None => r == Err::<Option<KVLine>, Error>(Error::MalformedRecord) && final(self).position() == old(self).position(),
            },
    {
        if self.offset >= self.file.data.len() {
            return Ok(None);
        }
        match parse_record(self.file.data.as_slice(), self.offset) {
            None => Err(Error::MalformedRecord),
            Some((line, next)) => {
                proof {
                    lemma_record_bounds(self.file.data@, self.offset as int);
                }
                self.offset = next;
                Ok(Some(line))
            },
        }
    }
}

} // verus!
