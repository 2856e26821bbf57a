//! The segment manager: an ordered run of segment files of one kind.
//!
//! The newest segment, the head, takes the writes.  A read asks the segments
//! from the newest to the oldest and takes the first opinion it gets.  When
//! the segments are as many as the merging threshold, the oldest are merged,
//! two at a time, until they are fewer.

pub mod segment_file;

use crate::error::Error;
use crate::kv_file::{lemma_log_entries_append, lemma_log_entries_empty};
use crate::kv_file::{log_entries, valid_log};
use crate::kvdb::{opinion, KeyStatus};
use crate::utils::{dec_digits, is_digit, lemma_dec_round_trip, parse_decimal, push_decimal};
use crate::utils::string_from_utf8;
use crate::segmented_files_db::segment_file::{SegmentFile, SegmentFileFactory};
use crate::segmented_files_db::segment_file::SegmentReaderFactory;
use std::collections::VecDeque;
use vstd::prelude::*;
use vstd::slice::slice_to_vec;
use vstd::utf8::{encode_utf8, encode_utf8_decode_utf8, encode_utf8_valid_utf8};
use vstd::utf8::{is_ascii_chars, is_ascii_chars_encode_utf8};

verus! {

/// Who begins a new head segment.
#[derive(Debug, Clone, Copy, PartialEq, Eq, Structural)]
pub enum SegmentCreationPolicy {
    /// The manager, when the head says it is full.
    Automatic,
    /// The caller, who hands in each new head ready-made.
    Explicit,
}

/// One file of a directory: its name and its bytes.
pub struct StoredFile {
    pub name: String,
    pub bytes: Vec<u8>,
}

/// What every file name of a segment begins with.
pub const SEGMENT_PREFIX: &'static str = "segment-";

/// A number in decimal, most significant digit first, without padding.
pub open spec fn dec_chars(n: nat) -> Seq<char> {
    dec_digits(n).map_values(|b: u8| b as char)
}

/// The file name of the segment at a position; position 0 is the newest.
pub open spec fn segment_name(position: nat) -> Seq<char> {
    SEGMENT_PREFIX@ + dec_chars(position)
}

/// The bytes of the file name of a segment: those of the prefix, and the
/// digits of the position.
pub proof fn lemma_segment_name_bytes(position: nat)
    ensures
        encode_utf8(segment_name(position)) == encode_utf8(SEGMENT_PREFIX@) + dec_digits(position),
        encode_utf8(SEGMENT_PREFIX@).len() == SEGMENT_PREFIX@.len(),
{
    reveal_strlit("segment-");
    lemma_dec_round_trip(position);
    let prefix = SEGMENT_PREFIX@;
    let digits = dec_digits(position);
    let name = segment_name(position);
    assert(is_ascii_chars(prefix));
    assert forall|i: int| 0 <= i < name.len() implies '\0' <= #[trigger] name[i] <= '\u{7f}' by {
        if i >= prefix.len() {
            assert(name[i] == digits[i - prefix.len()] as char);
            assert(is_digit(digits[i - prefix.len()]));
        } else {
            assert(name[i] == prefix[i]);
        }
    }
    is_ascii_chars_encode_utf8(prefix);
    is_ascii_chars_encode_utf8(name);
    assert forall|i: int| 0 <= i < name.len() implies encode_utf8(name)[i] == (encode_utf8(prefix)
        + digits)[i] by {
        assert(name[i] as u8 == encode_utf8(name)[i]);
        if i >= prefix.len() {
            assert(name[i] == digits[i - prefix.len()] as char);
            assert(is_digit(digits[i - prefix.len()]));
        } else {
            assert(name[i] == prefix[i]);
            assert(prefix[i] as u8 == encode_utf8(prefix)[i]);
        }
    }
    assert(encode_utf8(name) =~= encode_utf8(prefix) + digits);
}

/// Segments at different positions have different file names.
pub proof fn lemma_segment_names_differ(i: nat, j: nat)
    requires
        i != j,
    ensures
        segment_name(i) != segment_name(j),
{
    if segment_name(i) == segment_name(j) {
        lemma_segment_name_bytes(i);
        lemma_segment_name_bytes(j);
        let prefix = encode_utf8(SEGMENT_PREFIX@);
        assert(dec_digits(i) =~= (prefix + dec_digits(i)).skip(prefix.len() as int));
        assert(dec_digits(j) =~= (prefix + dec_digits(j)).skip(prefix.len() as int));
        lemma_dec_round_trip(i);
        lemma_dec_round_trip(j);
    }
}

/// The file name of the segment at a position.
pub fn segment_file_name(position: usize) -> (r: String)
    ensures
        r@ == segment_name(position as nat),
{
    let mut bytes = slice_to_vec(SEGMENT_PREFIX.as_bytes());
    push_decimal(&mut bytes, position);
    proof {
        lemma_segment_name_bytes(position as nat);
        encode_utf8_valid_utf8(segment_name(position as nat));
    }
    match string_from_utf8(bytes) {
        Some(name) => {
            proof {
                encode_utf8_decode_utf8(name@);
                encode_utf8_decode_utf8(segment_name(position as nat));
            }
            name
        },
        None => String::new(),
    }
}

/// The position that a file name stands for, if it is the file name of a
/// segment.
pub fn segment_position(name: &str) -> (r: Option<usize>)
    ensures
        r matches Some(p) ==> name@ == segment_name(p as nat),
        r is None ==> forall|q: nat| q <= usize::MAX ==> name@ != #[trigger] segment_name(q),
{
    let bytes = name.as_bytes();
    let prefix = SEGMENT_PREFIX.as_bytes();
    if bytes.len() <= prefix.len() {
        proof {
            assert forall|q: nat| q <= usize::MAX implies name@ != #[trigger] segment_name(q) by {
                lemma_segment_name_bytes(q);
                lemma_dec_round_trip(q);
            }
        }
        return None;
    }
    let mut i: usize = 0;
    while i < prefix.len()
        invariant
            i <= prefix@.len() < bytes@.len(),
            bytes@ == encode_utf8(name@),
            prefix@ == encode_utf8(SEGMENT_PREFIX@),
            forall|j: int| 0 <= j < i ==> bytes@[j] == prefix@[j],
        decreases prefix@.len() - i,
    {
        if bytes[i] != prefix[i] {
            proof {
                assert forall|q: nat| q <= usize::MAX implies name@ != #[trigger] segment_name(
                    q,
                ) by {
                    lemma_segment_name_bytes(q);
                    if name@ == segment_name(q) {
                        assert((prefix@ + dec_digits(q))[i as int] == prefix@[i as int]);
                    }
                }
            }
            return None;
        }
        i += 1;
    }
    let parsed = parse_decimal(bytes, prefix.len());
    proof {
        assert(bytes@ =~= prefix@ + bytes@.skip(prefix@.len() as int));
        match parsed {
            Some(p) => {
                lemma_segment_name_bytes(p as nat);
                encode_utf8_decode_utf8(name@);
                encode_utf8_decode_utf8(segment_name(p as nat));
            },
            None => {
                assert forall|q: nat| q <= usize::MAX implies name@ != #[trigger] segment_name(
                    q,
                ) by {
                    lemma_segment_name_bytes(q);
                    if name@ == segment_name(q) {
                        assert(dec_digits(q) =~= (prefix@ + dec_digits(q)).skip(
                            prefix@.len() as int,
                        ));
                    }
                }
            },
        }
    }
    parsed
}

/// What a stack of segments, newest first, says about a key when asked from
/// position `from` on: the first opinion met.
pub open spec fn lookup(
    stack: Seq<Map<Seq<char>, KeyStatus<Seq<char>>>>,
    key: Seq<char>,
    from: int,
) -> Option<KeyStatus<Seq<char>>>
    decreases stack.len() - from,
{
    if from < 0 || from >= stack.len() {
        None
    } else if stack[from].contains_key(key) {
        Some(stack[from][key])
    } else {
        lookup(stack, key, from + 1)
    }
}

/// The value behind a status: a tombstone and no opinion both mean none.
pub open spec fn live_value(s: Option<KeyStatus<Seq<char>>>) -> Option<Seq<char>> {
    match s {
        Some(KeyStatus::Present(v)) => Some(v),
        _ => None,
    }
}

/// What each file of a stack says.
pub open spec fn stack_of(images: Seq<Seq<u8>>) -> Seq<Map<Seq<char>, KeyStatus<Seq<char>>>> {
    images.map_values(|b: Seq<u8>| log_entries(b))
}

/// The keys and values that a stack of segments holds: for each key the value
/// in the newest segment that has an opinion, unless that is a tombstone.
pub open spec fn contents_of(stack: Seq<Map<Seq<char>, KeyStatus<Seq<char>>>>) -> Map<
    Seq<char>,
    Seq<char>,
> {
    Map::new(
        |k: Seq<char>| live_value(lookup(stack, k, 0)) is Some,
        |k: Seq<char>| live_value(lookup(stack, k, 0)).unwrap(),
    )
}

/// What a write of `status` under `key` makes of the contents of a store.
pub open spec fn written(
    contents: Map<Seq<char>, Seq<char>>,
    key: Seq<char>,
    status: KeyStatus<Seq<char>>,
) -> Map<Seq<char>, Seq<char>> {
    match status {
        KeyStatus::Present(v) => contents.insert(key, v),
        KeyStatus::Deleted => contents.remove(key),
    }
}

/// How many segments a merge pass leaves of `n` under threshold `t`.
pub open spec fn merged_count(n: int, t: int) -> int {
    if n >= 2 && n >= t {
        if t >= 2 {
            t - 1
        } else {
            1
        }
    } else {
        n
    }
}

/// The answer of a stack depends on the segments from `from` on only.
pub proof fn lemma_lookup_tail(
    s1: Seq<Map<Seq<char>, KeyStatus<Seq<char>>>>,
    s2: Seq<Map<Seq<char>, KeyStatus<Seq<char>>>>,
    key: Seq<char>,
    from: int,
    shift: int,
)
    requires
        0 <= from,
        0 <= from + shift,
        s2.len() == s1.len() + shift,
        forall|i: int| from <= i < s1.len() ==> s1[i] == s2[i + shift],
    ensures
        lookup(s1, key, from) == lookup(s2, key, from + shift),
    decreases s1.len() - from,
{
    if from < s1.len() {
        assert(s1[from] == s2[from + shift]);
        lemma_lookup_tail(s1, s2, key, from + 1, shift);
    }
}

/// Tombstone shadowing and its like: the newest segment with an opinion on a
/// key decides, whatever older segments say.
pub proof fn lemma_lookup_first(
    stack: Seq<Map<Seq<char>, KeyStatus<Seq<char>>>>,
    key: Seq<char>,
    i: int,
    from: int,
)
    requires
        0 <= from <= i < stack.len(),
        stack[i].contains_key(key),
        forall|j: int| from <= j < i ==> !(#[trigger] stack[j]).contains_key(key),
    ensures
        lookup(stack, key, from) == Some(stack[i][key]),
    decreases i - from,
{
    if from < i {
        assert(!stack[from].contains_key(key));
        lemma_lookup_first(stack, key, i, from + 1);
    }
}

/// A tombstone in a segment hides every value of the key in older segments.
pub proof fn lemma_tombstone_shadows(
    stack: Seq<Map<Seq<char>, KeyStatus<Seq<char>>>>,
    key: Seq<char>,
    i: int,
)
    requires
        0 <= i < stack.len(),
        stack[i].contains_key(key),
        stack[i][key] == KeyStatus::<Seq<char>>::Deleted,
        forall|j: int| 0 <= j < i ==> !(#[trigger] stack[j]).contains_key(key),
    ensures
        !contents_of(stack).contains_key(key),
{
    lemma_lookup_first(stack, key, i, 0);
}

/// A write to the head shows in the contents as a write, and in nothing else.
pub proof fn lemma_write_head(
    stack: Seq<Map<Seq<char>, KeyStatus<Seq<char>>>>,
    key: Seq<char>,
    status: KeyStatus<Seq<char>>,
)
    requires
        stack.len() > 0,
    ensures
        contents_of(stack.update(0, stack[0].insert(key, status))) == written(
            contents_of(stack),
            key,
            status,
        ),
{
    let after = stack.update(0, stack[0].insert(key, status));
    assert forall|k: Seq<char>| lookup(after, k, 0) == if k == key {
        Some(status)
    } else {
        lookup(stack, k, 0)
    } by {
        lemma_lookup_tail(stack, after, k, 1, 0);
    }
    assert(contents_of(after) =~= written(contents_of(stack), key, status));
}

/// A new empty head changes nothing in the contents.
pub proof fn lemma_prepend(
    stack: Seq<Map<Seq<char>, KeyStatus<Seq<char>>>>,
    head: Map<Seq<char>, KeyStatus<Seq<char>>>,
)
    ensures
        forall|k: Seq<char>|
            lookup(seq![head] + stack, k, 0) == if head.contains_key(k) {
                Some(head[k])
            } else {
                lookup(stack, k, 0)
            },
        head == Map::<Seq<char>, KeyStatus<Seq<char>>>::empty() ==> contents_of(seq![head] + stack)
            == contents_of(stack),
{
    let after = seq![head] + stack;
    assert forall|k: Seq<char>| lookup(after, k, 0) == if head.contains_key(k) {
        Some(head[k])
    } else {
        lookup(stack, k, 0)
    } by {
        assert(after[0] == head);
        lemma_lookup_tail(stack, after, k, 0, 1);
    }
    if head == Map::<Seq<char>, KeyStatus<Seq<char>>>::empty() {
        assert(contents_of(after) =~= contents_of(stack));
    }
}

/// One segment in front of two stacks with the same contents gives two stacks
/// with the same contents.
pub proof fn lemma_same_behind(
    head: Map<Seq<char>, KeyStatus<Seq<char>>>,
    s1: Seq<Map<Seq<char>, KeyStatus<Seq<char>>>>,
    s2: Seq<Map<Seq<char>, KeyStatus<Seq<char>>>>,
)
    requires
        contents_of(s1) == contents_of(s2),
    ensures
        contents_of(seq![head] + s1) == contents_of(seq![head] + s2),
{
    lemma_prepend(s1, head);
    lemma_prepend(s2, head);
    assert forall|k: Seq<char>|
        live_value(lookup(seq![head] + s1, k, 0)) == live_value(
            lookup(seq![head] + s2, k, 0),
        ) by {
        assert(contents_of(s1).contains_key(k) == contents_of(s2).contains_key(k));
        if contents_of(s1).contains_key(k) {
            assert(contents_of(s1)[k] == contents_of(s2)[k]);
        }
    }
    assert(contents_of(seq![head] + s1) =~= contents_of(seq![head] + s2));
}

/// The stack in which the two oldest segments are merged into one.
pub open spec fn merged_stack(stack: Seq<Map<Seq<char>, KeyStatus<Seq<char>>>>) -> Seq<
    Map<Seq<char>, KeyStatus<Seq<char>>>,
> {
    stack.take(stack.len() - 2).push(
        stack[stack.len() - 1].union_prefer_right(stack[stack.len() - 2]),
    )
}

/// The stack after a merge pass under threshold `t`: the two oldest segments
/// are merged for as long as the segments are two or more and as many as `t`.
pub open spec fn merged_down(stack: Seq<Map<Seq<char>, KeyStatus<Seq<char>>>>, t: int) -> Seq<
    Map<Seq<char>, KeyStatus<Seq<char>>>,
>
    decreases stack.len(),
{
    if stack.len() >= 2 && stack.len() >= t {
        merged_down(merged_stack(stack), t)
    } else {
        stack
    }
}

/// The stack after a write to the head, which is an empty segment begun for
/// the write if `fresh`.
pub open spec fn written_stack(
    stack: Seq<Map<Seq<char>, KeyStatus<Seq<char>>>>,
    fresh: bool,
    key: Seq<char>,
    status: KeyStatus<Seq<char>>,
) -> Seq<Map<Seq<char>, KeyStatus<Seq<char>>>> {
    let begun = if fresh {
        seq![Map::<Seq<char>, KeyStatus<Seq<char>>>::empty()] + stack
    } else {
        stack
    };
    begun.update(0, begun[0].insert(key, status))
}

proof fn lemma_merge_lookup(
    stack: Seq<Map<Seq<char>, KeyStatus<Seq<char>>>>,
    key: Seq<char>,
    from: int,
)
    requires
        stack.len() >= 2,
        0 <= from <= stack.len() - 2,
    ensures
        lookup(merged_stack(stack), key, from) == lookup(stack, key, from),
    decreases stack.len() - from,
{
    let merged = merged_stack(stack);
    if from < stack.len() - 2 {
        assert(merged[from] == stack[from]);
        lemma_merge_lookup(stack, key, from + 1);
    } else {
        assert(merged[from] == stack[stack.len() - 1].union_prefer_right(stack[from]));
        assert(lookup(merged, key, from + 1) is None);
        assert(lookup(stack, key, from + 2) is None);
        assert(lookup(stack, key, from + 1) == opinion(stack[from + 1], key));
    }
}

/// Merging the two oldest segments, the newer of them first, leaves the
/// contents as they were.
pub proof fn lemma_merge_keeps_contents(stack: Seq<Map<Seq<char>, KeyStatus<Seq<char>>>>)
    requires
        stack.len() >= 2,
    ensures
        contents_of(merged_stack(stack)) == contents_of(stack),
{
    assert forall|k: Seq<char>| lookup(merged_stack(stack), k, 0) == lookup(stack, k, 0) by {
        lemma_merge_lookup(stack, k, 0);
    }
    assert(contents_of(merged_stack(stack)) =~= contents_of(stack));
}

/// A directory listing as specifications see it.
pub open spec fn listing_view(files: Seq<StoredFile>) -> Seq<(Seq<char>, Seq<u8>)> {
    files.map_values(|f: StoredFile| (f.name@, f.bytes@))
}

/// The first file at or after position `from` of a listing that has the given
/// name.
pub open spec fn find_file(listing: Seq<(Seq<char>, Seq<u8>)>, name: Seq<char>, from: int) -> Option<
    int,
>
    decreases listing.len() - from,
{
    if from < 0 || from >= listing.len() {
        None
    } else if listing[from].0 == name {
        Some(from)
    } else {
        find_file(listing, name, from + 1)
    }
}

/// The bytes of the first file of a listing that is named after position `p`.
pub open spec fn stored_image(listing: Seq<(Seq<char>, Seq<u8>)>, p: int) -> Seq<u8> {
    listing[find_file(listing, segment_name(p as nat), 0).unwrap()].1
}

/// Whether a listing has a file named after position `p`.
pub open spec fn has_segment(listing: Seq<(Seq<char>, Seq<u8>)>, p: int) -> bool {
    0 <= p <= usize::MAX && find_file(listing, segment_name(p as nat), 0) is Some
}

/// `p` is the least position at or above `floor` that a file of the listing
/// is named after.
pub open spec fn is_least_position(listing: Seq<(Seq<char>, Seq<u8>)>, floor: int, p: int) -> bool {
    &&& floor <= p
    &&& has_segment(listing, p)
    &&& forall|q: int| floor <= q < p ==> !#[trigger] has_segment(listing, q)
}

/// The least position at or above `floor` that a file of the listing is named
/// after, if there is one.
pub open spec fn least_position(listing: Seq<(Seq<char>, Seq<u8>)>, floor: int) -> Option<int> {
    if exists|p: int| is_least_position(listing, floor, p) {
        Some(choose|p: int| is_least_position(listing, floor, p))
    } else {
        None
    }
}

/// The positions at or above `floor` that files of the listing are named
/// after, in ascending order, `limit` of them at most.
pub open spec fn positions_from(listing: Seq<(Seq<char>, Seq<u8>)>, floor: int, limit: nat) -> Seq<
    int,
>
    decreases limit,
{
    if limit == 0 {
        Seq::empty()
    } else {
        match least_position(listing, floor) {
            None => Seq::empty(),
            Some(p) => seq![p] + positions_from(listing, p + 1, (limit - 1) as nat),
        }
    }
}

/// The positions that the files of a listing are named after, in ascending
/// order: the newest segment first.
pub open spec fn stored_positions(listing: Seq<(Seq<char>, Seq<u8>)>) -> Seq<int> {
    positions_from(listing, 0, listing.len())
}

/// The files of the segments of a store that is opened on a listing: the
/// segment files of the listing in the order of their positions, or one empty
/// file where the listing has none.
pub open spec fn opened_images(listing: Seq<(Seq<char>, Seq<u8>)>) -> Seq<Seq<u8>> {
    let positions = stored_positions(listing);
    if positions.len() == 0 {
        seq![Seq::<u8>::empty()]
    } else {
        positions.map_values(|p: int| stored_image(listing, p))
    }
}

/// Whether every segment of a listing can be loaded.
pub open spec fn can_open<F: SegmentFile>(listing: Seq<(Seq<char>, Seq<u8>)>) -> bool {
    forall|k: int|
        0 <= k < stored_positions(listing).len() ==> F::valid_image(
            stored_image(listing, #[trigger] stored_positions(listing)[k]),
        )
}

/// The listing of a store with the given segment files: each under the name
/// of its position.
pub open spec fn listing_of(images: Seq<Seq<u8>>) -> Seq<(Seq<char>, Seq<u8>)> {
    Seq::new(images.len(), |i: int| (segment_name(i as nat), images[i]))
}

/// What `find_file` finds: the first file from `from` on with the name.
pub proof fn lemma_find_file(listing: Seq<(Seq<char>, Seq<u8>)>, name: Seq<char>, from: int)
    requires
        0 <= from,
    ensures
        match find_file(listing, name, from) {
            Some(i) => from <= i < listing.len() && listing[i].0 == name && forall|j: int|
                from <= j < i ==> (#[trigger] listing[j]).0 != name,
            None => forall|j: int| from <= j < listing.len() ==> (#[trigger] listing[j]).0 != name,
        },
    decreases listing.len() - from,
{
    if from < listing.len() && listing[from].0 != name {
        lemma_find_file(listing, name, from + 1);
    }
}

/// There is one least position at most.
proof fn lemma_least_position(listing: Seq<(Seq<char>, Seq<u8>)>, floor: int, p: int)
    requires
        is_least_position(listing, floor, p),
    ensures
        least_position(listing, floor) == Some(p),
{
    let chosen = choose|p: int| is_least_position(listing, floor, p);
    if chosen < p {
        assert(!has_segment(listing, chosen));
    }
    if p < chosen {
        assert(!has_segment(listing, p));
    }
}

proof fn lemma_listing_positions(images: Seq<Seq<u8>>, k: int)
    requires
        0 <= k <= images.len() <= usize::MAX,
    ensures
        positions_from(listing_of(images), k, (images.len() - k) as nat) == Seq::new(
            (images.len() - k) as nat,
            |i: int| i + k,
        ),
        forall|q: int|
            0 <= q < images.len() ==> find_file(listing_of(images), segment_name(q as nat), 0)
                == Some(q),
    decreases images.len() - k,
{
    let listing = listing_of(images);
    assert forall|q: int| 0 <= q < images.len() implies find_file(
        listing,
        segment_name(q as nat),
        0,
    ) == Some(q) by {
        lemma_find_file(listing, segment_name(q as nat), 0);
        assert(listing[q].0 == segment_name(q as nat));
        let found = find_file(listing, segment_name(q as nat), 0).unwrap();
        if found != q {
            assert(listing[found].0 == segment_name(found as nat));
            lemma_segment_names_differ(found as nat, q as nat);
        }
    }
    if k < images.len() {
        assert(find_file(listing, segment_name(k as nat), 0) == Some(k));
        assert(is_least_position(listing, k, k));
        lemma_least_position(listing, k, k);
        lemma_listing_positions(images, k + 1);
        assert(positions_from(listing, k, (images.len() - k) as nat) =~= Seq::new(
            (images.len() - k) as nat,
            |i: int| i + k,
        ));
    }
}

/// Restart durability: a store opened on the listing of a store has the same
/// segment files, and so the same contents.
pub proof fn lemma_reopen(images: Seq<Seq<u8>>)
    requires
        1 <= images.len() <= usize::MAX,
    ensures
        stored_positions(listing_of(images)) == Seq::new(images.len(), |i: int| i),
        forall|q: int|
            0 <= q < images.len() ==> #[trigger] stored_image(listing_of(images), q) == images[q],
        opened_images(listing_of(images)) == images,
        contents_of(stack_of(opened_images(listing_of(images)))) == contents_of(stack_of(images)),
{
    lemma_listing_positions(images, 0);
    let listing = listing_of(images);
    let opened = opened_images(listing);
    assert(listing.len() == images.len());
    assert(stored_positions(listing) =~= Seq::new(images.len(), |i: int| i));
    assert forall|q: int| 0 <= q < images.len() implies #[trigger] stored_image(listing, q)
        == images[q] by {
        assert(find_file(listing, segment_name(q as nat), 0) == Some(q));
        assert(listing[q].1 == images[q]);
    }
    assert(opened =~= images);
}

/// The files of a run of segments.
pub open spec fn images_of<F: SegmentFile>(segments: Seq<F>) -> Seq<Seq<u8>> {
    segments.map_values(|f: F| f.bytes())
}

/// Every segment of the run is sound, has the given setting, and has the file
/// name of its position, the positions counted from `base`.
pub open spec fn segments_ok<F: SegmentFile>(segments: Seq<F>, base: int, parameter: u64) -> bool {
    forall|i: int|
        0 <= i < segments.len() ==> (#[trigger] segments[i]).wf() && segments[i].name()
            == segment_name((i + base) as nat) && segments[i].parameter() == parameter
}

/// Looks for the least position at or above `floor` that a file of a listing
/// is named after, and for the first file with that name.
fn find_least(files: &Vec<StoredFile>, floor: usize) -> (r: Option<(usize, usize)>)
    ensures
        match r {
            Some((p, i)) => least_position(listing_view(files@), floor as int) == Some(p as int)
                && find_file(listing_view(files@), segment_name(p as nat), 0) == Some(i as int)
                && i < files@.len() && floor <= p,
            None => least_position(listing_view(files@), floor as int) is None,
        },
{
    let ghost listing = listing_view(files@);
    let mut best: Option<(usize, usize)> = None;
    let mut j: usize = 0;
    while j < files.len()
        invariant
            j <= files@.len(),
            listing == listing_view(files@),
            match best {
                Some((p, i)) => floor <= p && i < j && listing[i as int].0 == segment_name(p as nat)
                    && forall|e: int| 0 <= e < i ==> (#[trigger] listing[e]).0 != segment_name(
                    p as nat,
                ),
                None => true,
            },
            forall|e: int, q: nat|
                0 <= e < j && floor <= q <= usize::MAX && (#[trigger] listing[e]).0
                    == #[trigger] segment_name(q) ==> best is Some && best.unwrap().0 <= q,
        decreases files@.len() - j,
    {
        assert(listing[j as int].0 == files@[j as int].name@);
        let found = segment_position(files[j].name.as_str());
        let ghost before = best;
        match found {
            Some(p) => {
                let better = p >= floor && match best {
                    Some((least, _)) => p < least,
                    None => true,
                };
                if better {
                    best = Some((p, j));
                }
                proof {
                    assert forall|e: int, q: nat|
                        0 <= e < j + 1 && floor <= q <= usize::MAX && (#[trigger] listing[e]).0
                            == #[trigger] segment_name(q) implies best is Some && best.unwrap().0
                        <= q by {
                        if e == j && q != p {
                            lemma_segment_names_differ(q, p as nat);
                        }
                    }
                    if better {
                        assert forall|e: int| 0 <= e < j implies (#[trigger] listing[e]).0
                            != segment_name(p as nat) by {
                            if listing[e].0 == segment_name(p as nat) {
                                assert(before is Some && before.unwrap().0 <= p);
                            }
                        }
                    }
                }
            },
            None => {},
        }
        j += 1;
    }
    proof {
        match best {
            Some((p, i)) => {
                lemma_find_file(listing, segment_name(p as nat), 0);
                assert(find_file(listing, segment_name(p as nat), 0) == Some(i as int));
                assert forall|q: int| floor <= q < p implies !#[trigger] has_segment(listing, q) by {
                    if has_segment(listing, q) {
                        lemma_find_file(listing, segment_name(q as nat), 0);
                        let e = find_file(listing, segment_name(q as nat), 0).unwrap();
                        assert(listing[e].0 == segment_name(q as nat));
                    }
                }
                lemma_least_position(listing, floor as int, p as int);
            },
            None => {
                assert forall|p: int| !is_least_position(listing, floor as int, p) by {
                    if is_least_position(listing, floor as int, p) {
                        lemma_find_file(listing, segment_name(p as nat), 0);
                        let e = find_file(listing, segment_name(p as nat), 0).unwrap();
                        assert(listing[e].0 == segment_name(p as nat));
                    }
                }
            },
        }
    }
    best
}

/// Moves every segment of a run one position up: gives each the file name
/// of the next position, the oldest first.
fn shift_names<F: SegmentFile>(segments: &mut VecDeque<F>, Ghost(parameter): Ghost<u64>) -> (r:
    Result<(), Error>)
    requires
        segments_ok(old(segments)@, 0, parameter),
    ensures
        r is Ok,
        segments_ok(final(segments)@, 1, parameter),
        images_of(final(segments)@) == images_of(old(segments)@),
        final(segments)@.len() == old(segments)@.len(),
        final(segments)@.len() > 0 ==> final(segments)@[0].full() == old(segments)@[0].full()
            && forall|k: Seq<char>|
            final(segments)@[0].accepts(k) == old(segments)@[0].accepts(k),
{
    let ghost before = segments@;
    let mut shifted: VecDeque<F> = VecDeque::new();
    let mut k: usize = segments.len();
    while k > 0
        invariant
            k <= before.len(),
            segments@ == before.take(k as int),
            segments_ok(before, 0, parameter),
            shifted@.len() == before.len() - k,
            forall|j: int|
                0 <= j < shifted@.len() ==> (#[trigger] shifted@[j]).wf() && shifted@[j].parameter()
                    == parameter && shifted@[j].name() == segment_name((k + j + 1) as nat)
                    && shifted@[j].bytes() == before[k
                    + j].bytes() && shifted@[j].full() == before[k + j].full() && forall|
                    key: Seq<char>,
                |
                    shifted@[j].accepts(key) == before[k + j].accepts(key),
        decreases k,
    {
        let ghost earlier = shifted@;
        let mut segment = segments.pop_back().unwrap();
        assert(segment == before[k - 1]);
        segment.rename(segment_file_name(k).as_str())?;
        shifted.push_front(segment);
        k -= 1;
        proof {
            assert(segments@ =~= before.take(k as int));
            assert forall|j: int| 0 <= j < shifted@.len() implies (#[trigger] shifted@[j]).wf()
                && shifted@[j].parameter() == parameter && shifted@[j].name() == segment_name(
                (k + j + 1) as nat,
            ) && shifted@[j].bytes()
                == before[k + j].bytes() && shifted@[j].full() == before[k + j].full()
                && forall|key: Seq<char>|
                shifted@[j].accepts(key) == before[k + j].accepts(key) by {
                if j > 0 {
                    assert(shifted@[j] == earlier[j - 1]);
                }
            }
        }
    }
    *segments = shifted;
    proof {
        assert(images_of(segments@) =~= images_of(before));
    }
    Ok(())
}

/// A store of keys and values in an ordered run of segment files, the newest
/// first.
pub struct SegmentedDb<F: SegmentFile, Fac: SegmentFileFactory<F>, RF: SegmentReaderFactory<F>> {
    segments: VecDeque<F>,
    merging_threshold: u64,
    policy: SegmentCreationPolicy,
    factory: Fac,
    reader_factory: RF,
}

impl<F: SegmentFile, Fac: SegmentFileFactory<F>, RF: SegmentReaderFactory<F>> SegmentedDb<
    F,
    Fac,
    RF,
> {
    /// The files of the segments, the newest first.
    pub closed spec fn images(&self) -> Seq<Seq<u8>> {
        images_of(self.segments@)
    }

    /// The newest segment, which takes the writes.
    pub closed spec fn head(&self) -> F {
        self.segments@[0]
    }

    /// The number of segments at which a merge pass begins.
    pub closed spec fn threshold(&self) -> u64 {
        self.merging_threshold
    }

    /// Who begins a new head segment.
    pub closed spec fn policy(&self) -> SegmentCreationPolicy {
        self.policy
    }

    /// The maker of segments.
    pub closed spec fn factory(&self) -> Fac {
        self.factory
    }

    /// There is a head, every segment is sound, and every segment has the
    /// file name of its position.
    pub closed spec fn wf(&self) -> bool {
        &&& self.segments@.len() >= 1
        &&& segments_ok(self.segments@, 0, self.factory.parameter())
    }

    /// The number of segments.
    pub open spec fn count(&self) -> int {
        self.images().len() as int
    }

    /// The keys and values that the store holds.
    pub open spec fn contents(&self) -> Map<Seq<char>, Seq<char>> {
        contents_of(stack_of(self.images()))
    }

    /// Whether a write under `key` will be taken: by a new head, or by the
    /// head there is.
    pub open spec fn accepts(&self, key: Seq<char>) -> bool {
        (self.policy() == SegmentCreationPolicy::Automatic && self.head().full())
            || self.head().accepts(key)
    }

    /// A sound store has a head, whose file is the first of its files, and
    /// all of its files can be loaded again.
    pub proof fn lemma_wf(&self)
        requires
            self.wf(),
        ensures
            self.count() >= 1,
            self.head().wf(),
            self.head().parameter() == self.factory().parameter(),
            self.images()[0] == self.head().bytes(),
            forall|i: int|
                0 <= i < self.count() ==> valid_log(#[trigger] self.images()[i]) && F::valid_image(
                    self.images()[i],
                ),
            can_open::<F>(listing_of(self.images())),
            opened_images(listing_of(self.images())) == self.images(),
    {
        assert forall|i: int| 0 <= i < self.count() implies valid_log(#[trigger] self.images()[i])
            && F::valid_image(self.images()[i]) by {
            self.segments@[i].lemma_wf();
        }
        assert(self.segments.len() == self.segments@.len());
        lemma_reopen(self.images());
        let listing = listing_of(self.images());
        assert forall|k: int| 0 <= k < stored_positions(listing).len() implies F::valid_image(
            stored_image(listing, #[trigger] stored_positions(listing)[k]),
        ) by {
            assert(stored_positions(listing)[k] == k);
            assert(valid_log(self.images()[k]));
            assert(stored_image(listing, k) == self.images()[k]);
        }
    }

    /// Opens a store on the files of a directory.
    ///
    /// The segments are the files named after positions, in the order of
    /// their positions, the least first; any other file is left alone.  Each
    /// segment gets the file name of the position it has in that order.  Where
    /// there is no segment file, the store begins with one empty segment.
    pub fn new(
        files: &Vec<StoredFile>,
        merging_threshold: u64,
        policy: SegmentCreationPolicy,
        factory: Fac,
        reader_factory: RF,
    ) -> (r: Result<Self, Error>)
        ensures
            r is Ok <==> can_open::<F>(listing_view(files@)),
            r matches Err(e) ==> e == Error::MalformedRecord,
            r matches Ok(db) ==> db.wf() && db.images() == opened_images(listing_view(files@))
                && db.threshold() == merging_threshold && db.policy() == policy && db.factory()
                == factory,
    {
        let ghost listing = listing_view(files@);
        let ghost mut done: Seq<int> = Seq::empty();
        let mut segments: VecDeque<F> = VecDeque::new();
        let mut floor: usize = 0;
        let mut k: usize = 0;
        while k < files.len()
            invariant_except_break
                stored_positions(listing) == done + positions_from(
                    listing,
                    floor as int,
                    (files@.len() - k) as nat,
                ),
            invariant
                k <= files@.len(),
                listing == listing_view(files@),
                done.len() == k,
                segments@.len() == k,
                segments_ok(segments@, 0, factory.parameter()),
                forall|i: int|
                    0 <= i < k ==> (#[trigger] segments@[i]).bytes() == stored_image(
                        listing,
                        done[i],
                    ),
            ensures
                done.len() == k,
                stored_positions(listing) == done,
                segments@.len() == k,
                segments_ok(segments@, 0, factory.parameter()),
                forall|i: int|
                    0 <= i < k ==> (#[trigger] segments@[i]).bytes() == stored_image(
                        listing,
                        done[i],
                    ),
            decreases files@.len() - k,
        {
            let (position, found) = match find_least(files, floor) {
                None => {
                    proof {
                        assert(done + Seq::<int>::empty() =~= done);
                    }
                    break ;
                },
                Some(pair) => pair,
            };
            let ghost rest = positions_from(
                listing,
                position + 1,
                (files@.len() - k - 1) as nat,
            );
            proof {
                assert(listing[found as int].1 == files@[found as int].bytes@);
                assert(stored_image(listing, position as int) == files@[found as int].bytes@);
                assert(stored_positions(listing) =~= done.push(position as int) + rest);
                assert(stored_positions(listing)[k as int] == position);
            }
            let ghost earlier = segments@;
            let name = segment_file_name(k);
            let segment = load::<F, Fac>(&factory, name.as_str(), &files[found].bytes)?;
            segments.push_back(segment);
            proof {
                done = done.push(position as int);
                assert forall|i: int| 0 <= i < k + 1 implies (#[trigger] segments@[i]).wf()
                    && segments@[i].parameter() == factory.parameter() && segments@[i].name()
                    == segment_name(i as nat) && segments@[i].bytes()
                    == stored_image(listing, done[i]) by {
                    if i < k {
                        assert(segments@[i] == earlier[i]);
                    }
                }
            }
            k += 1;
            if position == usize::MAX {
                proof {
                    let next = position + 1;
                    assert forall|p: int| !#[trigger] is_least_position(listing, next, p) by {}
                    assert(least_position(listing, next) is None);
                    assert(rest =~= Seq::<int>::empty());
                    assert(done + Seq::<int>::empty() =~= done);
                }
                break ;
            }
            floor = position + 1;
        }
        proof {
            if k == files@.len() {
                assert(done + Seq::<int>::empty() =~= done);
            }
            assert forall|i: int| 0 <= i < stored_positions(listing).len() implies F::valid_image(
                stored_image(listing, #[trigger] stored_positions(listing)[i]),
            ) by {
                segments@[i].lemma_wf();
            }
        }
        if segments.len() == 0 {
            let head = factory.new(segment_file_name(0).as_str())?;
            segments.push_back(head);
        }
        let db = SegmentedDb { segments, merging_threshold, policy, factory, reader_factory };
        proof {
            assert(db.images() =~= opened_images(listing));
        }
        Ok(db)
    }

    /// The number of segments.
    pub fn segment_count(&self) -> (r: usize)
        ensures
            r == self.count(),
    {
        self.segments.len()
    }

    /// The value of `key`, if the store holds one.
    pub fn get(&self, key: &str) -> (r: Result<Option<String>, Error>)
        requires
            self.wf(),
        ensures
            r is Ok,
            match r.unwrap() {
                Some(v) => self.contents().contains_key(key@) && self.contents()[key@] == v@,
                None => !self.contents().contains_key(key@),
            },
    {
        let ghost stack = stack_of(self.images());
        let mut i: usize = 0;
        while i < self.segments.len()
            invariant
                i <= self.segments@.len(),
                self.wf(),
                stack == stack_of(self.images()),
                lookup(stack, key@, 0) == lookup(stack, key@, i as int),
            decreases self.segments@.len() - i,
        {
            assert(stack[i as int] == log_entries(self.segments@[i as int].bytes()));
            match self.segments[i].get_status(key)? {
                Some(KeyStatus::Present(value)) => {
                    return Ok(Some(value));
                },
                Some(KeyStatus::Deleted) => {
                    return Ok(None);
                },
                None => {},
            }
            i += 1;
        }
        Ok(None)
    }

    /// Pairs `key` with `value`.
    pub fn set(&mut self, key: &str, value: &str) -> (r: Result<(), Error>)
        requires
            old(self).wf(),
        ensures
            final(self).wf(),
            final(self).threshold() == old(self).threshold(),
            final(self).policy() == old(self).policy(),
            final(self).factory() == old(self).factory(),
            r is Ok <==> old(self).accepts(key@),
            r is Ok ==> final(self).contents() == old(self).contents().insert(key@, value@),
            r is Ok ==> stack_of(final(self).images()) == merged_down(
                written_stack(
                    stack_of(old(self).images()),
                    old(self).policy() == SegmentCreationPolicy::Automatic && old(self).head().full(),
                    key@,
                    KeyStatus::Present(value@),
                ),
                old(self).threshold() as int,
            ),
            r is Ok && old(self).threshold() >= 1 ==> final(self).count() <= old(self).threshold(),
            r matches Err(e) ==> e == Error::OutOfOrderWrite && final(self).images() == old(self).images(),
    {
        let status = KeyStatus::Present(value.to_owned());
        self.write(key, &status)
    }

    /// Makes the store hold no value for `key`.
    pub fn delete(&mut self, key: &str) -> (r: Result<(), Error>)
        requires
            old(self).wf(),
        ensures
            final(self).wf(),
            final(self).threshold() == old(self).threshold(),
            final(self).policy() == old(self).policy(),
            final(self).factory() == old(self).factory(),
            r is Ok <==> old(self).accepts(key@),
            r is Ok ==> final(self).contents() == old(self).contents().remove(key@),
            r is Ok ==> stack_of(final(self).images()) == merged_down(
                written_stack(
                    stack_of(old(self).images()),
                    old(self).policy() == SegmentCreationPolicy::Automatic && old(self).head().full(),
                    key@,
                    KeyStatus::Deleted,
                ),
                old(self).threshold() as int,
            ),
            r is Ok && old(self).threshold() >= 1 ==> final(self).count() <= old(self).threshold(),
            r matches Err(e) ==> e == Error::OutOfOrderWrite && final(self).images() == old(self).images(),
    {
        let status: KeyStatus<String> = KeyStatus::Deleted;
        self.write(key, &status)
    }

    /// Writes one record: begins a new head first, if the manager is to do so
    /// and the head is full; merges afterwards, if the segments are too many.
    pub fn write(&mut self, key: &str, status: &KeyStatus<String>) -> (r: Result<(), Error>)
        requires
            old(self).wf(),
        ensures
            final(self).wf(),
            final(self).threshold() == old(self).threshold(),
            final(self).policy() == old(self).policy(),
            final(self).factory() == old(self).factory(),
            r is Ok <==> old(self).accepts(key@),
            r is Ok ==> final(self).contents() == written(old(self).contents(), key@, status@),
            r is Ok ==> stack_of(final(self).images()) == merged_down(
                written_stack(
                    stack_of(old(self).images()),
                    old(self).policy() == SegmentCreationPolicy::Automatic && old(self).head().full(),
                    key@,
                    status@,
                ),
                old(self).threshold() as int,
            ),
            r is Ok ==> final(self).count() == merged_count(
                if old(self).policy() == SegmentCreationPolicy::Automatic && old(self).head().full() {
                    old(self).count() + 1
                } else {
                    old(self).count()
                },
                old(self).threshold() as int,
            ),
            r is Ok && old(self).threshold() >= 1 ==> final(self).count() <= old(self).threshold(),
            r matches Err(e) ==> e == Error::OutOfOrderWrite && final(self).images() == old(self).images(),
    {
        let ghost mut fresh = false;
        match self.policy {
            SegmentCreationPolicy::Automatic => {
                if self.segments[0].ready_to_be_archived()? {
                    self.rotate()?;
                    proof {
                        fresh = true;
                        assert(self.head().accepts(key@));
                    }
                }
            },
            SegmentCreationPolicy::Explicit => {},
        }
        assert(fresh == (old(self).policy() == SegmentCreationPolicy::Automatic && old(self).head().full()));
        assert(fresh ==> self.head().accepts(key@));
        assert(!fresh ==> self.segments@ == old(self).segments@);
        assert(self.contents() == old(self).contents());
        proof {
            lemma_log_entries_empty();
            if fresh {
                assert(stack_of(self.images()) =~= seq![
                    Map::<Seq<char>, KeyStatus<Seq<char>>>::empty(),
                ] + stack_of(old(self).images()));
            }
        }
        let ghost rotated = self.segments@;
        let ghost stack = stack_of(images_of(rotated));
        let mut head = self.segments.pop_front().unwrap();
        let ghost head_before = head;
        let result = head.set_status(key, status);
        self.segments.push_front(head);
        proof {
            let after = self.segments@;
            assert(rotated[0] == head_before);
            assert forall|i: int| 0 <= i < after.len() implies (#[trigger] after[i]).wf()
                && after[i].name() == segment_name(i as nat) && after[i].parameter()
                == self.factory.parameter() by {
                if i > 0 {
                    assert(after[i] == rotated[i]);
                }
            }
            head_before.lemma_wf();
            lemma_log_entries_append(head_before.bytes(), key@, status@);
            if result is Ok {
                assert(stack_of(images_of(after)) =~= stack.update(
                    0,
                    stack[0].insert(key@, status@),
                ));
                lemma_write_head(stack, key@, status@);
            } else {
                assert(images_of(after) =~= images_of(rotated));
            }
        }
        result?;
        self.merge()
    }

    /// Begins a new, empty head, and moves every segment one position up.
    fn rotate(&mut self) -> (r: Result<(), Error>)
        requires
            old(self).wf(),
        ensures
            r is Ok,
            final(self).wf(),
            final(self).images() == seq![Seq::<u8>::empty()] + old(self).images(),
            final(self).contents() == old(self).contents(),
            final(self).threshold() == old(self).threshold(),
            final(self).policy() == old(self).policy(),
            final(self).factory() == old(self).factory(),
            forall|k: Seq<char>| final(self).head().accepts(k),
    {
        shift_names(&mut self.segments, Ghost(self.factory.parameter()))?;
        let ghost shifted = self.segments@;
        let head = self.factory.new(segment_file_name(0).as_str())?;
        self.segments.push_front(head);
        proof {
            let after = self.segments@;
            assert forall|i: int| 0 <= i < after.len() implies (#[trigger] after[i]).wf()
                && after[i].name() == segment_name(i as nat) && after[i].parameter()
                == self.factory.parameter() by {
                if i > 0 {
                    assert(after[i] == shifted[i - 1]);
                }
            }
            assert(images_of(after) =~= seq![Seq::<u8>::empty()] + images_of(shifted));
            lemma_log_entries_empty();
            let stack = stack_of(old(self).images());
            assert(stack_of(images_of(after)) =~= seq![
                Map::<Seq<char>, KeyStatus<Seq<char>>>::empty(),
            ] + stack);
            lemma_prepend(stack, Map::<Seq<char>, KeyStatus<Seq<char>>>::empty());
        }
        Ok(())
    }

    /// Puts a ready-made segment in front of the others as the new head, and
    /// merges afterwards, if the segments are too many.
    pub fn prepend(&mut self, segment: F) -> (r: Result<(), Error>)
        requires
            old(self).wf(),
            segment.wf(),
            segment.parameter() == old(self).factory().parameter(),
        ensures
            r is Ok,
            final(self).wf(),
            final(self).contents() == contents_of(
                seq![log_entries(segment.bytes())] + stack_of(old(self).images()),
            ),
            stack_of(final(self).images()) == merged_down(
                seq![log_entries(segment.bytes())] + stack_of(old(self).images()),
                old(self).threshold() as int,
            ),
            final(self).count() == merged_count(
                old(self).count() + 1,
                old(self).threshold() as int,
            ),
            old(self).threshold() >= 1 ==> final(self).count() <= old(self).threshold(),
            final(self).threshold() == old(self).threshold(),
            final(self).policy() == old(self).policy(),
            final(self).factory() == old(self).factory(),
    {
        shift_names(&mut self.segments, Ghost(self.factory.parameter()))?;
        let ghost shifted = self.segments@;
        let mut head = segment;
        head.rename(segment_file_name(0).as_str())?;
        self.segments.push_front(head);
        proof {
            let after = self.segments@;
            assert forall|i: int| 0 <= i < after.len() implies (#[trigger] after[i]).wf()
                && after[i].name() == segment_name(i as nat) && after[i].parameter()
                == self.factory.parameter() by {
                if i > 0 {
                    assert(after[i] == shifted[i - 1]);
                }
            }
            assert(images_of(after) =~= seq![segment.bytes()] + images_of(shifted));
            assert(stack_of(images_of(after)) =~= seq![log_entries(segment.bytes())] + stack_of(
                old(self).images(),
            ));
        }
        self.merge()
    }

    /// Merges the two oldest segments into one, which takes the place of the
    /// newer of the two.
    fn merge_oldest(&mut self) -> (r: Result<(), Error>)
        requires
            old(self).wf(),
            old(self).count() >= 2,
        ensures
            r is Ok,
            final(self).wf(),
            final(self).count() == old(self).count() - 1,
            stack_of(final(self).images()) == merged_stack(stack_of(old(self).images())),
            final(self).contents() == old(self).contents(),
            final(self).threshold() == old(self).threshold(),
            final(self).policy() == old(self).policy(),
            final(self).factory() == old(self).factory(),
    {
        let ghost before = self.segments@;
        let ghost n = before.len() as int;
        let older = self.segments.pop_back().unwrap();
        let mut newer = self.segments.pop_back().unwrap();
        assert(older == before[n - 1]);
        assert(newer == before[n - 2]);
        {
            let reader = self.reader_factory.new(&older)?;
            newer.absorb(&reader)?;
        }
        older.delete()?;
        self.segments.push_back(newer);
        proof {
            let after = self.segments@;
            assert forall|i: int| 0 <= i < after.len() implies (#[trigger] after[i]).wf()
                && after[i].name() == segment_name(i as nat) && after[i].parameter()
                == self.factory.parameter() by {
                if i < n - 2 {
                    assert(after[i] == before[i]);
                }
            }
            let stack = stack_of(images_of(before));
            assert(stack_of(images_of(after)) =~= merged_stack(stack)) by {
                assert forall|i: int| 0 <= i < after.len() implies stack_of(images_of(after))[i]
                    == merged_stack(stack)[i] by {
                    if i < n - 2 {
                        assert(after[i] == before[i]);
                    }
                }
            }
            lemma_merge_keeps_contents(stack);
        }
        Ok(())
    }

    /// The merge pass: while the segments are two or more and as many as the
    /// merging threshold, merges the two oldest.
    pub fn merge(&mut self) -> (r: Result<(), Error>)
        requires
            old(self).wf(),
        ensures
            r is Ok,
            final(self).wf(),
            final(self).contents() == old(self).contents(),
            stack_of(final(self).images()) == merged_down(
                stack_of(old(self).images()),
                old(self).threshold() as int,
            ),
            final(self).count() == merged_count(old(self).count(), old(self).threshold() as int),
            old(self).threshold() >= 1 ==> final(self).count() <= old(self).threshold()
                || final(self).count() == old(self).count(),
            final(self).threshold() == old(self).threshold(),
            final(self).policy() == old(self).policy(),
            final(self).factory() == old(self).factory(),
    {
        while self.segments.len() >= 2 && self.segments.len() as u64 >= self.merging_threshold
            invariant
                self.wf(),
                self.contents() == old(self).contents(),
                merged_down(stack_of(self.images()), self.threshold() as int) == merged_down(
                    stack_of(old(self).images()),
                    old(self).threshold() as int,
                ),
                1 <= self.count() <= old(self).count(),
                merged_count(self.count(), self.threshold() as int) == merged_count(
                    old(self).count(),
                    old(self).threshold() as int,
                ),
                self.threshold() == old(self).threshold(),
                self.policy() == old(self).policy(),
                self.factory() == old(self).factory(),
            decreases self.count(),
        {
            self.merge_oldest()?;
        }
        Ok(())
    }

    /// The files of the segments, each under the name of its position, to be
    /// stored.
    pub fn files(&self) -> (r: Vec<StoredFile>)
        requires
            self.wf(),
        ensures
            listing_view(r@) == listing_of(self.images()),
    {
        let mut out: Vec<StoredFile> = Vec::new();
        let mut i: usize = 0;
        while i < self.segments.len()
            invariant
                i <= self.segments@.len(),
                self.wf(),
                out@.len() == i,
                forall|j: int|
                    0 <= j < i ==> (#[trigger] out@[j]).name@ == segment_name(j as nat)
                        && out@[j].bytes@ == self.segments@[j].bytes(),
            decreases self.segments@.len() - i,
        {
            let name = self.segments[i].file_name();
            let bytes = self.segments[i].contents();
            out.push(StoredFile { name, bytes });
            i += 1;
        }
        assert(listing_view(out@) =~= listing_of(self.images()));
        out
    }
}

/// Loads one segment from the bytes of its file.
fn load<F: SegmentFile, Fac: SegmentFileFactory<F>>(factory: &Fac, name: &str, bytes: &Vec<u8>) -> (r:
    Result<F, Error>)
    ensures
        r is Ok <==> F::valid_image(bytes@),
        r matches Err(e) ==> e == Error::MalformedRecord,
        r matches Ok(f) ==> f.wf() && f.bytes() == bytes@ && f.name() == name@ && f.parameter()
            == factory.parameter(),
{
    factory.from_disk(name, bytes.clone())
}

} // verus!
