//! Byte-wise ordering of keys and decimal numbers in text.

use vstd::prelude::*;
use vstd::utf8::*;

verus! {

/// Lexicographic "less than" on two byte strings, looking only at positions
/// `i` and above.
pub open spec fn bytes_lt_from(a: Seq<u8>, b: Seq<u8>, i: int) -> bool
    decreases a.len() - i,
{
    if i >= b.len() {
        false
    } else if i >= a.len() {
        true
    } else if a[i] != b[i] {
        a[i] < b[i]
    } else {
        bytes_lt_from(a, b, i + 1)
    }
}

/// Lexicographic "less than" on byte strings.
pub open spec fn bytes_lt(a: Seq<u8>, b: Seq<u8>) -> bool {
    bytes_lt_from(a, b, 0)
}

/// The order of keys: the lexicographic order of their UTF-8 bytes.
#[verifier::opaque]
pub open spec fn str_lt(a: Seq<char>, b: Seq<char>) -> bool {
    bytes_lt(encode_utf8(a), encode_utf8(b))
}

/// `a` is below or equal to `b` in the order of keys.
pub open spec fn str_le(a: Seq<char>, b: Seq<char>) -> bool {
    a == b || str_lt(a, b)
}

pub proof fn lemma_bytes_lt_irreflexive(a: Seq<u8>, i: int)
    requires
        0 <= i,
    ensures
        !bytes_lt_from(a, a, i),
    decreases a.len() - i,
{
    if i < a.len() {
        lemma_bytes_lt_irreflexive(a, i + 1);
    }
}

pub proof fn lemma_bytes_lt_transitive(a: Seq<u8>, b: Seq<u8>, c: Seq<u8>, i: int)
    requires
        0 <= i,
        bytes_lt_from(a, b, i),
        bytes_lt_from(b, c, i),
    ensures
        bytes_lt_from(a, c, i),
    decreases a.len() - i,
{
    if i < a.len() && a[i] == b[i] && b[i] == c[i] {
        lemma_bytes_lt_transitive(a, b, c, i + 1);
    }
}

pub proof fn lemma_bytes_lt_total(a: Seq<u8>, b: Seq<u8>, i: int)
    requires
        0 <= i <= a.len(),
        i <= b.len(),
        !bytes_lt_from(a, b, i),
        !bytes_lt_from(b, a, i),
    ensures
        a.len() == b.len(),
        forall|j: int| i <= j < a.len() ==> a[j] == b[j],
    decreases a.len() - i,
{
    if i < a.len() && i < b.len() {
        lemma_bytes_lt_total(a, b, i + 1);
    }
}

/// No key is below itself.
pub proof fn lemma_str_lt_irreflexive(a: Seq<char>)
    ensures
        !str_lt(a, a),
{
    reveal(str_lt);
    lemma_bytes_lt_irreflexive(encode_utf8(a), 0);
}

/// The order of keys is transitive.
pub proof fn lemma_str_lt_transitive(a: Seq<char>, b: Seq<char>, c: Seq<char>)
    requires
        str_lt(a, b),
        str_lt(b, c),
    ensures
        str_lt(a, c),
{
    reveal(str_lt);
    lemma_bytes_lt_transitive(encode_utf8(a), encode_utf8(b), encode_utf8(c), 0);
}

/// Of two keys, one is below the other or they are equal, and only one of the
/// three holds.
pub proof fn lemma_str_lt_total(a: Seq<char>, b: Seq<char>)
    ensures
        str_lt(a, b) || str_lt(b, a) || a == b,
        !(str_lt(a, b) && str_lt(b, a)),
        !(str_lt(a, b) && a == b),
{
    reveal(str_lt);
    let x = encode_utf8(a);
    let y = encode_utf8(b);
    if !str_lt(a, b) && !str_lt(b, a) {
        lemma_bytes_lt_total(x, y, 0);
        assert(x =~= y);
        encode_utf8_decode_utf8(a);
        encode_utf8_decode_utf8(b);
    }
    if str_lt(a, b) && str_lt(b, a) {
        lemma_bytes_lt_transitive(x, y, x, 0);
    }
    lemma_bytes_lt_irreflexive(x, 0);
}

/// How two keys stand to each other.
#[derive(Debug, Clone, Copy, PartialEq, Eq, Structural)]
pub enum KeyOrder {
    Less,
    Equal,
    Greater,
}

/// The order of two keys, as a specification.
pub open spec fn key_order(a: Seq<char>, b: Seq<char>) -> KeyOrder {
    if str_lt(a, b) {
        KeyOrder::Less
    } else if a == b {
        KeyOrder::Equal
    } else {
        KeyOrder::Greater
    }
}

/// Compares two keys byte by byte.
pub fn compare_keys(a: &str, b: &str) -> (r: KeyOrder)
    ensures
        r == key_order(a@, b@),
        r == KeyOrder::Greater <==> str_lt(b@, a@),
{
    let x = a.as_bytes();
    let y = b.as_bytes();
    let mut i: usize = 0;
    proof {
        reveal(str_lt);
        lemma_str_lt_total(a@, b@);
    }
    while i < x.len() && i < y.len()
        invariant
            i <= x.len(),
            i <= y.len(),
            bytes_lt_from(x@, y@, 0) == bytes_lt_from(x@, y@, i as int),
            bytes_lt_from(y@, x@, 0) == bytes_lt_from(y@, x@, i as int),
            str_lt(a@, b@) == bytes_lt_from(x@, y@, 0),
            str_lt(b@, a@) == bytes_lt_from(y@, x@, 0),
            str_lt(a@, b@) || str_lt(b@, a@) || a@ == b@,
            !(str_lt(a@, b@) && str_lt(b@, a@)),
            !(str_lt(a@, b@) && a@ == b@),
        decreases x.len() - i,
    {
        if x[i] < y[i] {
            return KeyOrder::Less;
        }
        if x[i] > y[i] {
            return KeyOrder::Greater;
        }
        i += 1;
    }
    if i < y.len() {
        KeyOrder::Less
    } else if i < x.len() {
        KeyOrder::Greater
    } else {
        KeyOrder::Equal
    }
}

/// Whether a byte is an ASCII decimal digit.
pub open spec fn is_digit(b: u8) -> bool {
    0x30 <= b <= 0x39
}

/// The decimal digits of a number, most significant first, without padding.
pub open spec fn dec_digits(n: nat) -> Seq<u8>
    decreases n,
{
    if n < 10 {
        seq![(0x30 + n) as u8]
    } else {
        dec_digits(n / 10).push((0x30 + n % 10) as u8)
    }
}

/// The number that a string of decimal digits denotes.
pub open spec fn dec_value(d: Seq<u8>) -> nat
    decreases d.len(),
{
    if d.len() == 0 {
        0
    } else {
        dec_value(d.drop_last()) * 10 + (d.last() - 0x30) as nat
    }
}

/// Reading back the digits of a number gives the number.
pub proof fn lemma_dec_round_trip(n: nat)
    ensures
        dec_value(dec_digits(n)) == n,
        dec_digits(n).len() >= 1,
        forall|i: int| 0 <= i < dec_digits(n).len() ==> is_digit(#[trigger] dec_digits(n)[i]),
    decreases n,
{
    let d = dec_digits(n);
    if n < 10 {
        assert(d.drop_last() =~= Seq::<u8>::empty());
        assert(dec_value(d.drop_last()) == 0);
    } else {
        lemma_dec_round_trip(n / 10);
        assert(d.drop_last() =~= dec_digits(n / 10));
    }
}

/// A longer run of digits denotes no smaller a number than its prefix.
pub proof fn lemma_dec_value_prefix(d: Seq<u8>, k: int)
    requires
        0 <= k <= d.len(),
        forall|i: int| 0 <= i < d.len() ==> is_digit(#[trigger] d[i]),
    ensures
        dec_value(d.take(k)) <= dec_value(d),
    decreases d.len() - k,
{
    if k < d.len() {
        assert(d.drop_last().take(k) =~= d.take(k));
        lemma_dec_value_prefix(d.drop_last(), k);
    } else {
        assert(d.take(k) =~= d);
    }
}

/// The digits of a number begin with a zero only when the number is zero.
pub proof fn lemma_dec_digits_leading(n: nat)
    ensures
        dec_digits(n)[0] == 0x30 <==> n == 0,
        dec_digits(n).len() == 1 <==> n < 10,
    decreases n,
{
    lemma_dec_round_trip(n);
    if n >= 10 {
        lemma_dec_digits_leading(n / 10);
        lemma_dec_round_trip(n / 10);
    }
}

/// Digits that begin with no zero denote a number above zero.
proof fn lemma_dec_value_positive(d: Seq<u8>)
    requires
        d.len() >= 1,
        forall|i: int| 0 <= i < d.len() ==> is_digit(#[trigger] d[i]),
        d[0] != 0x30,
    ensures
        dec_value(d) >= 1,
    decreases d.len(),
{
    if d.len() > 1 {
        let front = d.drop_last();
        assert(front[0] == d[0]);
        assert forall|i: int| 0 <= i < front.len() implies is_digit(#[trigger] front[i]) by {
            assert(front[i] == d[i]);
        }
        lemma_dec_value_positive(front);
    } else {
        assert(d.drop_last() =~= Seq::<u8>::empty());
        assert(d.last() == d[0]);
    }
}

/// Digits without padding are the digits of the number they denote.
pub proof fn lemma_dec_canonical(d: Seq<u8>)
    requires
        d.len() >= 1,
        forall|i: int| 0 <= i < d.len() ==> is_digit(#[trigger] d[i]),
        d.len() == 1 || d[0] != 0x30,
    ensures
        dec_digits(dec_value(d)) == d,
    decreases d.len(),
{
    let front = d.drop_last();
    if d.len() == 1 {
        assert(front =~= Seq::<u8>::empty());
        assert(dec_value(front) == 0);
        assert(d.last() == d[0]);
        assert(dec_digits(dec_value(d)) =~= d);
    } else {
        assert(front[0] == d[0]);
        assert forall|i: int| 0 <= i < front.len() implies is_digit(#[trigger] front[i]) by {
            assert(front[i] == d[i]);
        }
        lemma_dec_canonical(front);
        lemma_dec_value_positive(front);
        let v = dec_value(d);
        assert(v / 10 == dec_value(front));
        assert(v % 10 == d.last() - 0x30);
        assert(dec_digits(v) =~= d);
    }
}

/// Reads the number written without padding in the bytes from `start` to the
/// end; `None` where those bytes are no such number, or the number is beyond
/// what can be counted.
pub fn parse_decimal(data: &[u8], start: usize) -> (r: Option<usize>)
    requires
        start <= data@.len(),
    ensures
        r matches Some(n) ==> data@.skip(start as int) == dec_digits(n as nat),
        r is None ==> forall|q: nat|
            q <= usize::MAX ==> data@.skip(start as int) != #[trigger] dec_digits(q),
{
    let len = data.len();
    let ghost d = data@.skip(start as int);
    if start == len || (len - start > 1 && data[start] == 0x30) {
        proof {
            assert forall|q: nat| q <= usize::MAX implies d != #[trigger] dec_digits(q) by {
                lemma_dec_digits_leading(q);
                lemma_dec_round_trip(q);
                if start < len {
                    assert(d[0] == data@[start as int]);
                }
            }
        }
        return None;
    }
    let mut n: usize = 0;
    let mut i: usize = start;
    while i < len
        invariant
            start <= i <= len,
            len == data@.len(),
            d == data@.skip(start as int),
            forall|j: int| 0 <= j < i - start ==> is_digit(#[trigger] d[j]),
            n == dec_value(d.take(i - start)),
        decreases len - i,
    {
        if data[i] < 0x30 || data[i] > 0x39 {
            proof {
                assert forall|q: nat| q <= usize::MAX implies d != #[trigger] dec_digits(q) by {
                    lemma_dec_round_trip(q);
                    assert(d[i - start] == data@[i as int]);
                }
            }
            return None;
        }
        let digit: u8 = data[i] - 0x30;
        let v: u128 = (n as u128) * 10 + (digit as u128);
        proof {
            let sub = d.take(i + 1 - start);
            assert(sub.drop_last() =~= d.take(i - start));
            assert(sub.last() == data@[i as int]);
            assert(dec_value(sub) == v);
            assert(d[i - start] == data@[i as int]);
        }
        if v > usize::MAX as u128 {
            proof {
                assert forall|q: nat| q <= usize::MAX implies d != #[trigger] dec_digits(q) by {
                    lemma_dec_round_trip(q);
                    if d == dec_digits(q) {
                        lemma_dec_value_prefix(d, i + 1 - start);
                    }
                }
            }
            return None;
        }
        n = v as usize;
        i += 1;
    }
    proof {
        assert(d.take(len - start) =~= d);
        assert(d[0] == data@[start as int]);
        lemma_dec_canonical(d);
    }
    Some(n)
}

/// Appends the decimal digits of `n` to `out`.
pub fn push_decimal(out: &mut Vec<u8>, n: usize)
    ensures
        final(out)@ == old(out)@ + dec_digits(n as nat),
    decreases n,
{
    if n >= 10 {
        push_decimal(out, n / 10);
    }
    let digit: u8 = (n % 10) as u8;
    out.push(0x30u8 + digit);
    assert(out@ =~= old(out)@ + dec_digits(n as nat));
}

/// Turns bytes into a string when they are UTF-8.
///
/// Calls `String::from_utf8`, which fails exactly on bytes that are not
/// UTF-8 and otherwise gives the string made of those very bytes.
#[verifier::external_body]
pub(crate) fn string_from_utf8(bytes: Vec<u8>) -> (r: Option<String>)
    ensures
        r is Some <==> valid_utf8(bytes@),
        r matches Some(s) ==> encode_utf8(s@) == bytes@,
{
    match String::from_utf8(bytes) {
        Ok(s) => Some(s),
        Err(_) => None,
    }
}

} // verus!
