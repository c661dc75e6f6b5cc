//! The variable-length integers of the container format.
//!
//! A number is written in groups of seven bits, lowest group first. Every
//! byte but the last has its high bit clear; the last has it set. After each
//! byte but the last, one is taken off what remains, so that no number has
//! two encodings.
use vstd::prelude::*;

verus! {

/// The encoding of `value`.
pub open spec fn varint_bytes(value: nat) -> Seq<u8>
    decreases value,
{
    if value < 128 {
        seq![(value + 128) as u8]
    } else {
        seq![(value % 128) as u8] + varint_bytes((value / 128 - 1) as nat)
    }
}

/// Reads one encoded number from the front of `bytes`: the number and how
/// many bytes it took, or `None` where no byte has its high bit set.
pub open spec fn varint_read(bytes: Seq<u8>) -> Option<(nat, nat)>
    decreases bytes.len(),
{
    if bytes.len() == 0 {
        None
    } else if bytes[0] >= 128 {
        Some(((bytes[0] - 128) as nat, 1nat))
    } else {
        match varint_read(bytes.skip(1)) {
            Some((rest, taken)) => Some((bytes[0] as nat + 128 * (rest + 1), taken + 1)),
            None => None,
        }
    }
}

/// Reads one encoded number that starts at `start`: the number and the
/// position just behind it. `None` where `start` is not in `bytes`, where no
/// byte from `start` on has its high bit set, or where the number is beyond
/// 64 bits.
pub open spec fn varint_at(bytes: Seq<u8>, start: int) -> Option<(u64, int)> {
    if 0 <= start <= bytes.len() {
        match varint_read(bytes.skip(start)) {
            Some((value, taken)) => if value <= u64::MAX {
                Some((value as u64, start + taken))
            } else {
                None
            },
            None => None,
        }
    } else {
        None
    }
}

/// The position just behind the encoded number that starts at `start`,
/// whatever its size: behind the first byte from `start` on that has its high bit set.
pub open spec fn varint_end(bytes: Seq<u8>, start: int) -> Option<int> {
    if 0 <= start <= bytes.len() {
        match varint_read(bytes.skip(start)) {
            Some((_, taken)) => Some(start + taken),
            None => None,
        }
    } else {
        None
    }
}

/// The number that `bytes` start with, where it fits in 64 bits.
pub open spec fn varint_value(bytes: Seq<u8>) -> Option<u64> {
    match varint_at(bytes, 0) {
        Some((value, _)) => Some(value),
        None => None,
    }
}

/// An encoding is never empty, and only its last byte has the high bit set.
pub proof fn lemma_varint_bytes_shape(value: nat)
    ensures
        varint_bytes(value).len() >= 1,
        varint_bytes(value).last() >= 128,
        forall|j: int| 0 <= j < varint_bytes(value).len() - 1 ==> varint_bytes(value)[j] < 128,
    decreases value,
{
    if value >= 128 {
        let rest = (value / 128 - 1) as nat;
        lemma_varint_bytes_shape(rest);
        let tail = varint_bytes(rest);
        let all = varint_bytes(value);
        assert(all == seq![(value % 128) as u8] + tail);
        assert(all.last() == tail.last());
        assert forall|j: int| 0 <= j < all.len() - 1 implies all[j] < 128 by {
            if j > 0 {
                assert(all[j] == tail[j - 1]);
            }
        }
    }
}

/// A read that succeeds took at least one byte and no more than there are;
/// the last byte it took has the high bit set and the ones before have not.
pub proof fn lemma_varint_read_shape(bytes: Seq<u8>)
    requires
        varint_read(bytes) is Some,
    ensures
        1 <= varint_read(bytes).unwrap().1 <= bytes.len(),
        bytes[varint_read(bytes).unwrap().1 - 1] >= 128,
        forall|j: int| 0 <= j < varint_read(bytes).unwrap().1 - 1 ==> bytes[j] < 128,
    decreases bytes.len(),
{
    if bytes[0] < 128 {
        let tail = bytes.skip(1);
        lemma_varint_read_shape(tail);
        let taken = varint_read(tail).unwrap().1;
        assert(bytes[taken as int] == tail[taken - 1]);
        assert forall|j: int| 0 <= j < taken implies bytes[j] < 128 by {
            if j > 0 {
                assert(bytes[j] == tail[j - 1]);
            }
        }
    }
}

/// Without a byte that has its high bit set there is nothing to read.
pub proof fn lemma_varint_read_unfinished(bytes: Seq<u8>)
    requires
        forall|j: int| 0 <= j < bytes.len() ==> bytes[j] < 128,
    ensures
        varint_read(bytes) is None,
    decreases bytes.len(),
{
    if bytes.len() > 0 {
        let tail = bytes.skip(1);
        assert forall|j: int| 0 <= j < tail.len() implies tail[j] < 128 by {
            assert(tail[j] == bytes[j + 1]);
        }
        lemma_varint_read_unfinished(tail);
    }
}

/// A read ends with the first byte that has its high bit set.
pub proof fn lemma_varint_read_finished(bytes: Seq<u8>, last: int)
    requires
        0 <= last < bytes.len(),
        bytes[last] >= 128,
        forall|j: int| 0 <= j < last ==> bytes[j] < 128,
    ensures
        varint_read(bytes) is Some,
        varint_read(bytes).unwrap().1 == last + 1,
    decreases last,
{
    if last > 0 {
        let tail = bytes.skip(1);
        assert(tail[last - 1] == bytes[last]);
        assert forall|j: int| 0 <= j < last - 1 implies tail[j] < 128 by {
            assert(tail[j] == bytes[j + 1]);
        }
        lemma_varint_read_finished(tail, last - 1);
    }
}

/// A read looks only at the bytes it takes: what follows them does not
/// change the result.
pub proof fn lemma_varint_read_local(a: Seq<u8>, b: Seq<u8>)
    requires
        varint_read(a) is Some,
        varint_read(a).unwrap().1 <= b.len(),
        forall|j: int| 0 <= j < varint_read(a).unwrap().1 ==> a[j] == b[j],
    ensures
        varint_read(b) == varint_read(a),
    decreases a.len(),
{
    lemma_varint_read_shape(a);
    if a[0] < 128 {
        let ta = a.skip(1);
        let tb = b.skip(1);
        let taken = varint_read(ta).unwrap().1;
        assert forall|j: int| 0 <= j < taken implies ta[j] == tb[j] by {
            assert(ta[j] == a[j + 1]);
            assert(tb[j] == b[j + 1]);
        }
        lemma_varint_read_local(ta, tb);
    }
}

/// Reading an encoding gives back the number, and takes exactly the
/// encoding, whatever follows it.
pub proof fn lemma_varint_roundtrip(value: nat, rest: Seq<u8>)
    ensures
        varint_read(varint_bytes(value) + rest) == Some((value, varint_bytes(value).len())),
    decreases value,
{
    let all = varint_bytes(value) + rest;
    if value < 128 {
        assert(all[0] == (value + 128) as u8);
    } else {
        let less = (value / 128 - 1) as nat;
        lemma_varint_roundtrip(less, rest);
        assert(all[0] == (value % 128) as u8);
        assert(all.skip(1) == varint_bytes(less) + rest);
        assert((value % 128) + 128 * (less + 1) == value);
    }
}

/// No number has two encodings: the bytes that a read took are the
/// encoding of the number that it gave.
pub proof fn lemma_varint_read_canonical(bytes: Seq<u8>)
    requires
        varint_read(bytes) is Some,
    ensures
        varint_read(bytes).unwrap().1 <= bytes.len(),
        varint_bytes(varint_read(bytes).unwrap().0) == bytes.take(
            varint_read(bytes).unwrap().1 as int,
        ),
    decreases bytes.len(),
{
    lemma_varint_read_shape(bytes);
    let (value, taken) = varint_read(bytes).unwrap();
    if bytes[0] >= 128 {
        assert(bytes.take(1) == seq![bytes[0]]);
    } else {
        let tail = bytes.skip(1);
        lemma_varint_read_canonical(tail);
        let (rest, tail_taken) = varint_read(tail).unwrap();
        assert(value == bytes[0] as nat + 128 * (rest + 1));
        assert(value % 128 == bytes[0]);
        assert(value / 128 - 1 == rest);
        assert(bytes.take(taken as int) == seq![bytes[0]] + tail.take(tail_taken as int));
    }
}

/// Decoding the encoding of a 64-bit number gives the number back.
pub proof fn lemma_decode_encode(value: u64)
    ensures
        varint_value(varint_bytes(value as nat)) == Some(value),
{
    lemma_varint_roundtrip(value as nat, Seq::empty());
    assert(varint_bytes(value as nat) + Seq::<u8>::empty() == varint_bytes(value as nat));
    assert(varint_bytes(value as nat).skip(0) == varint_bytes(value as nat));
}

/// Reading the encoding of a 64-bit number where it stands inside a longer
/// sequence gives the number, and the position just behind the encoding.
pub proof fn lemma_varint_at_encoded(before: Seq<u8>, value: u64, after: Seq<u8>)
    ensures
        varint_at(before + varint_bytes(value as nat) + after, before.len() as int) == Some(
            (value, (before.len() + varint_bytes(value as nat).len()) as int),
        ),
{
    let all = before + varint_bytes(value as nat) + after;
    lemma_varint_roundtrip(value as nat, after);
    assert(all.skip(before.len() as int) == varint_bytes(value as nat) + after);
}

} // verus!
