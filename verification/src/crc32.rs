//! The CRC-32 checksum (reflected polynomial `0xEDB88320`, register started
//! at `0xFFFFFFFF`, result inverted), as used by common archive formats.
use vstd::prelude::*;

verus! {

/// The generator polynomial, in reflected form.
pub const POLYNOMIAL: u32 = 0xEDB8_8320u32;

/// One shift of the register: the low bit leaves, and where it was set the
/// polynomial is folded in.
pub open spec fn crc_round(register: u32) -> u32 {
    if register & 1 == 1 {
        (register >> 1) ^ 0xEDB8_8320u32
    } else {
        register >> 1
    }
}

/// `count` shifts of the register.
pub open spec fn crc_rounds(register: u32, count: nat) -> u32
    decreases count,
{
    if count == 0 {
        register
    } else {
        crc_rounds(crc_round(register), (count - 1) as nat)
    }
}

/// The register after one more byte: the byte is folded into the low eight
/// bits, which are then shifted out.
pub open spec fn crc_update(register: u32, byte: u8) -> u32 {
    crc_rounds(register ^ (byte as u32), 8)
}

/// The register after all of `bytes`, starting from all ones.
pub open spec fn crc_register(bytes: Seq<u8>) -> u32
    decreases bytes.len(),
{
    if bytes.len() == 0 {
        0xFFFF_FFFFu32
    } else {
        crc_update(crc_register(bytes.drop_last()), bytes.last())
    }
}

/// The CRC-32 checksum of `bytes`.
pub open spec fn checksum(bytes: Seq<u8>) -> u32 {
    crc_register(bytes) ^ 0xFFFF_FFFFu32
}

/// Computes the CRC-32 checksum of `bytes`.
pub fn calculate(bytes: &[u8]) -> (crc: u32)
    ensures
        crc == checksum(bytes@),
{
    let mut register: u32 = 0xFFFF_FFFFu32;
    let mut i: usize = 0;
    while i < bytes.len()
        invariant
            i <= bytes.len(),
            register == crc_register(bytes@.take(i as int)),
        decreases bytes.len() - i,
    {
        let ghost before = register;
        register = register ^ (bytes[i] as u32);
        let mut round: u8 = 0;
        while round < 8
            invariant
                round <= 8,
                crc_rounds(register, (8 - round) as nat) == crc_update(before, bytes@[i as int]),
            decreases 8 - round,
        {
            if register & 1 == 1 {
                register = (register >> 1) ^ POLYNOMIAL;
            } else {
                register = register >> 1;
            }
            round += 1;
        }
        proof {
            let next = bytes@.take(i + 1);
            assert(next.drop_last() == bytes@.take(i as int));
            assert(next.last() == bytes@[i as int]);
        }
        i += 1;
    }
    proof {
        assert(bytes@.take(bytes.len() as int) == bytes@);
    }
    register ^ 0xFFFF_FFFFu32
}

/// A shift of the register loses nothing: two registers that differ still
/// differ after it.
pub proof fn lemma_round_injective(a: u32, b: u32)
    requires
        crc_round(a) == crc_round(b),
    ensures
        a == b,
{
    assert(crc_round(a) == crc_round(b) ==> a == b) by (bit_vector);
}

/// Any number of shifts keeps two different registers different.
pub proof fn lemma_rounds_injective(a: u32, b: u32, count: nat)
    requires
        crc_rounds(a, count) == crc_rounds(b, count),
    ensures
        a == b,
    decreases count,
{
    if count > 0 {
        lemma_rounds_injective(crc_round(a), crc_round(b), (count - 1) as nat);
        lemma_round_injective(a, b);
    }
}

/// Taking in a byte keeps two registers apart if they were apart and the
/// bytes agree, and sets them apart if they agreed and the bytes differ.
pub proof fn lemma_update_injective(a: u32, x: u8, b: u32, y: u8)
    requires
        crc_update(a, x) == crc_update(b, y),
    ensures
        a == b <==> x == y,
{
    lemma_rounds_injective(a ^ (x as u32), b ^ (y as u32), 8);
    assert((a ^ (x as u32)) == (b ^ (y as u32)) ==> (a == b <==> x == y)) by (bit_vector);
}

/// The register tells apart two sequences of one length that differ in
/// exactly one place among their first `upto` bytes.
proof fn lemma_register_detects(a: Seq<u8>, b: Seq<u8>, at: int, upto: int)
    requires
        a.len() == b.len(),
        0 <= at < a.len(),
        0 <= upto <= a.len(),
        a[at] != b[at],
        forall|j: int| 0 <= j < a.len() && j != at ==> a[j] == b[j],
    ensures
        at < upto ==> crc_register(a.take(upto)) != crc_register(b.take(upto)),
        upto <= at ==> crc_register(a.take(upto)) == crc_register(b.take(upto)),
    decreases upto,
{
    if upto > 0 {
        lemma_register_detects(a, b, at, upto - 1);
        let pa = a.take(upto);
        let pb = b.take(upto);
        assert(pa.drop_last() == a.take(upto - 1));
        assert(pb.drop_last() == b.take(upto - 1));
        assert(pa.last() == a[upto - 1]);
        assert(pb.last() == b[upto - 1]);
        if crc_register(pa) == crc_register(pb) {
            lemma_update_injective(
                crc_register(a.take(upto - 1)),
                a[upto - 1],
                crc_register(b.take(upto - 1)),
                b[upto - 1],
            );
        }
    } else {
        assert(a.take(0) == b.take(0));
    }
}

/// Error detection: two byte sequences of the same length that differ in
/// exactly one byte have different checksums.
pub proof fn lemma_single_byte_change_detected(a: Seq<u8>, b: Seq<u8>, at: int)
    requires
        a.len() == b.len(),
        0 <= at < a.len(),
        a[at] != b[at],
        forall|j: int| 0 <= j < a.len() && j != at ==> a[j] == b[j],
    ensures
        checksum(a) != checksum(b),
{
    lemma_register_detects(a, b, at, a.len() as int);
    assert(a.take(a.len() as int) == a);
    assert(b.take(b.len() as int) == b);
    let ra = crc_register(a);
    let rb = crc_register(b);
    assert(ra != rb ==> (ra ^ 0xFFFF_FFFFu32) != (rb ^ 0xFFFF_FFFFu32)) by (bit_vector);
}

/// Error detection, bit by bit: flipping any single bit of a byte sequence
/// changes its checksum.
pub proof fn lemma_single_bit_flip_detected(bytes: Seq<u8>, at: int, bit: u8)
    requires
        0 <= at < bytes.len(),
        bit < 8,
    ensures
        checksum(bytes.update(at, bytes[at] ^ (1u8 << bit))) != checksum(bytes),
{
    let old_byte = bytes[at];
    assert(bit < 8 ==> (old_byte ^ (1u8 << bit)) != old_byte) by (bit_vector);
    lemma_single_byte_change_detected(bytes.update(at, old_byte ^ (1u8 << bit)), bytes, at);
}

} // verus!
