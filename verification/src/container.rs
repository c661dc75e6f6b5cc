//! The container format: how a patch is laid out in bytes, and how bytes
//! are read back as a patch.
//!
//! In order: the four bytes `UPS1`; the length of the source and the length
//! of the target, each as a variable-length number; the change records, each
//! an offset as a variable-length number, the XOR bytes, and a zero byte;
//! then the checksums of source, target and patch, four bytes each, lowest
//! byte first. The checksum of the patch covers every byte before it.
use crate::crc32::{checksum, lemma_single_byte_change_detected};
use crate::ups_error::LoadError;
use crate::varint::{
    lemma_varint_at_encoded, lemma_varint_bytes_shape, lemma_varint_read_canonical, varint_at,
    varint_bytes, varint_read,
};
use vstd::prelude::*;

verus! {

/// One change: the offset at which it starts, and its XOR bytes.
pub type Change = (u64, Seq<u8>);

/// What a patch holds, as plain mathematical values.
pub struct PatchModel {
    pub source_file_size: u64,
    pub target_file_size: u64,
    pub changes: Seq<Change>,
    pub source_crc32: u32,
    pub target_crc32: u32,
    pub patch_crc32: u32,
}

/// The four bytes every patch starts with: `UPS1`.
pub open spec fn magic() -> Seq<u8> {
    seq![0x55u8, 0x50u8, 0x53u8, 0x31u8]
}

/// The four bytes of `value`, lowest first.
pub open spec fn le_bytes(value: u32) -> Seq<u8> {
    seq![
        (value % 256) as u8,
        (value / 256 % 256) as u8,
        (value / 65536 % 256) as u8,
        (value / 16777216) as u8,
    ]
}

/// The number whose four bytes, lowest first, `bytes` start with.
pub open spec fn le_value(bytes: Seq<u8>) -> u32
    recommends
        bytes.len() >= 4,
{
    (bytes[0] + bytes[1] * 256 + bytes[2] * 65536 + bytes[3] * 16777216) as u32
}

/// The bytes of one change record: offset, XOR bytes, terminator.
pub open spec fn record_bytes(change: Change) -> Seq<u8> {
    varint_bytes(change.0 as nat) + change.1 + seq![0u8]
}

/// The bytes of the change records, one after the other.
pub open spec fn records_bytes(changes: Seq<Change>) -> Seq<u8>
    decreases changes.len(),
{
    if changes.len() == 0 {
        Seq::empty()
    } else {
        record_bytes(changes[0]) + records_bytes(changes.skip(1))
    }
}

/// The serialized patch without the checksum of the patch itself: the bytes
/// which that checksum covers.
pub open spec fn body_bytes(
    source_file_size: u64,
    target_file_size: u64,
    changes: Seq<Change>,
    source_crc32: u32,
    target_crc32: u32,
) -> Seq<u8> {
    magic() + varint_bytes(source_file_size as nat) + varint_bytes(target_file_size as nat)
        + records_bytes(changes) + le_bytes(source_crc32) + le_bytes(target_crc32)
}

/// The bytes that the checksum of the patch `patch` covers.
pub open spec fn patch_body(patch: PatchModel) -> Seq<u8> {
    body_bytes(
        patch.source_file_size,
        patch.target_file_size,
        patch.changes,
        patch.source_crc32,
        patch.target_crc32,
    )
}

/// The serialized patch.
pub open spec fn container_bytes(patch: PatchModel) -> Seq<u8> {
    patch_body(patch) + le_bytes(patch.patch_crc32)
}

/// No XOR byte of any change is zero. The format relies on it: a zero byte
/// ends a record.
pub open spec fn payloads_nonzero(changes: Seq<Change>) -> bool {
    forall|i: int, j: int|
        0 <= i < changes.len() && 0 <= j < changes[i].1.len() ==> #[trigger] changes[i].1[j] != 0
}

/// The checksum of the patch that `patch` carries is that of its serialized body.
pub open spec fn sealed(patch: PatchModel) -> bool {
    patch.patch_crc32 == checksum(patch_body(patch))
}

/// The position of the first zero byte of `bytes` from `from` on and
/// before `end`.
pub open spec fn payload_end(bytes: Seq<u8>, from: int, end: int) -> Option<int>
    decreases end - from,
{
    if from < 0 || from >= end || end > bytes.len() {
        None
    } else if bytes[from] == 0 {
        Some(from)
    } else {
        payload_end(bytes, from + 1, end)
    }
}

/// Reads the change record that starts at `pos` and ends before `end`: the
/// change, and the position just behind its terminator.
pub open spec fn read_record(bytes: Seq<u8>, pos: int, end: int) -> Option<(Change, int)> {
    match varint_at(bytes, pos) {
        Some((offset, from)) => match payload_end(bytes, from, end) {
            Some(zero) => Some(((offset, bytes.subrange(from, zero)), zero + 1)),
            None => None,
        },
        None => None,
    }
}

/// Reads change records from `pos` on, which must fill the bytes up to
/// `end` exactly.
pub open spec fn read_records(bytes: Seq<u8>, pos: int, end: int) -> Option<Seq<Change>>
    decreases end - pos,
{
    if pos >= end {
        if pos == end {
            Some(Seq::empty())
        } else {
            None
        }
    } else {
        match read_record(bytes, pos, end) {
            Some((change, next)) => if pos < next <= end {
                match read_records(bytes, next, end) {
                    Some(rest) => Some(seq![change] + rest),
                    None => None,
                }
            } else {
                None
            },
            None => None,
        }
    }
}

/// Whether `bytes` start with the header of a patch.
pub open spec fn has_magic(bytes: Seq<u8>) -> bool {
    bytes.len() >= 4 && bytes.take(4) == magic()
}

/// Whether the last four bytes of `bytes` hold the checksum of the bytes
/// before them.
pub open spec fn checksum_matches(bytes: Seq<u8>) -> bool
    recommends
        bytes.len() >= 4,
{
    checksum(bytes.take(bytes.len() - 4)) == le_value(bytes.skip(bytes.len() - 4))
}

/// Reads what stands between the header and the checksum of the patch: the
/// two lengths, the change records, and the checksums of source and target.
/// `None` where the bytes are not laid out so.
pub open spec fn read_body(bytes: Seq<u8>) -> Option<PatchModel> {
    let end = bytes.len() - 12;
    if bytes.len() < 16 {
        None
    } else {
        match varint_at(bytes, 4) {
            Some((source_file_size, at_target)) => match varint_at(bytes, at_target) {
                Some((target_file_size, at_records)) => match read_records(
                    bytes,
                    at_records,
                    end,
                ) {
                    Some(changes) => Some(
                        PatchModel {
                            source_file_size,
                            target_file_size,
                            changes,
                            source_crc32: le_value(bytes.subrange(end, end + 4)),
                            target_crc32: le_value(bytes.subrange(end + 4, end + 8)),
                            patch_crc32: le_value(bytes.subrange(end + 8, end + 12)),
                        },
                    ),
                    None => None,
                },
                None => None,
            },
            None => None,
        }
    }
}

/// Reads a serialized patch. Bytes that do not start with the header are
/// no patch at all; bytes whose trailing checksum does not match are
/// corrupted; bytes that pass both and still are not laid out as a patch
/// are refused as unknown.
pub open spec fn parse(bytes: Seq<u8>) -> Result<PatchModel, LoadError> {
    if !has_magic(bytes) {
        Err(LoadError::IsNotUpsFile)
    } else if !checksum_matches(bytes) {
        Err(LoadError::IsCorrupted)
    } else {
        match read_body(bytes) {
            Some(patch) => Ok(patch),
            None => Err(LoadError::Unknown),
        }
    }
}

/// Four bytes, lowest first, read back give the number.
pub proof fn lemma_le_roundtrip(value: u32)
    ensures
        le_bytes(value).len() == 4,
        le_value(le_bytes(value)) == value,
{
}

/// Four bytes are the four bytes of the number they are read as.
pub proof fn lemma_le_canonical(bytes: Seq<u8>)
    requires
        bytes.len() == 4,
    ensures
        le_bytes(le_value(bytes)) == bytes,
{
    assert(le_bytes(le_value(bytes)) =~= bytes);
}

/// A payload without a zero byte, followed by a zero byte, ends at that byte.
pub proof fn lemma_payload_end(bytes: Seq<u8>, from: int, zero: int, end: int)
    requires
        0 <= from <= zero < end <= bytes.len(),
        bytes[zero] == 0,
        forall|j: int| from <= j < zero ==> bytes[j] != 0,
    ensures
        payload_end(bytes, from, end) == Some(zero),
    decreases zero - from,
{
    if from < zero {
        lemma_payload_end(bytes, from + 1, zero, end);
    }
}

/// The end of a payload is a zero byte, and no byte before it is zero.
pub proof fn lemma_payload_end_shape(bytes: Seq<u8>, from: int, end: int)
    requires
        payload_end(bytes, from, end) is Some,
    ensures
        0 <= from <= payload_end(bytes, from, end).unwrap() < end <= bytes.len(),
        bytes[payload_end(bytes, from, end).unwrap()] == 0,
        forall|j: int| from <= j < payload_end(bytes, from, end).unwrap() ==> bytes[j] != 0,
    decreases end - from,
{
    if bytes[from] != 0 {
        lemma_payload_end_shape(bytes, from + 1, end);
    }
}

/// The bytes of change records whose payloads hold no zero byte are read
/// back as those changes, wherever they stand.
pub proof fn lemma_read_records_written(bytes: Seq<u8>, pos: int, end: int, changes: Seq<Change>)
    requires
        0 <= pos <= end <= bytes.len(),
        bytes.subrange(pos, end) == records_bytes(changes),
        payloads_nonzero(changes),
    ensures
        read_records(bytes, pos, end) == Some(changes),
    decreases changes.len(),
{
    if changes.len() == 0 {
        assert(bytes.subrange(pos, end).len() == 0);
        assert(changes == Seq::<Change>::empty());
    } else {
        let first = changes[0];
        let rest = changes.skip(1);
        let number = varint_bytes(first.0 as nat);
        let from = pos + number.len();
        let zero = from + first.1.len();
        let next = zero + 1;
        let region = bytes.subrange(pos, end);
        assert(region == number + first.1 + seq![0u8] + records_bytes(rest));
        assert(region.len() == number.len() + first.1.len() + 1 + records_bytes(rest).len());
        // the offset
        assert(bytes.subrange(pos, from) == number) by {
            assert forall|k: int| 0 <= k < from - pos implies bytes.subrange(pos, from)[k]
                == number[k] by {
                assert(bytes[pos + k] == region[k]);
            }
        }
        lemma_varint_at_written(bytes, pos, first.0);
        // the payload
        assert(bytes[zero] == 0) by {
            assert(bytes[zero] == region[zero - pos]);
        }
        assert forall|j: int| from <= j < zero implies bytes[j] != 0 by {
            assert(bytes[j] == region[j - pos]);
            assert(region[j - pos] == first.1[j - from]);
        }
        lemma_payload_end(bytes, from, zero, end);
        assert(bytes.subrange(from, zero) == first.1) by {
            assert forall|k: int| 0 <= k < zero - from implies bytes.subrange(from, zero)[k]
                == first.1[k] by {
                assert(bytes[from + k] == region[from + k - pos]);
            }
        }
        assert(read_record(bytes, pos, end) == Some(((first.0, first.1), next)));
        // the records behind it
        assert(bytes.subrange(next, end) == records_bytes(rest)) by {
            assert forall|k: int| 0 <= k < end - next implies bytes.subrange(next, end)[k]
                == records_bytes(rest)[k] by {
                assert(bytes[next + k] == region[next + k - pos]);
            }
        }
        assert forall|i: int, j: int| 0 <= i < rest.len() && 0 <= j < rest[i].1.len() implies
            #[trigger] rest[i].1[j] != 0 by {
            assert(rest[i] == changes[i + 1]);
            assert(changes[i + 1].1[j] != 0);
        }
        lemma_read_records_written(bytes, next, end, rest);
        assert(seq![first] + rest == changes);
    }
}

/// Where the parts of a serialized patch stand in it.
proof fn lemma_container_layout(patch: PatchModel)
    ensures
        ({
            let bytes = container_bytes(patch);
            let source = varint_bytes(patch.source_file_size as nat);
            let target = varint_bytes(patch.target_file_size as nat);
            let records = records_bytes(patch.changes);
            let at_target: int = 4 + source.len() as int;
            let at_records: int = at_target + target.len() as int;
            let end: int = at_records + records.len() as int;
            &&& bytes.len() == end + 12
            &&& has_magic(bytes)
            &&& bytes.take(bytes.len() - 4) == patch_body(patch)
            &&& bytes.skip(bytes.len() - 4) == le_bytes(patch.patch_crc32)
            &&& bytes.subrange(end, end + 4) == le_bytes(patch.source_crc32)
            &&& bytes.subrange(end + 4, end + 8) == le_bytes(patch.target_crc32)
            &&& bytes.subrange(end + 8, end + 12) == le_bytes(patch.patch_crc32)
            &&& bytes.subrange(at_records, end) == records
            &&& bytes.subrange(4, at_target) == source
            &&& bytes.subrange(at_target, at_records) == target
        }),
{
    let bytes = container_bytes(patch);
    let source = varint_bytes(patch.source_file_size as nat);
    let target = varint_bytes(patch.target_file_size as nat);
    let records = records_bytes(patch.changes);
    let at_target: int = 4 + source.len() as int;
    let at_records: int = at_target + target.len() as int;
    let end: int = at_records + records.len() as int;
    assert(bytes.len() == end + 12);
    assert(bytes.take(4) == magic());
    assert(bytes.take(bytes.len() - 4) == patch_body(patch));
    assert(bytes.skip(bytes.len() - 4) == le_bytes(patch.patch_crc32));
    assert(bytes.subrange(end, end + 4) == le_bytes(patch.source_crc32));
    assert(bytes.subrange(end + 4, end + 8) == le_bytes(patch.target_crc32));
    assert(bytes.subrange(end + 8, end + 12) == le_bytes(patch.patch_crc32));
    assert(bytes.subrange(at_records, end) == records);
    assert(bytes.subrange(4, at_target) == source);
    assert(bytes.subrange(at_target, at_records) == target);
}

/// An encoded number that stands at `pos` in `bytes` is read there.
pub proof fn lemma_varint_at_written(bytes: Seq<u8>, pos: int, value: u64)
    requires
        0 <= pos,
        pos + varint_bytes(value as nat).len() <= bytes.len(),
        bytes.subrange(pos, pos + varint_bytes(value as nat).len()) == varint_bytes(value as nat),
    ensures
        varint_at(bytes, pos) == Some((value, pos + varint_bytes(value as nat).len())),
{
    let number = varint_bytes(value as nat);
    let behind = pos + number.len();
    lemma_varint_at_encoded(bytes.take(pos), value, bytes.skip(behind));
    let joined = bytes.take(pos) + number + bytes.skip(behind);
    assert(joined.len() == bytes.len());
    assert forall|k: int| 0 <= k < bytes.len() implies joined[k] == bytes[k] by {
        if pos <= k < behind {
            assert(bytes[k] == bytes.subrange(pos, behind)[k - pos]);
        }
    }
    assert(bytes == joined);
}

/// Serializing then reading gives the patch back: a patch whose payloads
/// hold no zero byte, and which carries the checksum of its own serialized
/// body, is read back from its bytes with the same lengths, changes and
/// checksums.
pub proof fn lemma_parse_serialized(patch: PatchModel)
    requires
        payloads_nonzero(patch.changes),
        sealed(patch),
    ensures
        parse(container_bytes(patch)) == Ok::<PatchModel, LoadError>(patch),
{
    let bytes = container_bytes(patch);
    let source = varint_bytes(patch.source_file_size as nat);
    let target = varint_bytes(patch.target_file_size as nat);
    let records = records_bytes(patch.changes);
    let at_target: int = 4 + source.len() as int;
    let at_records: int = at_target + target.len() as int;
    let end: int = at_records + records.len() as int;
    lemma_container_layout(patch);
    lemma_le_roundtrip(patch.source_crc32);
    lemma_le_roundtrip(patch.target_crc32);
    lemma_le_roundtrip(patch.patch_crc32);
    lemma_varint_at_written(bytes, 4, patch.source_file_size);
    lemma_varint_at_written(bytes, at_target, patch.target_file_size);
    lemma_read_records_written(bytes, at_records, end, patch.changes);
    lemma_varint_bytes_shape(patch.source_file_size as nat);
    lemma_varint_bytes_shape(patch.target_file_size as nat);
    assert(read_body(bytes) == Some(patch));
}

/// An encoded number that is read at `pos` stands there as its encoding.
pub proof fn lemma_varint_at_canonical(bytes: Seq<u8>, pos: int)
    requires
        varint_at(bytes, pos) is Some,
    ensures
        pos < varint_at(bytes, pos).unwrap().1 <= bytes.len(),
        bytes.subrange(pos, varint_at(bytes, pos).unwrap().1) == varint_bytes(
            varint_at(bytes, pos).unwrap().0 as nat,
        ),
{
    let rest = bytes.skip(pos);
    lemma_varint_read_canonical(rest);
    crate::varint::lemma_varint_read_shape(rest);
    let taken = varint_read(rest).unwrap().1;
    assert(rest.take(taken as int) == bytes.subrange(pos, pos + taken));
}

/// Change records that are read between `pos` and `end` stand there as
/// their bytes, and none of their XOR bytes is zero.
pub proof fn lemma_read_records_canonical(bytes: Seq<u8>, pos: int, end: int)
    requires
        0 <= pos,
        end <= bytes.len(),
        read_records(bytes, pos, end) is Some,
    ensures
        pos <= end,
        records_bytes(read_records(bytes, pos, end).unwrap()) == bytes.subrange(pos, end),
        payloads_nonzero(read_records(bytes, pos, end).unwrap()),
    decreases end - pos,
{
    let changes = read_records(bytes, pos, end).unwrap();
    if pos >= end {
        assert(bytes.subrange(pos, end) == Seq::<u8>::empty());
    } else {
        let (change, next) = read_record(bytes, pos, end).unwrap();
        let (offset, from) = varint_at(bytes, pos).unwrap();
        let zero = payload_end(bytes, from, end).unwrap();
        lemma_varint_at_canonical(bytes, pos);
        lemma_payload_end_shape(bytes, from, end);
        lemma_read_records_canonical(bytes, next, end);
        let rest = read_records(bytes, next, end).unwrap();
        assert(changes == seq![change] + rest);
        assert(changes[0] == change);
        assert(changes.skip(1) == rest);
        assert(bytes.subrange(pos, end) == bytes.subrange(pos, from) + bytes.subrange(from, zero)
            + seq![0u8] + bytes.subrange(next, end));
        assert forall|i: int, j: int| 0 <= i < changes.len() && 0 <= j < changes[i].1.len() implies
            #[trigger] changes[i].1[j] != 0 by {
            if i == 0 {
                assert(change.1[j] == bytes[from + j]);
            } else {
                assert(changes[i] == rest[i - 1]);
                assert(rest[i - 1].1[j] != 0);
            }
        }
    }
}

/// Reading then serializing gives the bytes back: bytes that are read as
/// a patch are exactly the serialized form of that patch. So a patch that
/// was read holds no zero XOR byte, and carries the checksum of its own
/// serialized body.
pub proof fn lemma_serialize_parsed(bytes: Seq<u8>)
    requires
        parse(bytes) is Ok,
    ensures
        container_bytes(parse(bytes).unwrap()) == bytes,
        payloads_nonzero(parse(bytes).unwrap().changes),
        sealed(parse(bytes).unwrap()),
{
    let patch = parse(bytes).unwrap();
    let end = bytes.len() - 12;
    let (source_file_size, at_target) = varint_at(bytes, 4).unwrap();
    let (target_file_size, at_records) = varint_at(bytes, at_target).unwrap();
    lemma_varint_at_canonical(bytes, 4);
    lemma_varint_at_canonical(bytes, at_target);
    lemma_read_records_canonical(bytes, at_records, end);
    lemma_le_canonical(bytes.subrange(end, end + 4));
    lemma_le_canonical(bytes.subrange(end + 4, end + 8));
    lemma_le_canonical(bytes.subrange(end + 8, end + 12));
    let body = bytes.take(4) + bytes.subrange(4, at_target) + bytes.subrange(at_target, at_records)
        + bytes.subrange(at_records, end) + bytes.subrange(end, end + 4) + bytes.subrange(
        end + 4,
        end + 8,
    );
    assert(patch_body(patch) == body);
    assert(body == bytes.take(bytes.len() - 4));
    assert(bytes.skip(bytes.len() - 4) == bytes.subrange(end + 8, end + 12));
    assert(body + bytes.subrange(end + 8, end + 12) == bytes);
}

/// Damage is seen: where bytes are read as a patch, the same bytes with
/// one byte behind the header changed are refused as corrupted.
pub proof fn lemma_changed_byte_is_corrupted(bytes: Seq<u8>, changed: Seq<u8>, at: int)
    requires
        parse(bytes) is Ok,
        changed.len() == bytes.len(),
        4 <= at < bytes.len(),
        changed[at] != bytes[at],
        forall|j: int| 0 <= j < bytes.len() && j != at ==> changed[j] == bytes[j],
    ensures
        parse(changed) == Err::<PatchModel, LoadError>(LoadError::IsCorrupted),
{
    let body_end = bytes.len() - 4;
    assert(changed.take(4) == bytes.take(4));
    if at < body_end {
        lemma_single_byte_change_detected(changed.take(body_end), bytes.take(body_end), at);
        assert(changed.skip(body_end) == bytes.skip(body_end));
    } else {
        assert(changed.take(body_end) == bytes.take(body_end));
        let a = changed.skip(body_end);
        let b = bytes.skip(body_end);
        assert(a[at - body_end] != b[at - body_end]);
        assert(forall|j: int| 0 <= j < 4 && j != at - body_end ==> a[j] == b[j]);
        assert(le_value(a) != le_value(b));
    }
}

} // verus!
