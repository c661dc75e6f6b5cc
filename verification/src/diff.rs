//! What the differences between two byte sequences are, and what applying
//! them to the first gives.
//!
//! Source and target are compared position by position, up to the length of
//! the longer; where one has ended, it counts as zero. Each maximal run of
//! positions at which they differ is one change: the position at which the
//! run starts, and the XOR of the two bytes at each of its positions.
use crate::container::{
    body_bytes, container_bytes, lemma_parse_serialized, parse, payloads_nonzero, sealed, Change,
    PatchModel,
};
use crate::crc32::{checksum, lemma_single_byte_change_detected};
use crate::ups_error::{ApplyError, LoadError};
use vstd::prelude::*;

verus! {

/// The byte at position `i`, zero beyond the end.
pub open spec fn byte_at(bytes: Seq<u8>, i: int) -> u8 {
    if 0 <= i < bytes.len() {
        bytes[i]
    } else {
        0
    }
}

/// Whether source and target differ at position `i`.
pub open spec fn differ(source: Seq<u8>, target: Seq<u8>, i: int) -> bool {
    byte_at(source, i) != byte_at(target, i)
}

/// The length of the longer of the two.
pub open spec fn span(source: Seq<u8>, target: Seq<u8>) -> int {
    if source.len() > target.len() {
        source.len() as int
    } else {
        target.len() as int
    }
}

/// Where the run of differing positions that starts at `from` ends: the
/// first position from `from` on at which the two agree, or the span.
pub open spec fn run_end(source: Seq<u8>, target: Seq<u8>, from: int) -> int
    decreases span(source, target) - from,
{
    if from < span(source, target) && differ(source, target, from) {
        run_end(source, target, from + 1)
    } else {
        from
    }
}

/// The XOR of source and target at the positions from `from` up to `to`.
pub open spec fn xor_run(source: Seq<u8>, target: Seq<u8>, from: int, to: int) -> Seq<u8> {
    Seq::new((to - from) as nat, |k: int| byte_at(source, from + k) ^ byte_at(target, from + k))
}

/// The changes between source and target from position `from` on: one for
/// each maximal run of differing positions, in order.
pub open spec fn diff_from(source: Seq<u8>, target: Seq<u8>, from: int) -> Seq<Change>
    recommends
        span(source, target) <= u64::MAX,
    decreases span(source, target) - from,
{
    if from < 0 || from >= span(source, target) {
        Seq::empty()
    } else if !differ(source, target, from) {
        diff_from(source, target, from + 1)
    } else {
        let to = run_end(source, target, from);
        if from < to <= span(source, target) {
            seq![(from as u64, xor_run(source, target, from, to))] + diff_from(source, target, to)
        } else {
            Seq::empty()
        }
    }
}

/// The changes between source and target.
pub open spec fn diff(source: Seq<u8>, target: Seq<u8>) -> Seq<Change>
    recommends
        span(source, target) <= u64::MAX,
{
    diff_from(source, target, 0)
}

/// The changes stand in the order of their offsets, none is empty, and
/// between the end of one and the start of the next lies at least one position.
pub open spec fn ordered(changes: Seq<Change>) -> bool {
    &&& forall|i: int| 0 <= i < changes.len() ==> (#[trigger] changes[i]).1.len() > 0
    &&& forall|i: int, j: int|
        0 <= i < j < changes.len() ==> (#[trigger] changes[i]).0 + changes[i].1.len() < (
        #[trigger] changes[j]).0
}

/// `output`, continued with the bytes of the source up to position `upto`.
pub open spec fn copy_to(output: Seq<u8>, source: Seq<u8>, upto: int) -> Seq<u8> {
    if output.len() >= upto {
        output
    } else {
        output + Seq::new(
            (upto - output.len()) as nat,
            |k: int| byte_at(source, output.len() + k),
        )
    }
}

/// `output` after one change: continued with the source up to the offset
/// of the change, then with the source XORed with the bytes of the change.
pub open spec fn apply_change(output: Seq<u8>, change: Change, source: Seq<u8>) -> Seq<u8> {
    let copied = copy_to(output, source, change.0 as int);
    copied + Seq::new(change.1.len(), |k: int| byte_at(source, copied.len() + k) ^ change.1[k])
}

/// `output` after the changes, one after the other.
pub open spec fn apply_changes(output: Seq<u8>, changes: Seq<Change>, source: Seq<u8>) -> Seq<u8>
    decreases changes.len(),
{
    if changes.len() == 0 {
        output
    } else {
        apply_changes(apply_change(output, changes[0], source), changes.skip(1), source)
    }
}

/// What the changes make of the source, at the length `target_file_size`:
/// the changes are applied, the rest is taken from the source, and what is
/// beyond the length is cut off.
pub open spec fn patched(changes: Seq<Change>, target_file_size: u64, source: Seq<u8>) -> Seq<u8> {
    copy_to(apply_changes(Seq::empty(), changes, source), source, target_file_size as int).take(
        target_file_size as int,
    )
}

/// The patch that turns `source` into `target`: their lengths, the
/// changes between them, their checksums, and the checksum of the
/// serialized patch without that checksum itself.
pub open spec fn created(source: Seq<u8>, target: Seq<u8>) -> PatchModel
    recommends
        span(source, target) <= u64::MAX,
{
    PatchModel {
        source_file_size: source.len() as u64,
        target_file_size: target.len() as u64,
        changes: diff(source, target),
        source_crc32: checksum(source),
        target_crc32: checksum(target),
        patch_crc32: checksum(
            body_bytes(
                source.len() as u64,
                target.len() as u64,
                diff(source, target),
                checksum(source),
                checksum(target),
            ),
        ),
    }
}

/// What applying `patch` to `source` gives, with both checks: the source
/// must have the checksum that the patch expects, and so must the result.
pub open spec fn applied(patch: PatchModel, source: Seq<u8>) -> Result<Seq<u8>, ApplyError> {
    let target = patched(patch.changes, patch.target_file_size, source);
    if checksum(source) != patch.source_crc32 {
        Err(ApplyError::SourceMismatch)
    } else if checksum(target) != patch.target_crc32 {
        Err(ApplyError::TargetMismatch)
    } else {
        Ok(target)
    }
}

/// A run that starts where the two differ is not empty, holds only
/// positions at which they differ, and ends at the span or where they agree.
pub proof fn lemma_run_end(source: Seq<u8>, target: Seq<u8>, from: int)
    requires
        0 <= from <= span(source, target),
    ensures
        from <= run_end(source, target, from) <= span(source, target),
        from < span(source, target) && differ(source, target, from) ==> from < run_end(
            source,
            target,
            from,
        ),
        forall|k: int| from <= k < run_end(source, target, from) ==> differ(source, target, k),
        !differ(source, target, run_end(source, target, from)),
    decreases span(source, target) - from,
{
    if from < span(source, target) && differ(source, target, from) {
        lemma_run_end(source, target, from + 1);
    }
}

/// No XOR byte of a difference is zero.
pub proof fn lemma_diff_payloads_nonzero(source: Seq<u8>, target: Seq<u8>, from: int)
    ensures
        payloads_nonzero(diff_from(source, target, from)),
    decreases span(source, target) - from,
{
    if from < 0 || from >= span(source, target) {
    } else if !differ(source, target, from) {
        lemma_diff_payloads_nonzero(source, target, from + 1);
    } else {
        let to = run_end(source, target, from);
        lemma_run_end(source, target, from);
        lemma_diff_payloads_nonzero(source, target, to);
        let first = (from as u64, xor_run(source, target, from, to));
        let rest = diff_from(source, target, to);
        let all = diff_from(source, target, from);
        assert(all == seq![first] + rest);
        assert forall|i: int, j: int| 0 <= i < all.len() && 0 <= j < all[i].1.len() implies
            #[trigger] all[i].1[j] != 0 by {
            if i == 0 {
                let a = byte_at(source, from + j);
                let b = byte_at(target, from + j);
                assert(differ(source, target, from + j));
                assert(a != b ==> a ^ b != 0) by (bit_vector);
            } else {
                assert(all[i] == rest[i - 1]);
                assert(rest[i - 1].1[j] != 0);
            }
        }
    }
}

/// The changes of a difference from `from` on start at `from` or later,
/// and stand in order.
pub proof fn lemma_diff_ordered(source: Seq<u8>, target: Seq<u8>, from: int)
    requires
        0 <= from,
        span(source, target) <= u64::MAX,
    ensures
        ordered(diff_from(source, target, from)),
        forall|i: int|
            0 <= i < diff_from(source, target, from).len() ==> from <= (#[trigger] diff_from(
                source,
                target,
                from,
            )[i]).0,
    decreases span(source, target) - from,
{
    if from >= span(source, target) {
    } else if !differ(source, target, from) {
        lemma_diff_ordered(source, target, from + 1);
    } else {
        let to = run_end(source, target, from);
        lemma_run_end(source, target, from);
        lemma_diff_ordered(source, target, to);
        let first = (from as u64, xor_run(source, target, from, to));
        let rest = diff_from(source, target, to);
        let all = diff_from(source, target, from);
        assert(all == seq![first] + rest);
        if to < span(source, target) {
            lemma_diff_ordered(source, target, to + 1);
            assert(rest == diff_from(source, target, to + 1));
        }
        assert forall|i: int| 0 <= i < all.len() implies (#[trigger] all[i]).1.len() > 0 by {
            if i > 0 {
                assert(all[i] == rest[i - 1]);
            }
        }
        assert forall|i: int, j: int| 0 <= i < j < all.len() implies (#[trigger] all[i]).0
            + all[i].1.len() < (#[trigger] all[j]).0 by {
            assert(all[j] == rest[j - 1]);
            if i > 0 {
                assert(all[i] == rest[i - 1]);
            }
        }
        assert forall|i: int| 0 <= i < all.len() implies from <= (#[trigger] all[i]).0 by {
            if i > 0 {
                assert(all[i] == rest[i - 1]);
            }
        }
    }
}

/// Applying the rest of a difference to a start of the target gives a
/// longer start of the target, behind which source and target agree.
proof fn lemma_apply_diff(source: Seq<u8>, target: Seq<u8>, output: Seq<u8>, from: int)
    requires
        output.len() <= from,
        0 <= from,
        span(source, target) <= u64::MAX,
        forall|k: int| 0 <= k < output.len() ==> output[k] == byte_at(target, k),
        forall|k: int| output.len() <= k < from ==> !differ(source, target, k),
    ensures
        ({
            let result = apply_changes(output, diff_from(source, target, from), source);
            &&& forall|k: int| 0 <= k < result.len() ==> result[k] == byte_at(target, k)
            &&& forall|k: int| result.len() <= k ==> !differ(source, target, k)
        }),
    decreases span(source, target) - from,
{
    if from >= span(source, target) {
    } else if !differ(source, target, from) {
        lemma_apply_diff(source, target, output, from + 1);
    } else {
        let to = run_end(source, target, from);
        lemma_run_end(source, target, from);
        let first = (from as u64, xor_run(source, target, from, to));
        let rest = diff_from(source, target, to);
        let all = diff_from(source, target, from);
        assert(all == seq![first] + rest);
        assert(all[0] == first);
        assert(all.skip(1) == rest);
        let copied = copy_to(output, source, from);
        let next = apply_change(output, first, source);
        assert(copied.len() == from);
        assert(next.len() == to);
        assert forall|k: int| 0 <= k < next.len() implies next[k] == byte_at(target, k) by {
            if k < output.len() {
            } else if k < from {
                assert(!differ(source, target, k));
            } else {
                let a = byte_at(source, k);
                let b = byte_at(target, k);
                assert(first.1[k - from] == a ^ b);
                assert(next[k] == a ^ first.1[k - from]);
                assert(a ^ (a ^ b) == b) by (bit_vector);
            }
        }
        lemma_apply_diff(source, target, next, to);
    }
}

/// Applying the difference between source and target to the source gives
/// the target.
pub proof fn lemma_patched_diff(source: Seq<u8>, target: Seq<u8>)
    requires
        source.len() <= u64::MAX,
        target.len() <= u64::MAX,
    ensures
        patched(diff(source, target), target.len() as u64, source) == target,
{
    lemma_apply_diff(source, target, Seq::empty(), 0);
    let written = apply_changes(Seq::empty(), diff(source, target), source);
    let full = copy_to(written, source, target.len() as int);
    let result = full.take(target.len() as int);
    assert(result.len() == target.len());
    assert forall|k: int| 0 <= k < target.len() implies result[k] == target[k] by {
        if k < written.len() {
            assert(written[k] == byte_at(target, k));
        } else {
            assert(!differ(source, target, k));
        }
    }
    assert(result == target);
}

/// Creating then applying gives the target: the patch made from a source
/// and a target, applied to that source, passes both checks and gives that
/// target.
pub proof fn lemma_apply_created(source: Seq<u8>, target: Seq<u8>)
    requires
        source.len() <= u64::MAX,
        target.len() <= u64::MAX,
    ensures
        applied(created(source, target), source) == Ok::<Seq<u8>, ApplyError>(target),
{
    lemma_patched_diff(source, target);
}

/// A created patch keeps the rules of the format: no XOR byte is zero,
/// the changes stand in order, and the checksum of the patch is that of its
/// serialized body.
pub proof fn lemma_created_well_formed(source: Seq<u8>, target: Seq<u8>)
    requires
        source.len() <= u64::MAX,
        target.len() <= u64::MAX,
    ensures
        payloads_nonzero(created(source, target).changes),
        ordered(created(source, target).changes),
        sealed(created(source, target)),
{
    lemma_diff_payloads_nonzero(source, target, 0);
    lemma_diff_ordered(source, target, 0);
}

/// A created patch, serialized and read back, is the same patch.
pub proof fn lemma_parse_created(source: Seq<u8>, target: Seq<u8>)
    requires
        source.len() <= u64::MAX,
        target.len() <= u64::MAX,
    ensures
        parse(container_bytes(created(source, target))) == Ok::<PatchModel, LoadError>(
            created(source, target),
        ),
{
    lemma_created_well_formed(source, target);
    lemma_parse_serialized(created(source, target));
}

/// A wrong source is seen: where a patch accepts a source, it refuses
/// the same source with one byte changed.
pub proof fn lemma_changed_source_is_refused(
    patch: PatchModel,
    source: Seq<u8>,
    changed: Seq<u8>,
    at: int,
)
    requires
        checksum(source) == patch.source_crc32,
        changed.len() == source.len(),
        0 <= at < source.len(),
        changed[at] != source[at],
        forall|j: int| 0 <= j < source.len() && j != at ==> changed[j] == source[j],
    ensures
        applied(patch, changed) == Err::<Seq<u8>, ApplyError>(ApplyError::SourceMismatch),
{
    lemma_single_byte_change_detected(changed, source, at);
}

} // verus!
