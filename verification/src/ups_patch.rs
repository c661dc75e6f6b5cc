use crate::container::{
    body_bytes, container_bytes, le_bytes, le_value, lemma_parse_serialized,
    lemma_serialize_parsed, magic, parse, payload_end, payloads_nonzero, read_record,
    read_records, record_bytes, records_bytes, sealed, Change, PatchModel,
};
use crate::crc32;
use crate::crc32::checksum;
use crate::diff::{
    applied, apply_change, apply_changes, byte_at, copy_to, created, diff, diff_from,
    lemma_apply_created, lemma_created_well_formed, lemma_run_end, ordered, patched, run_end,
    span, xor_run,
};
use crate::ups_error::{ApplyError, LoadError, UpsError};
use crate::varint::{
    lemma_varint_read_finished, lemma_varint_read_local, lemma_varint_read_shape,
    lemma_varint_read_unfinished, varint_at, varint_bytes, varint_end, varint_read, varint_value,
};
use vstd::prelude::*;

verus! {

/// What a list of changes holds, as plain mathematical values.
pub open spec fn changes_model(changes: Seq<(u64, Vec<u8>)>) -> Seq<Change> {
    Seq::new(changes.len(), |i: int| (changes[i].0, changes[i].1@))
}

/// Appends the four bytes of `value` to `output`, lowest first.
pub fn write_le(output: &mut Vec<u8>, value: u32)
    ensures
        final(output)@ == old(output)@ + le_bytes(value),
{
    proof {
        assert((value & 0xff) == value % 256 && ((value >> 8) & 0xff) == value / 256 % 256 && ((value
            >> 16) & 0xff) == value / 65536 % 256 && (value >> 24) == value / 16777216)
            by (bit_vector);
    }
    output.push((value & 0xff) as u8);
    output.push(((value >> 8) & 0xff) as u8);
    output.push(((value >> 16) & 0xff) as u8);
    output.push((value >> 24) as u8);
    proof {
        assert(output@ == old(output)@ + le_bytes(value));
    }
}

/// Reads the number whose four bytes, lowest first, stand at `at` in `content`.
pub fn read_le(content: &Vec<u8>, at: usize) -> (value: u32)
    requires
        at + 4 <= content.len(),
    ensures
        value == le_value(content@.subrange(at as int, at + 4)),
{
    let b0: u32 = content[at] as u32;
    let b1: u32 = content[at + 1] as u32;
    let b2: u32 = content[at + 2] as u32;
    let b3: u32 = content[at + 3] as u32;
    proof {
        assert(b0 < 256 && b1 < 256 && b2 < 256 && b3 < 256 ==> (b0 | (b1 << 8) | (b2 << 16) | (b3
            << 24)) == b0 + b1 * 256 + b2 * 65536 + b3 * 16777216) by (bit_vector);
    }
    b0 | (b1 << 8) | (b2 << 16) | (b3 << 24)
}

/// A UPS patch: how to turn one byte sequence, the source, into another,
/// the target.
#[derive(Debug, PartialEq, Eq)]
pub struct UpsPatch {
    /// The length of the source.
    pub source_file_size: u64,
    /// The length of the target.
    pub target_file_size: u64,
    /// The changes that turn the source into the target, in the order of
    /// their offsets. Each is an offset and a change list:
    ///
    /// 0, the offset: the position at which source and target start to differ.
    ///
    /// 1, the change list: for each position from there on, the XOR of the
    /// byte of the source and the byte of the target, a missing byte counting as zero.
    pub changes: Vec<(u64, Vec<u8>)>,
    /// The CRC-32 checksum of the source.
    pub source_crc32: u32,
    /// The CRC-32 checksum of the target.
    pub target_crc32: u32,
    /// The CRC-32 checksum of the serialized patch without its last four bytes.
    pub patch_crc32: u32,
}

impl View for UpsPatch {
    type V = PatchModel;

    open spec fn view(&self) -> PatchModel {
        PatchModel {
            source_file_size: self.source_file_size,
            target_file_size: self.target_file_size,
            changes: changes_model(self.changes@),
            source_crc32: self.source_crc32,
            target_crc32: self.target_crc32,
            patch_crc32: self.patch_crc32,
        }
    }
}

impl UpsPatch {
    /// The rules that a patch must keep to be read back from its
    /// serialized form: no XOR byte is zero, since a zero byte ends a
    /// change, and the checksum of the patch is that of its serialized body.
    /// A patch that was created or loaded keeps them.
    pub open spec fn well_formed(&self) -> bool {
        payloads_nonzero(self@.changes) && sealed(self@)
    }

    /// Creates the patch that turns the source into the target.
    ///
    /// The two are compared byte by byte, up to the length of the longer; a
    /// missing byte counts as zero. Each run of bytes that differ becomes one
    /// change. The patch that comes out keeps the rules of the format, and
    /// applied to the source it gives the target.
    pub fn create(source_content: &Vec<u8>, target_content: &Vec<u8>) -> (patch: UpsPatch)
        ensures
            patch@ == created(source_content@, target_content@),
            patch.well_formed(),
            ordered(patch@.changes),
            applied(patch@, source_content@) == Ok::<Seq<u8>, ApplyError>(target_content@),
    {
        let source_crc32: u32 = crc32::calculate(source_content.as_slice());
        let target_crc32: u32 = crc32::calculate(target_content.as_slice());

        let source_file_size: u64 = source_content.len() as u64;
        let target_file_size: u64 = target_content.len() as u64;
        let mut changes: Vec<(u64, Vec<u8>)> = Vec::new();

        let max_size: u64 = if source_file_size > target_file_size {
            source_file_size
        } else {
            target_file_size
        };
        let ghost source = source_content@;
        let ghost target = target_content@;
        proof {
            assert(changes_model(changes@) + diff_from(source, target, 0) == diff(source, target));
        }

        let mut i: u64 = 0;
        while i < max_size
            invariant
                source == source_content@,
                target == target_content@,
                source_file_size == source_content.len(),
                target_file_size == target_content.len(),
                max_size == span(source, target),
                i <= max_size,
                changes_model(changes@) + diff_from(source, target, i as int) == diff(
                    source,
                    target,
                ),
            decreases max_size - i,
        {
            let mut x: u8 = if i < source_file_size {
                source_content[i as usize]
            } else {
                0x00
            };
            let mut y: u8 = if i < target_file_size {
                target_content[i as usize]
            } else {
                0x00
            };
            if x != y {
                let change_offset: u64 = i;
                let ghost done = changes_model(changes@);
                let mut changed_bytes: Vec<u8> = Vec::new();
                proof {
                    assert(changed_bytes@ == xor_run(source, target, change_offset as int, i as int));
                }
                while x != y && i < max_size
                    invariant
                        source == source_content@,
                        target == target_content@,
                        source_file_size == source_content.len(),
                        target_file_size == target_content.len(),
                        max_size == span(source, target),
                        change_offset <= i <= max_size,
                        x == byte_at(source, i as int),
                        y == byte_at(target, i as int),
                        changed_bytes@ == xor_run(source, target, change_offset as int, i as int),
                        run_end(source, target, i as int) == run_end(
                            source,
                            target,
                            change_offset as int,
                        ),
                    decreases max_size - i,
                {
                    changed_bytes.push(x ^ y);
                    i += 1;
                    x = if i < source_file_size {
                        source_content[i as usize]
                    } else {
                        0x00
                    };
                    y = if i < target_file_size {
                        target_content[i as usize]
                    } else {
                        0x00
                    };
                    proof {
                        assert(changed_bytes@ == xor_run(
                            source,
                            target,
                            change_offset as int,
                            i as int,
                        ));
                    }
                }
                changes.push((change_offset, changed_bytes));
                proof {
                    let change: Change = (change_offset, changed_bytes@);
                    lemma_run_end(source, target, change_offset as int);
                    assert(run_end(source, target, change_offset as int) == i);
                    assert(changes_model(changes@) == done.push(change));
                    assert(done + (seq![change] + diff_from(source, target, i as int)) == done.push(
                        change,
                    ) + diff_from(source, target, i as int));
                }
            } else {
                i += 1;
            }
        }
        proof {
            assert(changes_model(changes@) + Seq::<Change>::empty() == changes_model(changes@));
            lemma_created_well_formed(source, target);
            lemma_apply_created(source, target);
        }

        let bytearray: Vec<u8> = UpsPatch::tailless_bytearray(
            source_file_size,
            target_file_size,
            &changes,
            source_crc32,
            target_crc32,
        );
        let patch_crc32: u32 = crc32::calculate(bytearray.as_slice());

        UpsPatch {
            source_file_size,
            target_file_size,
            changes,
            source_crc32,
            target_crc32,
            patch_crc32,
        }
    }

    /// Loads a patch from the contents of a patch file.
    ///
    /// Contents that do not start with the header `UPS1` are refused as
    /// `IsNotUpsFile`. Contents whose last four bytes are not the checksum
    /// of the bytes before them are refused as `IsCorrupted`. Contents that
    /// pass both, and are still not two lengths followed by whole change
    /// records and the checksums of source and target, are refused as
    /// `Unknown`.
    pub fn load(content: &Vec<u8>) -> (loaded: Result<UpsPatch, UpsError>)
        ensures
            match parse(content@) {
                Ok(model) => loaded is Ok && loaded.unwrap()@ == model,
                Err(error) => loaded == Err::<UpsPatch, UpsError>(UpsError::Load(error)),
            },
            loaded is Ok ==> loaded.unwrap().well_formed() && container_bytes(loaded.unwrap()@)
                == content@,
    {
        let l: usize = content.len();
        if l < 4 || content[0] != 0x55 || content[1] != 0x50 || content[2] != 0x53 || content[3]
            != 0x31 {
            proof {
                if l >= 4 {
                    assert(content@.take(4)[0] == content@[0]);
                    assert(content@.take(4)[1] == content@[1]);
                    assert(content@.take(4)[2] == content@[2]);
                    assert(content@.take(4)[3] == content@[3]);
                }
            }
            return Err(UpsError::Load(LoadError::IsNotUpsFile));
        }
        proof {
            assert(content@.take(4) == magic());
        }
        let patch_crc32: u32 = read_le(content, l - 4);
        let patch_computed_crc32: u32 = crc32::calculate(&content[0..l - 4]);
        proof {
            assert(content@.subrange(0, l - 4) == content@.take(l - 4));
            assert(content@.subrange(l - 4, l as int) == content@.skip(l - 4));
        }
        if patch_computed_crc32 != patch_crc32 {
            return Err(UpsError::Load(LoadError::IsCorrupted));
        }
        if l < 16 {
            return Err(UpsError::Load(LoadError::Unknown));
        }
        let end: usize = l - 12;
        let source_crc32: u32 = read_le(content, l - 12);
        let target_crc32: u32 = read_le(content, l - 8);

        let (at_target, source_file_size): (usize, u64) = match UpsPatch::find_pointer(content, 4) {
            Some(found) => found,
            None => {
                return Err(UpsError::Load(LoadError::Unknown));
            },
        };
        let (at_records, target_file_size): (usize, u64) = match UpsPatch::find_pointer(
            content,
            at_target,
        ) {
            Some(found) => found,
            None => {
                return Err(UpsError::Load(LoadError::Unknown));
            },
        };

        let mut i: usize = at_records;
        let mut changes: Vec<(u64, Vec<u8>)> = Vec::new();
        proof {
            assert(changes_model(changes@) == Seq::<Change>::empty());
            match read_records(content@, i as int, end as int) {
                Some(rest) => {
                    assert(changes_model(changes@) + rest == rest);
                },
                None => {},
            }
        }
        while i < end
            invariant
                end == content.len() - 12,
                i <= content.len(),
                read_records(content@, at_records as int, end as int) is None ==> parse(content@)
                    == Err::<PatchModel, LoadError>(LoadError::Unknown),
                match read_records(content@, i as int, end as int) {
                    Some(rest) => read_records(content@, at_records as int, end as int) == Some(
                        changes_model(changes@) + rest,
                    ),
                    None => read_records(content@, at_records as int, end as int) is None,
                },
            decreases content.len() - i,
        {
            let ghost pos = i;
            let ghost done = changes_model(changes@);
            let (from, offset_dif): (usize, u64) = match UpsPatch::find_pointer(content, i) {
                Some(found) => found,
                None => {
                    return Err(UpsError::Load(LoadError::Unknown));
                },
            };
            i = from;
            let mut xor_bytes: Vec<u8> = Vec::new();
            proof {
                assert(xor_bytes@ == content@.subrange(from as int, i as int));
            }
            while i < end && content[i] != 0
                invariant
                    end == content.len() - 12,
                    from <= i <= content.len(),
                    xor_bytes@ == content@.subrange(from as int, i as int),
                    payload_end(content@, i as int, end as int) == payload_end(
                        content@,
                        from as int,
                        end as int,
                    ),
                decreases content.len() - i,
            {
                xor_bytes.push(content[i]);
                i += 1;
                proof {
                    assert(xor_bytes@ == content@.subrange(from as int, i as int));
                }
            }
            if i >= end {
                return Err(UpsError::Load(LoadError::Unknown));
            }
            i += 1;
            changes.push((offset_dif, xor_bytes));
            proof {
                let change: Change = (offset_dif, xor_bytes@);
                assert(read_record(content@, pos as int, end as int) == Some((change, i as int)));
                assert(changes_model(changes@) == done.push(change));
                match read_records(content@, i as int, end as int) {
                    Some(rest) => {
                        assert(done + (seq![change] + rest) == done.push(change) + rest);
                    },
                    None => {},
                }
            }
        }
        if i != end {
            return Err(UpsError::Load(LoadError::Unknown));
        }
        proof {
            assert(changes_model(changes@) + Seq::<Change>::empty() == changes_model(changes@));
            lemma_serialize_parsed(content@);
        }
        let file = UpsPatch {
            source_file_size,
            target_file_size,
            source_crc32,
            target_crc32,
            patch_crc32,
            changes,
        };
        Ok(file)
    }

    /// Applies the patch to the source, with both checks: the source must
    /// have the checksum that the patch expects, else `SourceMismatch`, and
    /// so must the result, else `TargetMismatch`.
    pub fn apply(&self, source: &Vec<u8>) -> (result: Result<Vec<u8>, UpsError>)
        ensures
            match applied(self@, source@) {
                Ok(target) => result is Ok && result.unwrap()@ == target,
                Err(error) => result == Err::<Vec<u8>, UpsError>(UpsError::Apply(error)),
            },
    {
        if !self.file_is_source(source) {
            return Err(UpsError::Apply(ApplyError::SourceMismatch));
        }
        let target: Vec<u8> = self.apply_no_check(source);
        if !self.file_is_target(&target) {
            return Err(UpsError::Apply(ApplyError::TargetMismatch));
        }
        Ok(target)
    }

    /// Applies the patch to the source without any check.
    ///
    /// For each change in turn, the source is copied up to the offset of
    /// the change, and then XORed with the bytes of the change. After the
    /// last change the source is copied up to the length of the target. A
    /// byte beyond the end of the source counts as zero, and what comes
    /// out is cut to the length of the target.
    pub fn apply_no_check(&self, source: &Vec<u8>) -> (output: Vec<u8>)
        ensures
            output@ == patched(self@.changes, self.target_file_size, source@),
    {
        let ghost model = self@.changes;
        let mut output: Vec<u8> = Vec::new();
        proof {
            assert(model.skip(0) == model);
        }
        let mut c: usize = 0;
        while c < self.changes.len()
            invariant
                c <= self.changes.len(),
                model == changes_model(self.changes@),
                apply_changes(output@, model.skip(c as int), source@) == apply_changes(
                    Seq::empty(),
                    model,
                    source@,
                ),
            decreases self.changes.len() - c,
        {
            let change = &self.changes[c];
            let ghost before = output@;
            UpsPatch::copy_source(&mut output, source, change.0);
            let ghost copied = output@;
            let mut k: usize = 0;
            proof {
                assert(output@ == copied + Seq::new(
                    0,
                    |j: int| byte_at(source@, copied.len() + j) ^ change.1@[j],
                ));
            }
            while k < change.1.len()
                invariant
                    k <= change.1.len(),
                    output@ == copied + Seq::new(
                        k as nat,
                        |j: int| byte_at(source@, copied.len() + j) ^ change.1@[j],
                    ),
                decreases change.1.len() - k,
            {
                let i: usize = output.len();
                let source_byte: u8 = if i < source.len() {
                    source[i]
                } else {
                    0x00
                };
                output.push(source_byte ^ change.1[k]);
                k += 1;
                proof {
                    assert(output@ == copied + Seq::new(
                        k as nat,
                        |j: int| byte_at(source@, copied.len() + j) ^ change.1@[j],
                    ));
                }
            }
            proof {
                let rest = model.skip(c as int);
                assert(rest[0] == (change.0, change.1@));
                assert(rest.skip(1) == model.skip(c + 1));
                assert(output@ == apply_change(before, rest[0], source@));
            }
            c += 1;
        }
        proof {
            assert(model.skip(c as int) == Seq::<Change>::empty());
        }
        UpsPatch::copy_source(&mut output, source, self.target_file_size);
        if output.len() as u64 > self.target_file_size {
            output.truncate(self.target_file_size as usize);
        }
        proof {
            let full = copy_to(
                apply_changes(Seq::empty(), model, source@),
                source@,
                self.target_file_size as int,
            );
            assert(output@ == full.take(self.target_file_size as int));
        }
        output
    }

    /// Continues `output` with the bytes of the source up to position
    /// `upto`, a byte beyond the end of the source counting as zero.
    pub fn copy_source(output: &mut Vec<u8>, source: &Vec<u8>, upto: u64)
        ensures
            final(output)@ == copy_to(old(output)@, source@, upto as int),
    {
        while (output.len() as u64) < upto
            invariant
                copy_to(output@, source@, upto as int) == copy_to(old(output)@, source@, upto as int),
            decreases upto - output.len(),
        {
            let i: usize = output.len();
            let ghost before = output@;
            let byte: u8 = if i < source.len() {
                source[i]
            } else {
                0x00
            };
            output.push(byte);
            proof {
                assert(output.len() == i + 1);
                assert(copy_to(output@, source@, upto as int) == copy_to(
                    before,
                    source@,
                    upto as int,
                ));
            }
        }
    }

    /// Whether `content` has the checksum that the patch expects of its source.
    pub fn file_is_source(&self, content: &Vec<u8>) -> (same: bool)
        ensures
            same == (checksum(content@) == self.source_crc32),
    {
        let file_crc32: u32 = crc32::calculate(content.as_slice());
        file_crc32 == self.source_crc32
    }

    /// Whether `content` has the checksum that the patch expects of its target.
    pub fn file_is_target(&self, content: &Vec<u8>) -> (same: bool)
        ensures
            same == (checksum(content@) == self.target_crc32),
    {
        let file_crc32: u32 = crc32::calculate(content.as_slice());
        file_crc32 == self.target_crc32
    }

    /// Serializes everything but the checksum of the patch itself: the
    /// bytes which that checksum covers.
    pub fn tailless_bytearray(
        source_file_size: u64,
        target_file_size: u64,
        changes: &Vec<(u64, Vec<u8>)>,
        source_crc32: u32,
        target_crc32: u32,
    ) -> (output: Vec<u8>)
        ensures
            output@ == body_bytes(
                source_file_size,
                target_file_size,
                changes_model(changes@),
                source_crc32,
                target_crc32,
            ),
    {
        let ghost model = changes_model(changes@);
        let mut output: Vec<u8> = Vec::new();
        output.push(0x55);
        output.push(0x50);
        output.push(0x53);
        output.push(0x31);
        let mut encoded_source: Vec<u8> = UpsPatch::encode(source_file_size);
        output.append(&mut encoded_source);
        let mut encoded_target: Vec<u8> = UpsPatch::encode(target_file_size);
        output.append(&mut encoded_target);
        let ghost front = output@;
        proof {
            assert(front == magic() + varint_bytes(source_file_size as nat) + varint_bytes(
                target_file_size as nat,
            ));
            assert(model.skip(0) == model);
            assert(output@ + records_bytes(model.skip(0)) == front + records_bytes(model));
        }
        let mut i: usize = 0;
        while i < changes.len()
            invariant
                i <= changes.len(),
                model == changes_model(changes@),
                output@ + records_bytes(model.skip(i as int)) == front + records_bytes(model),
            decreases changes.len() - i,
        {
            let ghost before = output@;
            let ghost rest = model.skip(i as int);
            let change = &changes[i];
            let mut encoded_offset: Vec<u8> = UpsPatch::encode(change.0);
            output.append(&mut encoded_offset);
            let ghost start = output@;
            let mut j: usize = 0;
            while j < change.1.len()
                invariant
                    j <= change.1.len(),
                    output@ == start + change.1@.take(j as int),
                decreases change.1.len() - j,
            {
                output.push(change.1[j]);
                j += 1;
                proof {
                    assert(change.1@.take(j as int) == change.1@.take(j - 1).push(change.1@[j - 1]));
                }
            }
            output.push(0x00);
            proof {
                assert(change.1@.take(j as int) == change.1@);
                assert(rest[0] == (change.0, change.1@));
                assert(rest.skip(1) == model.skip(i + 1));
                assert(output@ == before + record_bytes(rest[0]));
                assert(records_bytes(rest) == record_bytes(rest[0]) + records_bytes(rest.skip(1)));
                assert(output@ + records_bytes(model.skip(i + 1)) == before + records_bytes(rest));
            }
            i += 1;
        }
        proof {
            assert(model.skip(i as int) == Seq::<Change>::empty());
            assert(output@ == front + records_bytes(model));
        }
        write_le(&mut output, source_crc32);
        write_le(&mut output, target_crc32);
        output
    }

    /// Serializes the patch: the contents of a patch file.
    pub fn get_patch_file_contents(&self) -> (output: Vec<u8>)
        ensures
            output@ == container_bytes(self@),
            self.well_formed() ==> parse(output@) == Ok::<PatchModel, LoadError>(self@),
    {
        proof {
            if self.well_formed() {
                lemma_parse_serialized(self@);
            }
        }
        let mut output: Vec<u8> = UpsPatch::tailless_bytearray(
            self.source_file_size,
            self.target_file_size,
            &self.changes,
            self.source_crc32,
            self.target_crc32,
        );
        write_le(&mut output, self.patch_crc32);
        output
    }

    /// Reads the encoded number that starts at `start` in `buff`: the
    /// position just behind it, and the number. `None` where `buff` ends
    /// before the number does, or where the number is beyond 64 bits.
    pub fn find_pointer(buff: &Vec<u8>, start: usize) -> (found: Option<(usize, u64)>)
        ensures
            match varint_at(buff@, start as int) {
                Some((value, end)) => found == Some((end as usize, value)) && end <= buff@.len(),
                None => found is None,
            },
    {
        match UpsPatch::find_encoded_value(buff, start) {
            None => None,
            Some((i, encoded_pointer)) => {
                proof {
                    let rest = buff@.skip(start as int);
                    lemma_varint_read_shape(rest);
                    assert forall|j: int| 0 <= j < varint_read(rest).unwrap().1 implies rest[j]
                        == encoded_pointer@[j] by {}
                    lemma_varint_read_local(rest, encoded_pointer@);
                    assert(encoded_pointer@.skip(0) == encoded_pointer@);
                }
                match UpsPatch::decode(encoded_pointer) {
                    None => None,
                    Some(decoded_pointer) => Some((i, decoded_pointer)),
                }
            },
        }
    }

    /// Finds where the encoded number that starts at `start` in `buff`
    /// ends: the position just behind it, and a copy of its bytes. `None`
    /// where no byte from `start` on has its high bit set.
    pub fn find_encoded_value(buff: &Vec<u8>, start: usize) -> (found: Option<(usize, Vec<u8>)>)
        ensures
            match varint_end(buff@, start as int) {
                Some(end) => found is Some && found.unwrap().0 == end && end <= buff@.len()
                    && found.unwrap().1@ == buff@.subrange(start as int, end),
                None => found is None,
            },
    {
        if start > buff.len() {
            return None;
        }
        let mut i: usize = start;
        let mut encoded: Vec<u8> = Vec::new();
        proof {
            assert(encoded@ == buff@.subrange(start as int, i as int));
        }
        while i < buff.len()
            invariant
                start <= i <= buff.len(),
                encoded@ == buff@.subrange(start as int, i as int),
                forall|j: int| start <= j < i ==> buff@[j] < 128,
            decreases buff.len() - i,
        {
            let x: u8 = buff[i];
            encoded.push(x);
            i += 1;
            proof {
                assert(encoded@ == buff@.subrange(start as int, i as int));
            }
            if x & 0x80 != 0 {
                proof {
                    assert(x & 0x80 != 0 ==> x >= 128) by (bit_vector);
                    let rest = buff@.skip(start as int);
                    assert(rest[i - 1 - start] == x);
                    lemma_varint_read_finished(rest, i - 1 - start);
                }
                return Some((i, encoded));
            }
            proof {
                assert(x & 0x80 == 0 ==> x < 128) by (bit_vector);
            }
        }
        proof {
            if start <= buff.len() {
                lemma_varint_read_unfinished(buff@.skip(start as int));
            }
        }
        None
    }

    /// Decodes the number that `input` starts with. `None` where no byte
    /// of `input` has its high bit set, or where the number is beyond 64 bits.
    pub fn decode(input: Vec<u8>) -> (value: Option<u64>)
        ensures
            value == varint_value(input@),
    {
        let mut value: u128 = 0;
        let mut shift: u128 = 1;
        let mut i: usize = 0;
        proof {
            assert(input@.skip(0) == input@);
        }
        while i < input.len()
            invariant
                i <= input.len(),
                1 <= shift <= u64::MAX,
                value <= u64::MAX,
                match varint_read(input@.skip(i as int)) {
                    Some((rest, taken)) => varint_read(input@) == Some(
                        ((value + shift * rest) as nat, (i + taken) as nat),
                    ),
                    None => varint_read(input@) is None,
                },
            decreases input.len() - i,
        {
            let x: u8 = input[i];
            let ghost here = input@.skip(i as int);
            let ghost next = input@.skip(i + 1);
            proof {
                assert(here[0] == x);
                assert(here.skip(1) == next);
                assert(input@.skip(0) == input@);
            }
            if x & 0x80 != 0 {
                let low: u8 = x & 0x7f;
                proof {
                    assert(x & 0x80 != 0 ==> x >= 128 && x & 0x7f == (x - 128) as u8)
                        by (bit_vector);
                    assert(shift * low <= shift * 127) by (nonlinear_arith)
                        requires
                            low <= 127,
                            shift >= 0,
                    ;
                    assert(varint_read(here) == Some((low as nat, 1nat)));
                }
                let total: u128 = value + shift * (low as u128);
                if total > u64::MAX as u128 {
                    return None;
                }
                return Some(total as u64);
            }
            proof {
                assert(x & 0x80 == 0 ==> x < 128) by (bit_vector);
                assert(shift * (x + 128) <= shift * 255 && shift * (x + 128) >= shift * 128)
                    by (nonlinear_arith)
                    requires
                        x < 128,
                        shift >= 0,
                ;
            }
            let bigger: u128 = value + shift * (x as u128 + 128);
            proof {
                match varint_read(next) {
                    Some((rest, taken)) => {
                        assert(varint_read(here) == Some(
                            (x as nat + 128 * (rest + 1), taken + 1),
                        ));
                        assert(value + shift * (x + 128 * (rest + 1)) == bigger + (shift * 128)
                            * rest) by (nonlinear_arith)
                            requires
                                bigger == value + shift * (x + 128),
                        ;
                        assert((shift * 128) * rest >= 0) by (nonlinear_arith)
                            requires
                                shift >= 0,
                                rest >= 0,
                        ;
                    },
                    None => {
                        assert(varint_read(here) is None);
                    },
                }
            }
            if bigger > u64::MAX as u128 {
                return None;
            }
            value = bigger;
            shift = shift * 128;
            i += 1;
        }
        None
    }

    /// Encodes `input` as a variable-length number.
    pub fn encode(input: u64) -> (bytes: Vec<u8>)
        ensures
            bytes@ == varint_bytes(input as nat),
    {
        let mut input: u64 = input;
        let ghost whole = input;
        let mut bytes: Vec<u8> = Vec::new();
        let mut x: u64 = input & 0x7f;
        proof {
            assert(input & 0x7f == input % 128 && input >> 7 == input / 128) by (bit_vector);
        }
        input = input >> 7;
        while input != 0
            invariant
                x < 128,
                x + 128 * input <= u64::MAX,
                bytes@ + varint_bytes((x + 128 * input) as nat) == varint_bytes(whole as nat),
            decreases input,
        {
            let ghost left = (x + 128 * input) as nat;
            let ghost done = bytes@;
            bytes.push(x as u8);
            input -= 1;
            proof {
                assert(input & 0x7f == input % 128 && input >> 7 == input / 128) by (bit_vector);
                assert(left / 128 - 1 == input);
                assert(left % 128 == x);
                assert(bytes@ + varint_bytes(input as nat) == done + (seq![x as u8] + varint_bytes(
                    input as nat,
                )));
            }
            x = input & 0x7f;
            input = input >> 7;
        }
        proof {
            assert(x < 128 ==> (0x80 | x) == x + 128) by (bit_vector);
        }
        bytes.push((0x80 | x) as u8);
        bytes
    }
}

} // verus!
