use ups::crc32;
use ups::{ApplyError, CreateError, LoadError, UpsError, UpsPatch};

fn sealed(mut body: Vec<u8>) -> Vec<u8> {
    let crc = crc32::calculate(&body);
    body.extend(crc.to_le_bytes());
    body
}

fn round_trip(source: &[u8], target: &[u8]) {
    let source = source.to_vec();
    let target = target.to_vec();
    let patch = UpsPatch::create(&source, &target);
    assert_eq!(patch.source_file_size, source.len() as u64);
    assert_eq!(patch.target_file_size, target.len() as u64);
    assert_eq!(patch.apply(&source), Ok(target.clone()));
    assert_eq!(patch.apply_no_check(&source), target);
    let bytes = patch.get_patch_file_contents();
    assert_eq!(UpsPatch::load(&bytes), Ok(patch));
}

#[test]
fn applying_a_created_patch_gives_the_target() {
    round_trip(b"", b"");
    round_trip(b"", b"abc");
    round_trip(b"abc", b"");
    round_trip(b"abc", b"abc");
    round_trip(b"", &[0, 1]);
    round_trip(&[1], &[1, 0, 0]);
    round_trip(&[1, 0, 0], &[1]);
    round_trip(&[1, 0, 0, 5], &[1]);
    round_trip(&[0, 0, 0], &[0, 0, 0, 0, 0, 7, 0, 0]);
    round_trip(&[0, 0, 0, 0, 0, 7, 0, 0], &[0, 0, 0]);
    round_trip(b"This is a sample source file", b"This is a sample final file");
    round_trip(
        b"This is a sample source file",
        b"This is a sample longer final file",
    );
    let long_source: Vec<u8> = (0..2000u32).map(|i| (i * 7 % 251) as u8).collect();
    let long_target: Vec<u8> = (0..2300u32).map(|i| (i * 7 % 241) as u8).collect();
    round_trip(&long_source, &long_target);
    round_trip(&long_target, &long_source);
}

#[test]
fn a_loaded_patch_is_the_patch_that_was_serialized() {
    let patch = UpsPatch {
        source_file_size: 3,
        target_file_size: 300,
        changes: vec![(1, vec![7, 8]), (200, vec![9])],
        source_crc32: 0x01020304,
        target_crc32: 0xA0B0C0D0,
        patch_crc32: 0x37AE1740,
    };
    let bytes = patch.get_patch_file_contents();
    assert_eq!(
        bytes,
        vec![
            0x55, 0x50, 0x53, 0x31, 0x83, 0x2C, 0x81, 0x81, 0x07, 0x08, 0x00, 0x48, 0x80, 0x09,
            0x00, 0x04, 0x03, 0x02, 0x01, 0xD0, 0xC0, 0xB0, 0xA0, 0x40, 0x17, 0xAE, 0x37
        ]
    );
    let loaded = UpsPatch::load(&bytes).unwrap();
    assert_eq!(loaded.source_file_size, 3);
    assert_eq!(loaded.target_file_size, 300);
    assert_eq!(loaded.changes, vec![(1, vec![7, 8]), (200, vec![9])]);
    assert_eq!(loaded.source_crc32, 0x01020304);
    assert_eq!(loaded.target_crc32, 0xA0B0C0D0);
    assert_eq!(loaded.patch_crc32, 0x37AE1740);
    assert_eq!(loaded, patch);
}

#[test]
fn serializing_does_not_compute_the_checksum_anew() {
    let patch = UpsPatch {
        source_file_size: 0,
        target_file_size: 0,
        changes: vec![],
        source_crc32: 0,
        target_crc32: 0,
        patch_crc32: 0x11223344,
    };
    let bytes = patch.get_patch_file_contents();
    assert_eq!(
        bytes,
        vec![
            0x55, 0x50, 0x53, 0x31, 0x80, 0x80, 0, 0, 0, 0, 0, 0, 0, 0, 0x44, 0x33, 0x22, 0x11
        ]
    );
    assert_eq!(
        UpsPatch::load(&bytes),
        Err(UpsError::Load(LoadError::IsCorrupted))
    );
}

#[test]
fn the_body_is_the_contents_without_the_last_checksum() {
    let changes: Vec<(u64, Vec<u8>)> = vec![(1, vec![7, 8]), (200, vec![9])];
    let body = UpsPatch::tailless_bytearray(3, 300, &changes, 0x01020304, 0xA0B0C0D0);
    assert_eq!(
        body,
        vec![
            0x55, 0x50, 0x53, 0x31, 0x83, 0x2C, 0x81, 0x81, 0x07, 0x08, 0x00, 0x48, 0x80, 0x09,
            0x00, 0x04, 0x03, 0x02, 0x01, 0xD0, 0xC0, 0xB0, 0xA0
        ]
    );
    assert_eq!(crc32::calculate(&body), 0x37AE1740);
}

#[test]
fn creates_one_change_for_the_sample() {
    let source = b"This is a sample source file".to_vec();
    let target = b"This is a sample final file".to_vec();
    assert_eq!(source.len(), 28);
    assert_eq!(target.len(), 27);
    let patch = UpsPatch::create(&source, &target);
    assert_eq!(patch.changes.len(), 1);
    assert_eq!(patch.changes[0].0, 17);
    assert_eq!(patch.changes[0].1.len(), 11);
    assert_eq!(patch.source_crc32, 0x29E0B36E);
    assert_eq!(patch.target_crc32, 0x23A777E3);
    assert_eq!(patch.patch_crc32, 0xFFA6802B);
}

#[test]
fn creates_nothing_for_empty_inputs() {
    let patch = UpsPatch::create(&vec![], &vec![]);
    assert_eq!(
        patch,
        UpsPatch {
            source_file_size: 0,
            target_file_size: 0,
            changes: vec![],
            source_crc32: 0,
            target_crc32: 0,
            patch_crc32: 0x59C8FE28,
        }
    );
    assert_eq!(
        patch.get_patch_file_contents(),
        vec![
            0x55, 0x50, 0x53, 0x31, 0x80, 0x80, 0x00, 0x00, 0x00, 0x00, 0x00, 0x00, 0x00, 0x00,
            0x28, 0xFE, 0xC8, 0x59
        ]
    );
}

#[test]
fn creates_runs_of_differing_bytes() {
    let patch = UpsPatch::create(&vec![], &vec![0, 1]);
    assert_eq!(patch.changes, vec![(1, vec![1])]);
    assert_eq!(patch.patch_crc32, 0xCEEF0053);

    let patch = UpsPatch::create(&vec![1, 2, 3], &vec![1]);
    assert_eq!(patch.changes, vec![(1, vec![2, 3])]);
    assert_eq!(patch.source_crc32, 0x55BC801D);
    assert_eq!(patch.target_crc32, 0xA505DF1B);
    assert_eq!(patch.patch_crc32, 0x2B97331E);

    let patch = UpsPatch::create(&vec![1, 0, 0, 5], &vec![1]);
    assert_eq!(patch.changes, vec![(3, vec![5])]);

    let patch = UpsPatch::create(&b"abc".to_vec(), &b"abc".to_vec());
    assert_eq!(patch.changes, vec![]);
    assert_eq!(patch.patch_crc32, 0xAE36D340);

    let patch = UpsPatch::create(&b"aXcdYZg".to_vec(), &b"abcdefg".to_vec());
    assert_eq!(
        patch.changes,
        vec![
            (1, vec![b'X' ^ b'b']),
            (4, vec![b'Y' ^ b'e', b'Z' ^ b'f'])
        ]
    );
}

#[test]
fn created_changes_hold_no_zero_and_stand_in_order() {
    let source: Vec<u8> = (0..500u32).map(|i| (i % 3) as u8).collect();
    let target: Vec<u8> = (0..700u32).map(|i| (i % 5) as u8).collect();
    let patch = UpsPatch::create(&source, &target);
    let mut behind: u64 = 0;
    for (n, change) in patch.changes.iter().enumerate() {
        assert!(!change.1.is_empty());
        assert!(change.1.iter().all(|byte| *byte != 0));
        if n > 0 {
            assert!(change.0 > behind);
        }
        behind = change.0 + change.1.len() as u64;
    }
    assert!(behind <= 700);
}

#[test]
fn refuses_what_does_not_start_with_the_header() {
    let not_ups = Err(UpsError::Load(LoadError::IsNotUpsFile));
    assert_eq!(UpsPatch::load(&vec![]), not_ups);
    assert_eq!(UpsPatch::load(&vec![0x55, 0x50, 0x53]), not_ups);
    assert_eq!(UpsPatch::load(&b"UPS2".to_vec()), not_ups);
    assert_eq!(UpsPatch::load(&b"uPS1".to_vec()), not_ups);
    let mut sample = UpsPatch::create(&b"abc".to_vec(), &b"abd".to_vec()).get_patch_file_contents();
    sample[0] = 0x56;
    assert_eq!(UpsPatch::load(&sample), not_ups);
}

#[test]
fn refuses_what_does_not_match_its_checksum() {
    let corrupted = Err(UpsError::Load(LoadError::IsCorrupted));
    assert_eq!(UpsPatch::load(&b"UPS1".to_vec()), corrupted);
    assert_eq!(UpsPatch::load(&b"UPS1\x80\x80".to_vec()), corrupted);
    let sample = UpsPatch::create(&b"abc".to_vec(), &b"abd".to_vec()).get_patch_file_contents();
    for at in 4..sample.len() {
        let mut changed = sample.clone();
        changed[at] ^= 0x10;
        assert_eq!(UpsPatch::load(&changed), corrupted);
    }
}

#[test]
fn refuses_what_is_not_laid_out_as_a_patch() {
    let unknown = Err(UpsError::Load(LoadError::Unknown));
    // nothing but header and checksum
    assert_eq!(
        UpsPatch::load(&vec![0x55, 0x50, 0x53, 0x31, 0x91, 0x00, 0x63, 0x71]),
        unknown
    );
    // the length of the target is missing
    assert_eq!(
        UpsPatch::load(&vec![
            0x55, 0x50, 0x53, 0x31, 0x80, 0x00, 0x00, 0x00, 0x00, 0x00, 0x00, 0x00, 0x00, 0x80,
            0xCA, 0x92, 0x27
        ]),
        unknown
    );
    // a change without its terminator
    assert_eq!(
        UpsPatch::load(&vec![
            0x55, 0x50, 0x53, 0x31, 0x80, 0x80, 0x91, 0x05, 0x00, 0x00, 0x00, 0x00, 0x00, 0x00,
            0x00, 0x00, 0x1E, 0x9C, 0x7F, 0x22
        ]),
        unknown
    );
    // an offset and nothing behind it
    assert_eq!(
        UpsPatch::load(&vec![
            0x55, 0x50, 0x53, 0x31, 0x80, 0x80, 0x91, 0x00, 0x00, 0x00, 0x00, 0x00, 0x00, 0x00,
            0x00, 0xF4, 0xD9, 0x00, 0x3A
        ]),
        unknown
    );
    // a length beyond 64 bits
    assert_eq!(
        UpsPatch::load(&vec![
            0x55, 0x50, 0x53, 0x31, 0x7F, 0x7E, 0x7E, 0x7E, 0x7E, 0x7E, 0x7E, 0x7E, 0x7E, 0x81,
            0x80, 0x00, 0x00, 0x00, 0x00, 0x00, 0x00, 0x00, 0x00, 0x46, 0x5B, 0xDC, 0x60
        ]),
        unknown
    );
    // an offset that never ends
    assert_eq!(
        UpsPatch::load(&sealed(vec![
            0x55, 0x50, 0x53, 0x31, 0x80, 0x80, 0x01, 0x02, 0, 0, 0, 0, 0, 0, 0, 0
        ])),
        unknown
    );
}

#[test]
fn loads_a_change_without_bytes() {
    let loaded = UpsPatch::load(&vec![
        0x55, 0x50, 0x53, 0x31, 0x82, 0x82, 0x81, 0x00, 0x00, 0x00, 0x00, 0x00, 0x00, 0x00, 0x00,
        0x00, 0xE7, 0x7F, 0x11, 0xFB,
    ])
    .unwrap();
    assert_eq!(loaded.source_file_size, 2);
    assert_eq!(loaded.target_file_size, 2);
    assert_eq!(loaded.changes, vec![(1, vec![])]);
    assert_eq!(loaded.source_crc32, 0);
    assert_eq!(loaded.target_crc32, 0);
    assert_eq!(loaded.patch_crc32, 0xFB117FE7);
}

#[test]
fn loads_the_smallest_patch() {
    let loaded = UpsPatch::load(&vec![
        0x55, 0x50, 0x53, 0x31, 0x80, 0x80, 0x00, 0x00, 0x00, 0x00, 0x00, 0x00, 0x00, 0x00, 0x28,
        0xFE, 0xC8, 0x59,
    ])
    .unwrap();
    assert_eq!(loaded, UpsPatch::create(&vec![], &vec![]));
}

#[test]
fn refuses_a_source_with_another_checksum() {
    let source = b"This is a sample source file".to_vec();
    let target = b"This is a sample final file".to_vec();
    let patch = UpsPatch::create(&source, &target);
    for at in 0..source.len() {
        let mut other = source.clone();
        other[at] ^= 1;
        assert!(!patch.file_is_source(&other));
        assert_eq!(
            patch.apply(&other),
            Err(UpsError::Apply(ApplyError::SourceMismatch))
        );
    }
    assert_eq!(
        patch.apply(&vec![]),
        Err(UpsError::Apply(ApplyError::SourceMismatch))
    );
}

#[test]
fn refuses_a_result_with_another_checksum() {
    let source = b"This is a sample source file".to_vec();
    let target = b"This is a sample final file".to_vec();
    let mut patch = UpsPatch::create(&source, &target);
    patch.target_crc32 ^= 1;
    assert_eq!(
        patch.apply(&source),
        Err(UpsError::Apply(ApplyError::TargetMismatch))
    );
    assert_eq!(patch.apply_no_check(&source), target);

    let mut patch = UpsPatch::create(&source, &target);
    patch.changes[0].1[3] ^= 0x40;
    assert_eq!(
        patch.apply(&source),
        Err(UpsError::Apply(ApplyError::TargetMismatch))
    );
}

#[test]
fn source_is_checked_before_target() {
    let source = b"abc".to_vec();
    let mut patch = UpsPatch::create(&source, &b"abd".to_vec());
    patch.source_crc32 ^= 1;
    patch.target_crc32 ^= 1;
    assert_eq!(
        patch.apply(&source),
        Err(UpsError::Apply(ApplyError::SourceMismatch))
    );
}

#[test]
fn the_two_questions_do_not_change_the_patch() {
    let source = b"This is a sample source file".to_vec();
    let target = b"This is a sample final file".to_vec();
    let patch = UpsPatch::create(&source, &target);
    let before = patch.get_patch_file_contents();
    for _ in 0..3 {
        assert!(patch.file_is_source(&source));
        assert!(!patch.file_is_source(&target));
        assert!(patch.file_is_target(&target));
        assert!(!patch.file_is_target(&source));
    }
    assert_eq!(patch.get_patch_file_contents(), before);
    assert_eq!(patch, UpsPatch::create(&source, &target));
}

#[test]
fn applies_without_check_whatever_the_checksums() {
    let patch = UpsPatch {
        source_file_size: 4,
        target_file_size: 6,
        changes: vec![(1, vec![0xFF, 0x0F]), (5, vec![0x01, 0x02])],
        source_crc32: 0,
        target_crc32: 0,
        patch_crc32: 0,
    };
    // copied, changed, changed, copied, beyond the source, changed; the seventh is cut off
    assert_eq!(
        patch.apply_no_check(&vec![0x10, 0x20, 0x30, 0x40]),
        vec![0x10, 0xDF, 0x3F, 0x40, 0x00, 0x01]
    );
}

#[test]
fn applies_without_check_up_to_the_length_of_the_target() {
    let patch = UpsPatch {
        source_file_size: 2,
        target_file_size: 5,
        changes: vec![],
        source_crc32: 0,
        target_crc32: 0,
        patch_crc32: 0,
    };
    assert_eq!(patch.apply_no_check(&vec![7, 8]), vec![7, 8, 0, 0, 0]);
    assert_eq!(
        patch.apply_no_check(&vec![7, 8, 9, 10, 11, 12]),
        vec![7, 8, 9, 10, 11]
    );
    assert_eq!(patch.apply_no_check(&vec![]), vec![0, 0, 0, 0, 0]);
}

#[test]
fn applies_a_change_that_starts_before_the_end_of_the_last() {
    let patch = UpsPatch {
        source_file_size: 4,
        target_file_size: 4,
        changes: vec![(0, vec![1, 1]), (1, vec![2])],
        source_crc32: 0,
        target_crc32: 0,
        patch_crc32: 0,
    };
    // the second change goes on where the first ended
    assert_eq!(
        patch.apply_no_check(&vec![0x10, 0x20, 0x30, 0x40]),
        vec![0x11, 0x21, 0x32, 0x40]
    );
}

#[test]
fn copies_the_source_up_to_a_position() {
    let source: Vec<u8> = vec![1, 2, 3];
    let mut output: Vec<u8> = vec![9];
    UpsPatch::copy_source(&mut output, &source, 2);
    assert_eq!(output, vec![9, 2]);
    UpsPatch::copy_source(&mut output, &source, 1);
    assert_eq!(output, vec![9, 2]);
    UpsPatch::copy_source(&mut output, &source, 5);
    assert_eq!(output, vec![9, 2, 3, 0, 0]);
}

#[test]
fn each_error_has_its_message() {
    assert_eq!(
        UpsError::Load(LoadError::IsNotUpsFile).message(),
        "File provided is not a UPS Patch file"
    );
    assert_eq!(
        UpsError::Load(LoadError::IsCorrupted).message(),
        "FIle provided apears to be corrupted, doesn't match crc32"
    );
    assert_eq!(
        UpsError::Load(LoadError::Unknown).message(),
        "Unknown error during patch load"
    );
    assert_eq!(
        UpsError::Apply(ApplyError::SourceMismatch).message(),
        "Source file doesn't match crc32 for source file"
    );
    assert_eq!(
        UpsError::Apply(ApplyError::TargetMismatch).message(),
        "Final target file doesn't match crc32 for target file"
    );
    assert_eq!(
        UpsError::Apply(ApplyError::Unknown).message(),
        "Unknown error during patch apply"
    );
    assert_eq!(
        UpsError::Create(CreateError::Unknown).message(),
        "Unknown Error during patch creation"
    );
}

#[test]
fn a_loaded_patch_serializes_to_the_bytes_it_was_loaded_from() {
    let samples: Vec<Vec<u8>> = vec![
        vec![
            0x55, 0x50, 0x53, 0x31, 0x9C, 0x9B, 0x91, 0x15, 0x06, 0x1B, 0x13, 0x0F, 0x45, 0x46,
            0x0F, 0x05, 0x09, 0x65, 0x00, 0x6E, 0xB3, 0xE0, 0x29, 0xE3, 0x77, 0xA7, 0x23, 0x2B,
            0x80, 0xA6, 0xFF,
        ],
        vec![
            0x55, 0x50, 0x53, 0x31, 0x82, 0x82, 0x81, 0x00, 0x00, 0x00, 0x00, 0x00, 0x00, 0x00,
            0x00, 0x00, 0xE7, 0x7F, 0x11, 0xFB,
        ],
        sealed(vec![
            0x55, 0x50, 0x53, 0x31, 0x00, 0x80, 0x7F, 0xFF, 0x85, 0x01, 0x02, 0x00, 0x80, 0x00,
            0x00, 0x7F, 0x85, 0xFF, 0x00, 1, 2, 3, 4, 5, 6, 7, 8,
        ]),
    ];
    for bytes in samples {
        let patch = UpsPatch::load(&bytes).unwrap();
        assert_eq!(patch.get_patch_file_contents(), bytes);
    }
}
