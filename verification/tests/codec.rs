use ups::crc32;
use ups::ups_patch::{read_le, write_le};
use ups::UpsPatch;

#[test]
fn encodes_the_edges_of_each_length() {
    assert_eq!(UpsPatch::encode(0), vec![0x80]);
    assert_eq!(UpsPatch::encode(127), vec![0xFF]);
    assert_eq!(UpsPatch::encode(128), vec![0x00, 0x80]);
    assert_eq!(UpsPatch::encode(16511), vec![0x7F, 0xFF]);
    assert_eq!(UpsPatch::encode(16512), vec![0x00, 0x00, 0x80]);
    assert_eq!(
        UpsPatch::encode(4294967296),
        vec![0x00, 0x7F, 0x7E, 0x7E, 0x8E]
    );
    assert_eq!(
        UpsPatch::encode(u64::MAX),
        vec![0x7F, 0x7E, 0x7E, 0x7E, 0x7E, 0x7E, 0x7E, 0x7E, 0x7E, 0x80]
    );
}

#[test]
fn decodes_the_edges_of_each_length() {
    assert_eq!(UpsPatch::decode(vec![0x80]), Some(0));
    assert_eq!(UpsPatch::decode(vec![0xFF]), Some(127));
    assert_eq!(UpsPatch::decode(vec![0x00, 0x80]), Some(128));
    assert_eq!(UpsPatch::decode(vec![0x7F, 0xFF]), Some(16511));
    assert_eq!(UpsPatch::decode(vec![0x00, 0x00, 0x80]), Some(16512));
    assert_eq!(
        UpsPatch::decode(vec![0x7F, 0x7E, 0x7E, 0x7E, 0x7E, 0x7E, 0x7E, 0x7E, 0x7E, 0x80]),
        Some(u64::MAX)
    );
}

#[test]
fn decode_undoes_encode() {
    let mut values: Vec<u64> = vec![0, 1, 127, 128, 129, 16511, 16512, 16777216, u64::MAX - 1, u64::MAX];
    let mut v: u64 = 1;
    while v < u64::MAX / 3 {
        values.push(v);
        values.push(v - 1);
        v = v * 3 + 1;
    }
    for value in values {
        assert_eq!(UpsPatch::decode(UpsPatch::encode(value)), Some(value));
    }
}

#[test]
fn decode_stops_at_the_first_byte_with_the_high_bit() {
    assert_eq!(UpsPatch::decode(vec![0x85, 0x01, 0x02]), Some(5));
    assert_eq!(UpsPatch::decode(vec![0x00, 0x80, 0xFF]), Some(128));
}

#[test]
fn decode_refuses_what_does_not_end() {
    assert_eq!(UpsPatch::decode(vec![]), None);
    assert_eq!(UpsPatch::decode(vec![0x00]), None);
    assert_eq!(UpsPatch::decode(vec![0x00, 0x7F, 0x7E]), None);
}

#[test]
fn decode_refuses_what_is_beyond_64_bits() {
    // one more than the largest number
    assert_eq!(
        UpsPatch::decode(vec![0x00, 0x7F, 0x7E, 0x7E, 0x7E, 0x7E, 0x7E, 0x7E, 0x7E, 0x81]),
        None
    );
    assert_eq!(
        UpsPatch::decode(vec![0x7F, 0x7E, 0x7E, 0x7E, 0x7E, 0x7E, 0x7E, 0x7E, 0x7E, 0x81]),
        None
    );
    assert_eq!(UpsPatch::decode(vec![0; 40]), None);
    let mut long: Vec<u8> = vec![0; 40];
    long.push(0x80);
    assert_eq!(UpsPatch::decode(long), None);
}

#[test]
fn finds_an_encoded_value_inside_a_buffer() {
    let buff: Vec<u8> = vec![0x01, 0x02, 0x00, 0x7F, 0x7E, 0x86, 0x09];
    assert_eq!(
        UpsPatch::find_encoded_value(&buff, 2),
        Some((6, vec![0x00, 0x7F, 0x7E, 0x86]))
    );
    assert_eq!(
        UpsPatch::find_encoded_value(&buff, 0),
        Some((6, vec![0x01, 0x02, 0x00, 0x7F, 0x7E, 0x86]))
    );
    assert_eq!(UpsPatch::find_encoded_value(&buff, 5), Some((6, vec![0x86])));
    assert_eq!(UpsPatch::find_encoded_value(&buff, 6), None);
    assert_eq!(UpsPatch::find_encoded_value(&buff, 7), None);
    assert_eq!(UpsPatch::find_encoded_value(&buff, 8), None);
}

#[test]
fn finds_a_pointer_inside_a_buffer() {
    let buff: Vec<u8> = vec![0x01, 0x02, 0x00, 0x7F, 0x7E, 0x86, 0x09];
    assert_eq!(UpsPatch::find_pointer(&buff, 2), Some((6, 16777216)));
    assert_eq!(UpsPatch::find_pointer(&buff, 5), Some((6, 6)));
    assert_eq!(UpsPatch::find_pointer(&buff, 6), None);
    assert_eq!(UpsPatch::find_pointer(&buff, 100), None);
    let too_big: Vec<u8> = vec![0x7F, 0x7E, 0x7E, 0x7E, 0x7E, 0x7E, 0x7E, 0x7E, 0x7E, 0x81];
    assert_eq!(UpsPatch::find_pointer(&too_big, 0), None);
    assert_eq!(
        UpsPatch::find_pointer(&too_big, 1),
        Some((10, 216172782113783806))
    );
}

#[test]
fn checksum_of_known_inputs() {
    assert_eq!(crc32::calculate(&[]), 0);
    assert_eq!(crc32::calculate(b"a"), 0xE8B7BE43);
    assert_eq!(crc32::calculate(b"123456789"), 0xCBF43926);
    assert_eq!(
        crc32::calculate(b"This is a sample source file"),
        0x29E0B36E
    );
}

#[test]
fn checksum_is_the_same_each_time() {
    let content: Vec<u8> = (0..=255u8).collect();
    assert_eq!(crc32::calculate(&content), crc32::calculate(&content));
    assert_eq!(crc32::calculate(&content), crc32::calculate(&content.clone()));
}

#[test]
fn checksum_changes_with_any_single_bit() {
    let content: Vec<u8> = b"every bit of this buffer is flipped in turn".to_vec();
    let unchanged = crc32::calculate(&content);
    for at in 0..content.len() {
        for bit in 0..8 {
            let mut changed = content.clone();
            changed[at] ^= 1 << bit;
            assert_ne!(crc32::calculate(&changed), unchanged);
        }
    }
}

#[test]
fn writes_four_bytes_lowest_first() {
    let mut output: Vec<u8> = vec![0xAA];
    write_le(&mut output, 0x29E0B36E);
    assert_eq!(output, vec![0xAA, 0x6E, 0xB3, 0xE0, 0x29]);
    write_le(&mut output, 0);
    write_le(&mut output, 0xFFFFFFFF);
    assert_eq!(
        output,
        vec![0xAA, 0x6E, 0xB3, 0xE0, 0x29, 0, 0, 0, 0, 0xFF, 0xFF, 0xFF, 0xFF]
    );
}

#[test]
fn reads_four_bytes_lowest_first() {
    let content: Vec<u8> = vec![0xAA, 0x6E, 0xB3, 0xE0, 0x29, 0x01];
    assert_eq!(read_le(&content, 1), 0x29E0B36E);
    assert_eq!(read_le(&content, 0), 0xE0B36EAA);
    assert_eq!(read_le(&content, 2), 0x0129E0B3);
}
