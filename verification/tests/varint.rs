use block_builder::error::BuildError;
use block_builder::varint::{encode_bytes, get_position_length, read_varint};

#[test]
fn encode_small_numbers_in_one_byte() {
    assert_eq!(encode_bytes(0), vec![0x00]);
    assert_eq!(encode_bytes(1), vec![0x01]);
    assert_eq!(encode_bytes(127), vec![0x7f]);
}

#[test]
fn encode_uses_the_fewest_bytes() {
    assert_eq!(encode_bytes(128), vec![0x80, 0x01]);
    assert_eq!(encode_bytes(300), vec![0xac, 0x02]);
    assert_eq!(encode_bytes(16383), vec![0xff, 0x7f]);
    assert_eq!(encode_bytes(16384), vec![0x80, 0x80, 0x01]);
}

#[test]
fn encode_the_largest_number() {
    assert_eq!(
        encode_bytes(u64::MAX),
        vec![0xff, 0xff, 0xff, 0xff, 0xff, 0xff, 0xff, 0xff, 0xff, 0x01]
    );
}

#[test]
fn decode_reads_at_the_given_position() {
    let buffer = vec![0x08, 0xac, 0x02, 0x7f];
    assert_eq!(get_position_length(0, &buffer), Ok(8));
    assert_eq!(get_position_length(1, &buffer), Ok(300));
    assert_eq!(get_position_length(2, &buffer), Ok(2));
    assert_eq!(get_position_length(3, &buffer), Ok(127));
}

#[test]
fn decode_undoes_encode() {
    let numbers: Vec<u64> = vec![
        0,
        1,
        127,
        128,
        255,
        300,
        16383,
        16384,
        1 << 21,
        (1 << 28) - 1,
        1 << 35,
        u32::MAX as u64,
        (1 << 56) + 12345,
        u64::MAX - 1,
        u64::MAX,
    ];
    for n in numbers {
        let bytes = encode_bytes(n);
        assert_eq!(read_varint(&bytes, 0), Ok((n, bytes.len())));
        if n <= usize::MAX as u64 {
            assert_eq!(get_position_length(0, &bytes), Ok(n as usize));
        }
    }
}

#[test]
fn decode_undoes_encode_inside_a_buffer() {
    let mut buffer = vec![0xff, 0xff];
    buffer.extend(encode_bytes(70000));
    buffer.extend(vec![0x80, 0x80]);
    assert_eq!(get_position_length(2, &buffer), Ok(70000));
}

#[test]
fn decode_fails_on_a_buffer_cut_before_the_terminator() {
    let bytes = encode_bytes(16384);
    assert_eq!(get_position_length(0, &bytes[..2]), Err(BuildError::TruncatedVarint));
    assert_eq!(get_position_length(0, &bytes[..1]), Err(BuildError::TruncatedVarint));
    assert_eq!(get_position_length(0, &bytes[..0]), Err(BuildError::TruncatedVarint));
}

#[test]
fn decode_fails_past_the_end() {
    let buffer = vec![0x01, 0x02];
    assert_eq!(get_position_length(2, &buffer), Err(BuildError::TruncatedVarint));
    assert_eq!(get_position_length(100, &buffer), Err(BuildError::TruncatedVarint));
}

#[test]
fn decode_reports_a_number_beyond_the_machine_word() {
    let too_long = vec![0xff, 0xff, 0xff, 0xff, 0xff, 0xff, 0xff, 0xff, 0xff, 0x02];
    assert_eq!(get_position_length(0, &too_long), Err(BuildError::LengthOverflow));
    assert_eq!(read_varint(&too_long, 0), Err(BuildError::LengthOverflow));
    let eleven = vec![0x80, 0x80, 0x80, 0x80, 0x80, 0x80, 0x80, 0x80, 0x80, 0x80, 0x01];
    assert_eq!(get_position_length(0, &eleven), Err(BuildError::LengthOverflow));
}

#[test]
fn decode_accepts_padding_groups_of_zero() {
    let padded = vec![0x85, 0x80, 0x00];
    assert_eq!(read_varint(&padded, 0), Ok((5, 3)));
}

#[test]
fn truncation_comes_before_overflow() {
    let buffer = vec![0xff, 0xff, 0xff, 0xff, 0xff, 0xff, 0xff, 0xff, 0xff, 0xff, 0xff];
    assert_eq!(get_position_length(0, &buffer), Err(BuildError::TruncatedVarint));
}

#[test]
fn errors_describe_themselves() {
    assert_eq!(BuildError::TruncatedVarint.message(), "buffer ends inside a varint");
    assert_eq!(
        BuildError::InconsistentLength.message(),
        "block length can't be greater than the total length"
    );
}
