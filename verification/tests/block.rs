use block_builder::block::{
    bytes_equal, contains_hash, get_hash, is_block, BlockHash, BufferBlock, Environment,
};
use block_builder::error::BuildError;

fn env() -> Environment {
    Environment::new("/path/to/block/dir/".to_string(), 7)
}

fn reference(hash_type: u8, value: &[u8]) -> Vec<u8> {
    let mut hash = vec![0x08, hash_type, 0x12, value.len() as u8];
    hash.extend_from_slice(value);
    let mut block = vec![0x0a, hash.len() as u8];
    block.extend(hash);
    block
}

#[test]
fn environment_hands_back_its_settings() {
    let env = env();
    assert_eq!(env.block_dir(), "/path/to/block/dir/");
    assert_eq!(env.hash_type(), 7);
}

#[test]
fn decode_reads_one_hash() {
    let bytes = reference(7, &[0x11, 0x22, 0x33, 0x44]);
    assert_eq!(bytes, vec![0x0a, 0x08, 0x08, 0x07, 0x12, 0x04, 0x11, 0x22, 0x33, 0x44]);
    assert_eq!(
        BufferBlock::decode(&bytes),
        Some(BufferBlock {
            hashes: vec![BlockHash { hash_type: 7, value: vec![0x11, 0x22, 0x33, 0x44] }]
        })
    );
}

#[test]
fn decode_reads_several_hashes_in_order() {
    let mut bytes = reference(1, &[0xaa]);
    bytes.extend(reference(7, &[0xbb, 0xcc]));
    assert_eq!(
        BufferBlock::decode(&bytes),
        Some(BufferBlock {
            hashes: vec![
                BlockHash { hash_type: 1, value: vec![0xaa] },
                BlockHash { hash_type: 7, value: vec![0xbb, 0xcc] },
            ]
        })
    );
}

#[test]
fn decode_of_nothing_is_a_reference_without_hashes() {
    assert_eq!(BufferBlock::decode(&[]), Some(BufferBlock { hashes: vec![] }));
    assert_eq!(BlockHash::decode(&[]), Some(BlockHash { hash_type: 0, value: vec![] }));
}

#[test]
fn decode_passes_over_fields_of_other_numbers() {
    // field 3 varint, field 4 with eight bytes, field 5 with four bytes, field 6 delimited
    let mut bytes = vec![0x18, 0x96, 0x01];
    bytes.extend(vec![0x21, 1, 2, 3, 4, 5, 6, 7, 8]);
    bytes.extend(vec![0x2d, 1, 2, 3, 4]);
    bytes.extend(vec![0x32, 0x02, 0xff, 0xff]);
    bytes.extend(reference(7, &[0x01]));
    assert_eq!(
        BufferBlock::decode(&bytes),
        Some(BufferBlock { hashes: vec![BlockHash { hash_type: 7, value: vec![0x01] }] })
    );
}

#[test]
fn decode_takes_the_last_occurrence_of_a_field_of_a_hash() {
    let hash = vec![0x08, 0x01, 0x12, 0x01, 0xaa, 0x08, 0x07, 0x12, 0x02, 0xbb, 0xcc];
    assert_eq!(
        BlockHash::decode(&hash),
        Some(BlockHash { hash_type: 7, value: vec![0xbb, 0xcc] })
    );
}

#[test]
fn decode_refuses_what_is_no_reference() {
    // a payload that runs past the end
    assert_eq!(BufferBlock::decode(&[0x0a, 0x05, 0x08, 0x07]), None);
    // field 1 with the wire type of a varint
    assert_eq!(BufferBlock::decode(&[0x08, 0x07]), None);
    // field number zero
    assert_eq!(BufferBlock::decode(&[0x02, 0x00]), None);
    // a group
    assert_eq!(BufferBlock::decode(&[0x1b]), None);
    // a key that is cut off
    assert_eq!(BufferBlock::decode(&[0x80]), None);
    // a hash whose tag has the wrong wire type
    assert_eq!(BufferBlock::decode(&[0x0a, 0x02, 0x0a, 0x00]), None);
    // a hash whose digest has the wrong wire type
    assert_eq!(BufferBlock::decode(&[0x0a, 0x02, 0x10, 0x00]), None);
    // text
    assert_eq!(BufferBlock::decode(b"hello world"), None);
}

#[test]
fn get_hash_names_the_block_in_lower_case_hexadecimal() {
    let block = BufferBlock {
        hashes: vec![BlockHash { hash_type: 7, value: vec![0x11, 0x22, 0xab, 0xff, 0x00, 0x0f] }],
    };
    assert_eq!(get_hash(&block, &env()), Ok("1122abff000f".to_string()));
}

#[test]
fn get_hash_takes_the_first_hash_of_the_configured_algorithm() {
    let block = BufferBlock {
        hashes: vec![
            BlockHash { hash_type: 1, value: vec![0x01] },
            BlockHash { hash_type: 7, value: vec![0x02] },
            BlockHash { hash_type: 7, value: vec![0x03] },
        ],
    };
    assert_eq!(get_hash(&block, &env()), Ok("02".to_string()));
    assert_eq!(block.find_hash(7), Some(1));
    assert_eq!(block.find_hash(1), Some(0));
    assert_eq!(block.find_hash(2), None);
}

#[test]
fn get_hash_fails_without_a_hash_of_the_configured_algorithm() {
    let block = BufferBlock { hashes: vec![BlockHash { hash_type: 1, value: vec![0x01] }] };
    assert_eq!(get_hash(&block, &env()), Err(BuildError::HashTypeUnavailable));
    assert_eq!(get_hash(&BufferBlock { hashes: vec![] }, &env()), Err(BuildError::HashTypeUnavailable));
}

#[test]
fn is_block_needs_a_known_hash() {
    let bytes = reference(7, &[0x11, 0x22, 0x33, 0x44]);
    let known = vec![vec![0x00], vec![0x11, 0x22, 0x33, 0x44]];
    let other = vec![vec![0x11, 0x22, 0x33, 0x45], vec![0x11, 0x22, 0x33]];
    assert!(is_block(&bytes, &known, &env()));
    assert!(!is_block(&bytes, &other, &env()));
    assert!(!is_block(&bytes, &[], &env()));
}

#[test]
fn is_block_needs_bytes_that_parse() {
    let known = vec![vec![0x11, 0x22, 0x33, 0x44]];
    assert!(!is_block(b"opaque bytes", &known, &env()));
    assert!(!is_block(&[0x0a, 0x08, 0x08, 0x07, 0x12, 0x04, 0x11, 0x22, 0x33], &known, &env()));
    assert!(!is_block(&[], &known, &env()));
}

#[test]
fn is_block_needs_a_hash_of_the_configured_algorithm() {
    let bytes = reference(1, &[0x11, 0x22, 0x33, 0x44]);
    let known = vec![vec![0x11, 0x22, 0x33, 0x44]];
    assert!(!is_block(&bytes, &known, &env()));
    assert!(is_block(&bytes, &known, &Environment::new(String::new(), 1)));
}

#[test]
fn hashes_are_compared_byte_for_byte() {
    assert!(bytes_equal(&[1, 2, 3], &[1, 2, 3]));
    assert!(bytes_equal(&[], &[]));
    assert!(!bytes_equal(&[1, 2, 3], &[1, 2, 4]));
    assert!(!bytes_equal(&[1, 2, 3], &[1, 2]));
    assert!(contains_hash(&[vec![1], vec![2, 3]], &[2, 3]));
    assert!(!contains_hash(&[vec![1], vec![2, 3]], &[3, 2]));
}
