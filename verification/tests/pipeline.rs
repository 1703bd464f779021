use block_builder::assemble::{build_index, build_multiblock, IndexEntry};
use block_builder::block::Environment;
use block_builder::error::BuildError;
use block_builder::ident::generate_id;
use block_builder::lengths::{compute_real_lengths, LengthEntry, LengthInfo, RealLengths};
use block_builder::locator::search_on_message;
use block_builder::message::{Field, FieldValue, ProtobufMessageWithBlockPointers};
use block_builder::real_locator::search_on_message_real;
use block_builder::segment::{fits_buffer, generate_buffer, purify_buffer};
use block_builder::store::{BlockEntry, BlockStore};
use block_builder::tree::{create_lengths_tree, Pointer, PointerEntry, PointerNode, PointerTree};

const HASH_A: [u8; 4] = [0x11, 0x22, 0x33, 0x44];
const HASH_B: [u8; 4] = [0xaa, 0xbb, 0xcc, 0xdd];

fn env() -> Environment {
    Environment::new("/path/to/block/dir/".to_string(), 7)
}

fn reference(value: &[u8]) -> Vec<u8> {
    let mut hash = vec![0x08, 0x07, 0x12, value.len() as u8];
    hash.extend_from_slice(value);
    let mut block = vec![0x0a, hash.len() as u8];
    block.extend(hash);
    block
}

fn message(fields: Vec<Field>) -> ProtobufMessageWithBlockPointers {
    ProtobufMessageWithBlockPointers { fields }
}

fn scalar(tag: u8, raw: Vec<u8>) -> Field {
    Field { tag, value: FieldValue::Scalar(raw) }
}

fn text(tag: u8, value: &str) -> Field {
    Field { tag, value: FieldValue::Text(value.as_bytes().to_vec()) }
}

fn bytes(tag: u8, value: Vec<u8>) -> Field {
    Field { tag, value: FieldValue::Bytes(value) }
}

fn nested(tag: u8, fields: Vec<Field>) -> Field {
    Field { tag, value: FieldValue::Message(message(fields)) }
}

fn repeated(tag: u8, elements: Vec<Vec<Field>>) -> Field {
    Field { tag, value: FieldValue::Repeated(elements.into_iter().map(message).collect()) }
}

fn pointer(hash: &str, path: Vec<usize>) -> Pointer {
    Pointer { hash: hash.to_string(), path }
}

fn known() -> Vec<Vec<u8>> {
    vec![HASH_A.to_vec(), HASH_B.to_vec()]
}

fn store(a: usize, b: usize) -> BlockStore {
    let mut store = BlockStore::new();
    store.add("11223344".to_string(), BlockEntry::File(a));
    store.add("aabbccdd".to_string(), BlockEntry::File(b));
    store
}

fn entry(offset: usize, real_length: usize, compressed_length: usize, is_leaf: bool) -> LengthEntry {
    LengthEntry { offset, info: LengthInfo { real_length, compressed_length, is_leaf } }
}

/// A scalar, a reference to block A, a text.
fn flat() -> ProtobufMessageWithBlockPointers {
    message(vec![scalar(0x08, vec![0x2a]), bytes(0x12, reference(&HASH_A)), text(0x1a, "hi")])
}

/// The same message with the block in place of the reference.
fn flat_real(block: Vec<u8>) -> ProtobufMessageWithBlockPointers {
    message(vec![scalar(0x08, vec![0x2a]), bytes(0x12, block), text(0x1a, "hi")])
}

/// A nested message that refers to block A, and a repeated message whose
/// first element refers to block B.
fn deep() -> ProtobufMessageWithBlockPointers {
    message(vec![
        nested(0x0a, vec![bytes(0x0a, reference(&HASH_A)), scalar(0x10, vec![0x01])]),
        repeated(0x12, vec![vec![bytes(0x0a, reference(&HASH_B))], vec![text(0x0a, "x")]]),
    ])
}

fn deep_real(a: Vec<u8>, b: Vec<u8>) -> ProtobufMessageWithBlockPointers {
    message(vec![
        nested(0x0a, vec![bytes(0x0a, a), scalar(0x10, vec![0x01])]),
        repeated(0x12, vec![vec![bytes(0x0a, b)], vec![text(0x0a, "x")]]),
    ])
}

fn splice(segments: &[Vec<u8>], blocks: &[Vec<u8>]) -> Vec<u8> {
    let mut whole = Vec::new();
    for i in 0..segments.len() {
        whole.extend(&segments[i]);
        if i < blocks.len() {
            whole.extend(&blocks[i]);
        }
    }
    whole
}

#[test]
fn message_is_written_field_after_field() {
    let buffer = flat().serialize_to_vec();
    let mut expected = vec![0x08, 0x2a, 0x12, 0x0a];
    expected.extend(reference(&HASH_A));
    expected.extend(vec![0x1a, 0x02, 0x68, 0x69]);
    assert_eq!(buffer, expected);
    assert_eq!(flat().encoded_len(), 18);
    assert_eq!(deep().encoded_len(), 35);
    assert_eq!(deep().serialize_to_vec().len(), 35);
    assert_eq!(message(vec![]).serialize_to_vec(), Vec::<u8>::new());
}

#[test]
fn long_payload_takes_a_longer_prefix() {
    let m = message(vec![bytes(0x0a, vec![7; 300])]);
    let buffer = m.serialize_to_vec();
    assert_eq!(&buffer[..3], &[0x0a, 0xac, 0x02]);
    assert_eq!(buffer.len(), 303);
    assert_eq!(m.encoded_len(), 303);
}

#[test]
fn search_finds_a_reference_at_the_top() {
    let mut container = Vec::new();
    search_on_message(&flat(), vec![], 0, &known(), &env(), &mut container);
    assert_eq!(container, vec![pointer("11223344", vec![3])]);
}

#[test]
fn search_extends_the_path_at_each_level() {
    let mut container = Vec::new();
    search_on_message(&deep(), vec![], 0, &known(), &env(), &mut container);
    assert_eq!(
        container,
        vec![pointer("11223344", vec![1, 3]), pointer("aabbccdd", vec![17, 19])]
    );
}

#[test]
fn search_starts_where_it_is_told() {
    let mut container = vec![pointer("00", vec![0])];
    search_on_message(&flat(), vec![5, 6], 100, &known(), &env(), &mut container);
    assert_eq!(container, vec![pointer("00", vec![0]), pointer("11223344", vec![5, 6, 103])]);
}

#[test]
fn search_passes_over_unknown_hashes_and_text() {
    let mut container = Vec::new();
    search_on_message(&flat(), vec![], 0, &[HASH_B.to_vec()], &env(), &mut container);
    assert_eq!(container, vec![]);
    let m = message(vec![Field { tag: 0x0a, value: FieldValue::Text(reference(&HASH_A)) }]);
    search_on_message(&m, vec![], 0, &known(), &env(), &mut container);
    assert_eq!(container, vec![]);
}

#[test]
fn search_records_each_occurrence_of_one_block() {
    let m = message(vec![
        bytes(0x0a, reference(&HASH_A)),
        nested(0x12, vec![bytes(0x0a, reference(&HASH_A))]),
    ]);
    let mut container = Vec::new();
    search_on_message(&m, vec![], 0, &known(), &env(), &mut container);
    assert_eq!(container, vec![pointer("11223344", vec![1]), pointer("11223344", vec![13, 15])]);
    let plan = build_multiblock(&m, &known(), &env(), &store(3, 0)).unwrap();
    assert_eq!(
        plan.segments,
        vec![vec![0x0a, 0x03], vec![0x12, 0x05, 0x0a, 0x03], vec![]]
    );
    let block = vec![9, 9, 9];
    let real = message(vec![bytes(0x0a, block.clone()), nested(0x12, vec![bytes(0x0a, block.clone())])]);
    assert_eq!(splice(&plan.segments, &[block.clone(), block]), real.serialize_to_vec());
}

#[test]
fn lengths_of_a_reference_at_the_top() {
    let buffer = flat().serialize_to_vec();
    let tree = create_lengths_tree(&vec![pointer("11223344", vec![3])]);
    let lengths = compute_real_lengths(&tree, &buffer, &store(300, 0)).unwrap();
    assert_eq!(lengths, RealLengths { entries: vec![entry(3, 300, 10, true)] });
}

#[test]
fn lengths_pass_the_growth_up_to_every_ancestor() {
    let buffer = deep().serialize_to_vec();
    let tree = create_lengths_tree(&vec![
        pointer("11223344", vec![1, 3]),
        pointer("aabbccdd", vec![17, 19]),
    ]);
    let lengths = compute_real_lengths(&tree, &buffer, &store(200, 5)).unwrap();
    assert_eq!(
        lengths,
        RealLengths {
            entries: vec![
                entry(1, 205, 14, false),
                entry(3, 200, 10, true),
                entry(17, 7, 12, false),
                entry(19, 5, 10, true),
            ]
        }
    );
    assert_eq!(lengths.get(17), Some(LengthInfo { real_length: 7, compressed_length: 12, is_leaf: false }));
    assert_eq!(lengths.get(18), None);
    assert!(lengths.contains_key(3));
    assert!(!lengths.contains_key(4));
}

#[test]
fn lengths_for_the_path_one_two_three() {
    // offsets 1 and 2 hold lengths of substructures, offset 3 that of the reference
    let mut buffer = vec![0x0a, 0x14, 0x0d, 0x0a];
    buffer.extend(vec![0; 20]);
    let tree = create_lengths_tree(&vec![pointer("abc", vec![1, 2, 3])]);
    let mut store = BlockStore::new();
    store.add("abc".to_string(), BlockEntry::File(1000));
    let lengths = compute_real_lengths(&tree, &buffer, &store).unwrap();
    assert_eq!(
        lengths,
        RealLengths {
            entries: vec![
                entry(1, 1012, 20, false),
                entry(2, 1004, 13, false),
                entry(3, 1000, 10, true),
            ]
        }
    );
}

#[test]
fn lengths_fail_when_children_take_more_than_the_parent_claims() {
    let mut buffer = deep().serialize_to_vec();
    buffer[1] = 0x0b;
    let tree = create_lengths_tree(&vec![pointer("11223344", vec![1, 3])]);
    assert_eq!(
        compute_real_lengths(&tree, &buffer, &store(200, 5)),
        Err(BuildError::InconsistentLength)
    );
    buffer[1] = 0x0c;
    assert_eq!(
        compute_real_lengths(&tree, &buffer, &store(200, 5)),
        Ok(RealLengths { entries: vec![entry(1, 203, 12, false), entry(3, 200, 10, true)] })
    );
}

#[test]
fn lengths_fail_when_the_buffer_is_shorter_than_its_children() {
    let tree = create_lengths_tree(&vec![pointer("11223344", vec![0])]);
    assert_eq!(
        compute_real_lengths(&tree, &[0x0a], &store(200, 5)),
        Err(BuildError::InconsistentLength)
    );
}

#[test]
fn lengths_fail_on_a_missing_block() {
    let buffer = flat().serialize_to_vec();
    let tree = create_lengths_tree(&vec![pointer("11223344", vec![3])]);
    assert_eq!(
        compute_real_lengths(&tree, &buffer, &BlockStore::new()),
        Err(BuildError::BlockNotFound)
    );
}

#[test]
fn lengths_fail_on_a_block_that_is_a_directory() {
    let buffer = flat().serialize_to_vec();
    let tree = create_lengths_tree(&vec![pointer("11223344", vec![3])]);
    let mut store = BlockStore::new();
    store.add("11223344".to_string(), BlockEntry::Directory);
    assert_eq!(
        compute_real_lengths(&tree, &buffer, &store),
        Err(BuildError::MultiblockNotSupported)
    );
}

#[test]
fn lengths_fail_on_an_offset_past_the_buffer() {
    let buffer = flat().serialize_to_vec();
    let tree = create_lengths_tree(&vec![pointer("11223344", vec![18])]);
    assert_eq!(
        compute_real_lengths(&tree, &buffer, &store(1, 1)),
        Err(BuildError::TruncatedVarint)
    );
}

#[test]
fn lengths_fail_when_the_real_length_exceeds_the_machine_word() {
    let buffer = flat().serialize_to_vec();
    let tree = create_lengths_tree(&vec![pointer("11223344", vec![3])]);
    assert_eq!(
        compute_real_lengths(&tree, &buffer, &store(usize::MAX, 1)),
        Err(BuildError::LengthOverflow)
    );
    assert_eq!(
        compute_real_lengths(&tree, &buffer, &store(usize::MAX - 10, 1)),
        Err(BuildError::LengthOverflow)
    );
    assert_eq!(
        compute_real_lengths(&tree, &buffer, &store(usize::MAX - 16, 1)),
        Err(BuildError::LengthOverflow)
    );
    assert_eq!(
        compute_real_lengths(&tree, &buffer, &store(usize::MAX - 17, 1)),
        Ok(RealLengths { entries: vec![entry(3, usize::MAX - 17, 10, true)] })
    );
}

#[test]
fn lengths_of_an_empty_tree_are_empty() {
    let buffer = flat().serialize_to_vec();
    let tree = PointerTree { entries: vec![] };
    assert_eq!(
        compute_real_lengths(&tree, &buffer, &BlockStore::new()),
        Ok(RealLengths { entries: vec![] })
    );
}

#[test]
fn lengths_of_a_later_entry_take_the_place_of_those_before() {
    // the offset 5 stands below two offsets: the lengths found last stay
    let below = |hash: &str| {
        PointerNode::Internal(PointerTree {
            entries: vec![PointerEntry { offset: 5, node: PointerNode::Leaf(hash.to_string()) }],
        })
    };
    let tree = PointerTree {
        entries: vec![
            PointerEntry { offset: 1, node: below("11223344") },
            PointerEntry { offset: 3, node: below("aabbccdd") },
        ],
    };
    let buffer = vec![0, 0x04, 0, 0x05, 0, 0x02, 0, 0, 0, 0, 0, 0, 0];
    let lengths = compute_real_lengths(&tree, &buffer, &store(9, 7)).unwrap();
    assert_eq!(
        lengths,
        RealLengths {
            entries: vec![entry(1, 11, 4, false), entry(3, 10, 5, false), entry(5, 7, 2, true)]
        }
    );
    assert_eq!(
        compute_real_lengths(&tree, &buffer[..12], &store(9, 7)),
        Err(BuildError::InconsistentLength)
    );
}

#[test]
fn table_keeps_its_offsets_in_order() {
    let mut table = RealLengths::new();
    let info = LengthInfo { real_length: 1, compressed_length: 2, is_leaf: false };
    let other = LengthInfo { real_length: 3, compressed_length: 4, is_leaf: true };
    table.insert(9, info);
    table.insert(2, info);
    table.insert(5, info);
    table.insert(2, other);
    assert_eq!(
        table,
        RealLengths {
            entries: vec![
                LengthEntry { offset: 2, info: other },
                LengthEntry { offset: 5, info },
                LengthEntry { offset: 9, info },
            ]
        }
    );
    let mut more = RealLengths::new();
    more.insert(5, other);
    more.insert(1, other);
    table.extend(&more);
    assert_eq!(
        table,
        RealLengths {
            entries: vec![
                LengthEntry { offset: 1, info: other },
                LengthEntry { offset: 2, info: other },
                LengthEntry { offset: 5, info: other },
                LengthEntry { offset: 9, info },
            ]
        }
    );
}

#[test]
fn buffer_without_references_is_one_segment() {
    let buffer = flat().serialize_to_vec();
    let lengths = RealLengths::new();
    assert!(fits_buffer(buffer.len(), &lengths));
    assert_eq!(generate_buffer(&buffer, &lengths), vec![buffer.clone()]);
    assert_eq!(generate_buffer(&[], &lengths), vec![Vec::<u8>::new()]);
}

#[test]
fn buffer_is_cut_at_a_reference() {
    let buffer = flat().serialize_to_vec();
    let lengths = RealLengths { entries: vec![entry(3, 300, 10, true)] };
    assert!(fits_buffer(buffer.len(), &lengths));
    assert_eq!(
        generate_buffer(&buffer, &lengths),
        vec![vec![0x08, 0x2a, 0x12, 0xac, 0x02], vec![0x1a, 0x02, 0x68, 0x69]]
    );
}

#[test]
fn buffer_is_rewritten_at_every_level() {
    let buffer = deep().serialize_to_vec();
    let lengths = RealLengths {
        entries: vec![
            entry(1, 205, 14, false),
            entry(3, 200, 10, true),
            entry(17, 7, 12, false),
            entry(19, 5, 10, true),
        ],
    };
    assert!(fits_buffer(buffer.len(), &lengths));
    let segments = generate_buffer(&buffer, &lengths);
    assert_eq!(
        segments,
        vec![
            vec![0x0a, 0xcd, 0x01, 0x0a, 0xc8, 0x01],
            vec![0x10, 0x01, 0x12, 0x07, 0x0a, 0x05],
            vec![0x12, 0x03, 0x0a, 0x01, 0x78],
        ]
    );
    let a = vec![0x5a; 200];
    let b = vec![0x5b; 5];
    assert_eq!(
        splice(&segments, &[a.clone(), b.clone()]),
        deep_real(a, b).serialize_to_vec()
    );
}

#[test]
fn rewritten_prefix_after_the_last_reference_stays_in_the_last_segment() {
    let buffer = vec![0x0a, 0x02, 0x01, 0x02];
    let lengths = RealLengths { entries: vec![entry(1, 300, 2, false)] };
    assert!(fits_buffer(buffer.len(), &lengths));
    assert_eq!(generate_buffer(&buffer, &lengths), vec![vec![0x0a, 0xac, 0x02, 0x01, 0x02]]);
}

#[test]
fn regions_that_overlap_or_leave_the_buffer_do_not_fit() {
    let buffer = flat().serialize_to_vec();
    let overlapping = RealLengths { entries: vec![entry(3, 300, 10, true), entry(5, 1, 1, true)] };
    assert!(!fits_buffer(buffer.len(), &overlapping));
    let outside = RealLengths { entries: vec![entry(3, 300, 15, true)] };
    assert!(!fits_buffer(buffer.len(), &outside));
    let to_the_end = RealLengths { entries: vec![entry(3, 300, 14, true)] };
    assert!(fits_buffer(buffer.len(), &to_the_end));
    let past = RealLengths { entries: vec![entry(18, 1, 0, false)] };
    assert!(!fits_buffer(buffer.len(), &past));
    let huge = RealLengths { entries: vec![entry(3, 1, usize::MAX, true)] };
    assert!(!fits_buffer(buffer.len(), &huge));
}

#[test]
fn copy_of_a_buffer() {
    assert_eq!(purify_buffer(&[1, 2, 3]), vec![1, 2, 3]);
    assert_eq!(purify_buffer(&[]), Vec::<u8>::new());
}

#[test]
fn real_walk_finds_the_places_in_the_real_object() {
    let lengths = RealLengths {
        entries: vec![
            entry(1, 205, 14, false),
            entry(3, 200, 10, true),
            entry(17, 7, 12, false),
            entry(19, 5, 10, true),
        ],
    };
    let mut container = Vec::new();
    let r = search_on_message_real(
        &deep(),
        vec![],
        0,
        0,
        &known(),
        &env(),
        &store(200, 5),
        &mut container,
        &lengths,
    );
    assert_eq!(r, Ok(()));
    assert_eq!(
        container,
        vec![pointer("11223344", vec![1, 4]), pointer("aabbccdd", vec![209, 211])]
    );
}

#[test]
fn real_walk_passes_over_a_message_without_lengths() {
    let lengths = RealLengths { entries: vec![entry(17, 7, 12, false), entry(19, 5, 10, true)] };
    let mut container = Vec::new();
    let r = search_on_message_real(
        &deep(),
        vec![],
        0,
        0,
        &known(),
        &env(),
        &store(200, 5),
        &mut container,
        &lengths,
    );
    assert_eq!(r, Ok(()));
    assert_eq!(container, vec![pointer("aabbccdd", vec![17, 19])]);
}

#[test]
fn real_walk_fails_on_a_missing_block() {
    let lengths = RealLengths { entries: vec![entry(3, 300, 10, true)] };
    let mut container = Vec::new();
    let r = search_on_message_real(
        &flat(),
        vec![],
        0,
        0,
        &known(),
        &env(),
        &BlockStore::new(),
        &mut container,
        &lengths,
    );
    assert_eq!(r, Err(BuildError::BlockNotFound));
}

#[test]
fn real_walk_fails_when_the_real_cursor_leaves_the_machine_word() {
    let lengths = RealLengths { entries: vec![entry(3, 300, 10, true)] };
    let mut container = Vec::new();
    let r = search_on_message_real(
        &flat(),
        vec![],
        0,
        usize::MAX - 100,
        &known(),
        &env(),
        &store(300, 0),
        &mut container,
        &lengths,
    );
    assert_eq!(r, Err(BuildError::LengthOverflow));
}

#[test]
fn index_lists_segments_and_blocks_in_turn() {
    let pointers = vec![pointer("11223344", vec![1, 4]), pointer("aabbccdd", vec![209, 211])];
    assert_eq!(
        build_index(3, &pointers, &store(200, 5)),
        Ok(vec![
            IndexEntry::Segment(1),
            IndexEntry::Block { hash: "11223344".to_string(), path: vec![1, 4], real_length: 200 },
            IndexEntry::Segment(2),
            IndexEntry::Block { hash: "aabbccdd".to_string(), path: vec![209, 211], real_length: 5 },
            IndexEntry::Segment(3),
        ])
    );
    assert_eq!(build_index(1, &vec![], &store(200, 5)), Ok(vec![IndexEntry::Segment(1)]));
    assert_eq!(build_index(0, &vec![], &store(200, 5)), Ok(vec![]));
    assert_eq!(build_index(3, &pointers, &BlockStore::new()), Err(BuildError::BlockNotFound));
}

#[test]
fn object_without_references_is_its_own_content() {
    let m = message(vec![scalar(0x08, vec![0x2a]), text(0x1a, "hi")]);
    let mut container = Vec::new();
    search_on_message(&m, vec![], 0, &known(), &env(), &mut container);
    assert_eq!(container, vec![]);
    let tree = create_lengths_tree(&container);
    assert_eq!(tree, PointerTree { entries: vec![] });
    let buffer = m.serialize_to_vec();
    let lengths = compute_real_lengths(&tree, &buffer, &BlockStore::new()).unwrap();
    assert_eq!(lengths, RealLengths { entries: vec![] });
    let plan = build_multiblock(&m, &known(), &env(), &BlockStore::new()).unwrap();
    assert_eq!(plan.segments, vec![buffer.clone()]);
    assert_eq!(plan.index, vec![IndexEntry::Segment(1)]);
    assert_eq!(plan.compressed, buffer);
    assert_eq!(generate_id(&plan.segments, &vec![]), generate_id(&vec![buffer], &vec![]));
}

#[test]
fn object_with_one_reference() {
    let plan = build_multiblock(&flat(), &known(), &env(), &store(300, 0)).unwrap();
    assert_eq!(
        plan.segments,
        vec![vec![0x08, 0x2a, 0x12, 0xac, 0x02], vec![0x1a, 0x02, 0x68, 0x69]]
    );
    assert_eq!(
        plan.index,
        vec![
            IndexEntry::Segment(1),
            IndexEntry::Block { hash: "11223344".to_string(), path: vec![3], real_length: 300 },
            IndexEntry::Segment(2),
        ]
    );
    assert_eq!(plan.compressed, flat().serialize_to_vec());
    let block = vec![0xee; 300];
    assert_eq!(
        splice(&plan.segments, &[block.clone()]),
        flat_real(block).serialize_to_vec()
    );
}

#[test]
fn object_with_nested_references() {
    let plan = build_multiblock(&deep(), &known(), &env(), &store(200, 5)).unwrap();
    assert_eq!(plan.segments.len(), 3);
    assert_eq!(
        plan.index,
        vec![
            IndexEntry::Segment(1),
            IndexEntry::Block { hash: "11223344".to_string(), path: vec![1, 4], real_length: 200 },
            IndexEntry::Segment(2),
            IndexEntry::Block { hash: "aabbccdd".to_string(), path: vec![209, 211], real_length: 5 },
            IndexEntry::Segment(3),
        ]
    );
    let a = vec![0x5a; 200];
    let b = vec![0x5b; 5];
    let real = deep_real(a.clone(), b.clone()).serialize_to_vec();
    assert_eq!(real.len(), 222);
    assert_eq!(splice(&plan.segments, &[a.clone(), b.clone()]), real);
    assert_eq!(generate_id(&plan.segments, &vec![a, b]), generate_id(&vec![real], &vec![]));
}

#[test]
fn object_whose_blocks_differ_in_size_by_orders_of_magnitude() {
    for (a, b) in [(0usize, 0usize), (1, 127), (128, 16384), (70000, 3), (127, 128)] {
        let plan = build_multiblock(&deep(), &known(), &env(), &store(a, b)).unwrap();
        let block_a = vec![0x5a; a];
        let block_b = vec![0x5b; b];
        assert_eq!(
            splice(&plan.segments, &[block_a.clone(), block_b.clone()]),
            deep_real(block_a, block_b).serialize_to_vec()
        );
    }
}

#[test]
fn object_fails_as_its_first_failing_step_does() {
    assert_eq!(
        build_multiblock(&flat(), &known(), &env(), &BlockStore::new()),
        Err(BuildError::BlockNotFound)
    );
    let mut with_directory = BlockStore::new();
    with_directory.add("11223344".to_string(), BlockEntry::Directory);
    assert_eq!(
        build_multiblock(&flat(), &known(), &env(), &with_directory),
        Err(BuildError::MultiblockNotSupported)
    );
    assert_eq!(
        build_multiblock(&flat(), &known(), &env(), &store(usize::MAX, 0)),
        Err(BuildError::LengthOverflow)
    );
}

#[test]
fn object_is_the_same_when_built_twice() {
    let first = build_multiblock(&deep(), &known(), &env(), &store(200, 5));
    let second = build_multiblock(&deep(), &known(), &env(), &store(200, 5));
    assert_eq!(first, second);
}
