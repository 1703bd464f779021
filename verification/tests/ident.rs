use block_builder::ident::{generate_id, IdAction, IdEvent, IdStream};

const EMPTY: &str = "a7ffc6f8bf1ed76651c14756a061d662f580ff4de43b49fa82d80a4b80f8434a";
const ABC: &str = "3a985da74fe225b2045c172d6bd390bd855f086e3e9d525b46bfe24511431532";

#[test]
fn id_of_nothing_is_the_digest_of_nothing() {
    assert_eq!(hex::encode(generate_id(&vec![], &vec![])), EMPTY);
    assert_eq!(hex::encode(generate_id(&vec![vec![]], &vec![])), EMPTY);
}

#[test]
fn id_of_one_segment_is_the_digest_of_the_segment() {
    assert_eq!(hex::encode(generate_id(&vec![b"abc".to_vec()], &vec![])), ABC);
}

#[test]
fn id_takes_segments_and_blocks_in_turn() {
    let id = generate_id(&vec![b"a".to_vec(), b"c".to_vec()], &vec![b"b".to_vec()]);
    assert_eq!(hex::encode(id), ABC);
    let swapped = generate_id(&vec![b"c".to_vec(), b"a".to_vec()], &vec![b"b".to_vec()]);
    assert_ne!(hex::encode(swapped), ABC);
}

#[test]
fn id_goes_on_with_what_is_left_of_the_longer_list() {
    let id = generate_id(&vec![b"a".to_vec()], &vec![b"b".to_vec(), b"c".to_vec()]);
    assert_eq!(hex::encode(id), ABC);
    let id = generate_id(&vec![b"a".to_vec(), b"b".to_vec(), b"c".to_vec()], &vec![]);
    assert_eq!(hex::encode(id), ABC);
    let id = generate_id(&vec![], &vec![b"ab".to_vec(), b"c".to_vec()]);
    assert_eq!(hex::encode(id), ABC);
}

#[test]
fn id_is_the_same_for_the_same_object() {
    let segments = vec![vec![1, 2, 3], vec![4, 5], vec![6]];
    let blocks = vec![vec![7; 1000], vec![8; 10]];
    assert_eq!(generate_id(&segments, &blocks), generate_id(&segments, &blocks));
}

#[test]
fn id_changes_with_a_byte_of_a_block() {
    let segments = vec![vec![1, 2, 3], vec![4, 5], vec![6]];
    let blocks = vec![vec![7; 1000], vec![8; 10]];
    let mut changed = blocks.clone();
    changed[0][500] = 9;
    assert_ne!(generate_id(&segments, &blocks), generate_id(&segments, &changed));
}

#[test]
fn id_is_the_digest_of_the_materialized_object() {
    let segments = vec![vec![1, 2, 3], vec![4, 5], vec![6]];
    let blocks = vec![vec![7; 1000], vec![8; 10]];
    let mut whole = Vec::new();
    whole.extend(&segments[0]);
    whole.extend(&blocks[0]);
    whole.extend(&segments[1]);
    whole.extend(&blocks[1]);
    whole.extend(&segments[2]);
    assert_eq!(generate_id(&segments, &blocks), generate_id(&vec![whole], &vec![]));
}

#[test]
fn stream_asks_for_each_block_in_turn() {
    let segments = vec![b"a".to_vec(), b"d".to_vec(), b"f".to_vec()];
    let mut stream = IdStream::new();
    assert_eq!(stream.step(&segments, 2, IdEvent::Start), IdAction::Read(0));
    assert_eq!(stream.step(&segments, 2, IdEvent::Chunk(b"b".to_vec())), IdAction::Read(0));
    assert_eq!(stream.step(&segments, 2, IdEvent::Chunk(b"c".to_vec())), IdAction::Read(0));
    assert_eq!(stream.step(&segments, 2, IdEvent::EndOfBlock), IdAction::Read(1));
    assert_eq!(stream.step(&segments, 2, IdEvent::Chunk(b"e".to_vec())), IdAction::Read(1));
    assert_eq!(stream.step(&segments, 2, IdEvent::EndOfBlock), IdAction::Finish);
    let streamed = stream.finish();
    assert_eq!(streamed, generate_id(&vec![b"abcdef".to_vec()], &vec![]));
    assert_eq!(streamed, generate_id(&segments, &vec![b"bc".to_vec(), b"e".to_vec()]));
}

#[test]
fn stream_without_blocks_finishes_at_once() {
    let segments = vec![b"abc".to_vec()];
    let mut stream = IdStream::new();
    assert_eq!(stream.step(&segments, 0, IdEvent::Start), IdAction::Finish);
    assert_eq!(hex::encode(stream.finish()), ABC);
}
