use block_builder::tree::{create_lengths_tree, Pointer, PointerEntry, PointerNode, PointerTree};

fn pointer(hash: &str, path: Vec<usize>) -> Pointer {
    Pointer { hash: hash.to_string(), path }
}

fn leaf(offset: usize, hash: &str) -> PointerEntry {
    PointerEntry { offset, node: PointerNode::Leaf(hash.to_string()) }
}

fn internal(offset: usize, entries: Vec<PointerEntry>) -> PointerEntry {
    PointerEntry { offset, node: PointerNode::Internal(PointerTree { entries }) }
}

#[test]
fn test_create_lengths_tree_single_element() {
    let pointer_container = vec![pointer("abc", vec![1, 2, 3])];
    let expected_output = PointerTree {
        entries: vec![internal(1, vec![internal(2, vec![leaf(3, "abc")])])],
    };
    assert_eq!(create_lengths_tree(&pointer_container), expected_output);
}

#[test]
fn test_create_lengths_tree_multiple_elements() {
    let pointer_container = vec![
        pointer("abc", vec![1, 2, 3, 5]),
        pointer("abc", vec![1, 16]),
        pointer("fjk", vec![1, 8]),
    ];
    let expected_output = PointerTree {
        entries: vec![internal(
            1,
            vec![
                internal(2, vec![internal(3, vec![leaf(5, "abc")])]),
                leaf(8, "fjk"),
                leaf(16, "abc"),
            ],
        )],
    };
    assert_eq!(create_lengths_tree(&pointer_container), expected_output);
}

#[test]
fn test_create_lengths_tree_empty_input() {
    let pointer_container: Vec<Pointer> = Vec::new();
    let expected_output = PointerTree { entries: Vec::new() };
    assert_eq!(create_lengths_tree(&pointer_container), expected_output);
}

#[test]
fn tree_does_not_depend_on_the_order_of_the_pointers() {
    let forward = vec![
        pointer("abc", vec![1, 2, 3, 5]),
        pointer("abc", vec![1, 16]),
        pointer("fjk", vec![1, 8]),
        pointer("xyz", vec![40]),
    ];
    let mut backward = forward.clone();
    backward.reverse();
    let rotated = vec![forward[2].clone(), forward[3].clone(), forward[0].clone(), forward[1].clone()];
    let tree = create_lengths_tree(&forward);
    assert_eq!(create_lengths_tree(&backward), tree);
    assert_eq!(create_lengths_tree(&rotated), tree);
}

#[test]
fn same_hash_at_two_paths_gives_two_leaves() {
    let tree = create_lengths_tree(&vec![pointer("aa", vec![1]), pointer("aa", vec![9])]);
    assert_eq!(tree, PointerTree { entries: vec![leaf(1, "aa"), leaf(9, "aa")] });
}

#[test]
fn pointer_with_empty_path_is_passed_over() {
    let tree = create_lengths_tree(&vec![pointer("aa", vec![]), pointer("bb", vec![4])]);
    assert_eq!(tree, PointerTree { entries: vec![leaf(4, "bb")] });
}

#[test]
fn later_pointer_takes_the_place_of_an_earlier_one_at_the_same_path() {
    let tree = create_lengths_tree(&vec![pointer("aa", vec![4, 7]), pointer("bb", vec![4, 7])]);
    assert_eq!(tree, PointerTree { entries: vec![internal(4, vec![leaf(7, "bb")])] });
}
