use block_builder::error::BuildError;
use block_builder::store::{get_block_length, BlockEntry, BlockStore};

fn store() -> BlockStore {
    let mut store = BlockStore::new();
    store.add("aa".to_string(), BlockEntry::File(12));
    store.add("bb".to_string(), BlockEntry::Directory);
    store.add("aa".to_string(), BlockEntry::File(99));
    store
}

#[test]
fn length_of_a_flat_block() {
    assert_eq!(get_block_length(&"aa".to_string(), &store()), Ok(12));
}

#[test]
fn length_of_a_directory_is_not_supported() {
    assert_eq!(
        get_block_length(&"bb".to_string(), &store()),
        Err(BuildError::MultiblockNotSupported)
    );
}

#[test]
fn length_of_a_missing_block() {
    assert_eq!(get_block_length(&"cc".to_string(), &store()), Err(BuildError::BlockNotFound));
    assert_eq!(
        get_block_length(&"aa".to_string(), &BlockStore::new()),
        Err(BuildError::BlockNotFound)
    );
}

#[test]
fn store_tells_what_it_holds() {
    let store = store();
    assert!(store.contains(&"aa".to_string()));
    assert!(store.contains(&"bb".to_string()));
    assert!(!store.contains(&"a".to_string()));
    assert_eq!(store.find(&"bb".to_string()), Some(BlockEntry::Directory));
    assert_eq!(store.find(&"zz".to_string()), None);
}
