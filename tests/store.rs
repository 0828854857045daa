use auradb::btree::manager::BTreeManager;
use auradb::btree::node::{BTreeNode, NodeType};
use auradb::error::StoreError;
use auradb::index::PrimaryIndex;
use auradb::page::{Page, DATA_SIZE, PAGE_SIZE};
use auradb::pager::{Pager, ENCRYPTED_PAGE_SIZE};
use auradb::symmetric::generate_key;

fn file_image(pager: &Pager) -> Vec<u8> {
    let mut out = Vec::new();
    for id in 0..pager.records.len() as u32 {
        out.extend_from_slice(&pager.record(id).unwrap());
    }
    out
}

fn write_root_leaf(pager: &mut Pager, root_id: u32) {
    let root = BTreeNode::new_leaf(root_id);
    let bytes = root.to_bytes().unwrap();
    let mut page = Page::new(root_id);
    page.used_space = bytes.len() as u16;
    page.data[..bytes.len()].copy_from_slice(&bytes);
    pager.write_page(&page).unwrap();
}

#[test]
fn test_transparent_encryption() {
    let master_key = generate_key();
    let mut pager = Pager::open(&[], master_key).unwrap();
    let mut page = Page::new(0);
    page.page_type = 1;
    page.used_space = 42;
    page.data[0..4].copy_from_slice(b"test");
    pager.write_page(&page).unwrap();
    let read_page = pager.read_page(0).unwrap();
    assert_eq!(read_page.id, page.id);
    assert_eq!(read_page.page_type, page.page_type);
    assert_eq!(read_page.used_space, page.used_space);
    assert_eq!(&read_page.data[0..4], b"test");
}

#[test]
fn test_tamper_detection() {
    let master_key = generate_key();
    let mut pager = Pager::open(&[], master_key).unwrap();
    let page = Page::new(0);
    pager.write_page(&page).unwrap();
    pager.records[0][ENCRYPTED_PAGE_SIZE - 5..].copy_from_slice(b"XXXXX");
    let result = pager.read_page(0);
    assert!(matches!(result, Err(StoreError::Tampered(_))));
}

#[test]
fn test_different_keys_produce_different_ciphertext() {
    let master_key1 = generate_key();
    let master_key2 = generate_key();
    let mut page = Page::new(0);
    page.data[0..4].copy_from_slice(b"test");

    let mut pager1 = Pager::open(&[], master_key1).unwrap();
    pager1.write_page(&page).unwrap();
    let encrypted_data1 = file_image(&pager1);

    let mut pager2 = Pager::open(&[], master_key2).unwrap();
    pager2.write_page(&page).unwrap();
    let encrypted_data2 = file_image(&pager2);

    assert_ne!(encrypted_data1, encrypted_data2);
    assert_eq!(encrypted_data1.len(), ENCRYPTED_PAGE_SIZE);
    assert_eq!(encrypted_data2.len(), ENCRYPTED_PAGE_SIZE);
    assert!(!encrypted_data1.windows(4).any(|w| w == b"test"));
    assert!(!encrypted_data2.windows(4).any(|w| w == b"test"));

    // Each file reads back under its own key and not under the other.
    let reopened1 = Pager::open(&encrypted_data1, master_key1).unwrap();
    assert_eq!(&reopened1.read_page(0).unwrap().data[0..4], b"test");
    let crossed = Pager::open(&encrypted_data1, master_key2).unwrap();
    assert!(matches!(crossed.read_page(0), Err(StoreError::Tampered(0))));
}

#[test]
fn test_btree_basic_operations() {
    let master_key = generate_key();
    let mut pager = Pager::open(&[], master_key).unwrap();
    let root_id = 1;
    write_root_leaf(&mut pager, root_id);
    let mut btree = BTreeManager::new(&mut pager, root_id);
    btree.insert("user_123".to_string(), 42).unwrap();
    let result = btree.search("user_123").unwrap();
    assert_eq!(result, Some(42));
    let result = btree.search("user_999").unwrap();
    assert_eq!(result, None);
}

#[test]
fn test_btree_split_and_growth() {
    let key = generate_key();
    let mut pager = Pager::open(&[], key).unwrap();
    let root_id = pager.allocate_page();
    write_root_leaf(&mut pager, root_id);
    let mut btree = BTreeManager::new(&mut pager, root_id);
    for i in 0..60 {
        let key = format!("user_{:03}", i);
        btree.insert(key, i + 100).expect("Insert failed");
    }
    let res1 = btree.search("user_005").unwrap();
    let res2 = btree.search("user_055").unwrap();
    assert_eq!(res1, Some(105));
    assert_eq!(res2, Some(155));
    assert_eq!(btree.search("user_999").unwrap(), None);

    // The root split: the new root is internal, with one key and two children.
    assert_ne!(btree.root_id, root_id);
    let root_page = btree.pager.read_page(btree.root_id).unwrap();
    let used = &root_page.data[..root_page.used_space as usize];
    let root = BTreeNode::from_bytes(used).unwrap();
    assert_eq!(root.node_type, NodeType::Internal);
    assert_eq!(root.keys.len(), 1);
    assert_eq!(root.children.len(), 2);
    assert!(root.parent.is_none());
}

#[test]
fn btree_every_inserted_key_found_and_nodes_in_shape() {
    let mut pager = Pager::open(&[], generate_key()).unwrap();
    let root_id = pager.allocate_page();
    write_root_leaf(&mut pager, root_id);
    let mut btree = BTreeManager::new(&mut pager, root_id);
    for i in 0..400u32 {
        let k = format!("k{:05}", (i * 7919) % 400);
        btree.insert(k, i).unwrap();
    }
    for i in 0..400u32 {
        let k = format!("k{:05}", (i * 7919) % 400);
        assert_eq!(btree.search(&k).unwrap(), Some(i));
    }
    assert_eq!(btree.search("zzz").unwrap(), None);
    let total = btree.pager.total_pages();
    for id in 1..total {
        let page = btree.pager.read_page(id).unwrap();
        let node = BTreeNode::from_bytes(&page.data[..page.used_space as usize]).unwrap();
        assert!(node.keys.len() <= 50);
        match node.node_type {
            NodeType::Leaf => assert_eq!(node.children.len(), node.keys.len()),
            NodeType::Internal => assert_eq!(node.children.len(), node.keys.len() + 1),
        }
    }
}

#[test]
fn btree_reinsert_replaces_value() {
    let mut pager = Pager::open(&[], generate_key()).unwrap();
    write_root_leaf(&mut pager, 1);
    let mut btree = BTreeManager::new(&mut pager, 1);
    btree.insert("a".to_string(), 1).unwrap();
    btree.insert("a".to_string(), 2).unwrap();
    assert_eq!(btree.search("a").unwrap(), Some(2));
}

#[test]
fn read_page_past_end_and_unwritten() {
    let mut pager = Pager::open(&[], generate_key()).unwrap();
    assert!(matches!(pager.read_page(0), Err(StoreError::PageNotFound(0))));
    assert_eq!(pager.allocate_page(), 1);
    assert_eq!(pager.allocate_page(), 2);
    assert!(matches!(pager.read_page(1), Err(StoreError::Io(_))));
    assert!(matches!(pager.read_page(5), Err(StoreError::PageNotFound(5))));
}

#[test]
fn every_flipped_bit_is_detected() {
    let mut pager = Pager::open(&[], generate_key()).unwrap();
    pager.write_page(&Page::new(0)).unwrap();
    let clean = pager.records[0].clone();
    for byte in [0usize, 23, 24, 2000, 4119, 4120, 4135] {
        for bit in [0u8, 7] {
            pager.records[0] = clean.clone();
            pager.records[0][byte] ^= 1 << bit;
            assert!(matches!(pager.read_page(0), Err(StoreError::Tampered(0))));
        }
    }
}

#[test]
fn open_rejects_partial_records_and_loads_index() {
    let key = generate_key();
    assert!(matches!(
        Pager::open(&[0u8; 100], key),
        Err(StoreError::Serialization(_))
    ));
    let mut pager = Pager::open(&[], key).unwrap();
    pager.index.insert("user_1".to_string(), 3);
    pager.sync_index().unwrap();
    assert!(!pager.index.dirty);
    let image = file_image(&pager);
    let reopened = Pager::open(&image, key).unwrap();
    assert_eq!(reopened.index.get("user_1"), Some(3));
    assert_eq!(reopened.total_pages(), 1);
    // Under another key page 0 does not open: the index starts empty.
    let other = Pager::open(&image, generate_key()).unwrap();
    assert_eq!(other.index.get("user_1"), None);
}

#[test]
fn page_image_round_trip() {
    let mut page = Page::new(9);
    page.page_type = 2;
    page.used_space = 3997;
    page.next_page = 0x01020304;
    page.reserved[5] = 77;
    page.data[3996] = 1;
    let image = page.to_image();
    assert_eq!(image.len(), PAGE_SIZE);
    assert_eq!(&image[0..4], &[9, 0, 0, 0]);
    assert_eq!(image[4], 2);
    assert_eq!(&image[5..7], &[0x9d, 0x0f]);
    assert_eq!(&image[7..11], &[4, 3, 2, 1]);
    let back = Page::from_image(&image);
    assert_eq!(back.id, 9);
    assert_eq!(back.used_space, 3997);
    assert_eq!(back.next_page, 0x01020304);
    assert_eq!(back.reserved, page.reserved);
    assert_eq!(back.data, page.data);
    assert_eq!(back.data.len(), DATA_SIZE);
}

#[test]
fn index_bytes_round_trip_and_order() {
    let mut ix = PrimaryIndex::new();
    ix.insert("b".to_string(), 2);
    ix.insert("a".to_string(), 1);
    ix.insert("b".to_string(), 5);
    assert!(ix.dirty);
    assert_eq!(ix.keys, vec!["a".to_string(), "b".to_string()]);
    assert_eq!(ix.get("b"), Some(5));
    assert_eq!(ix.get("c"), None);
    let bytes = ix.to_bytes().unwrap();
    assert_eq!(bytes, vec![2, 0, 0, 0, 1, 0, 0, 0, b'a', 1, 0, 0, 0, 1, 0, 0, 0, b'b', 5, 0, 0, 0]);
    let back = PrimaryIndex::from_bytes(&bytes).unwrap();
    assert_eq!(back.keys, ix.keys);
    assert_eq!(back.pages, ix.pages);
    assert!(!back.dirty);
    assert!(PrimaryIndex::from_bytes(&[1, 0, 0]).is_err());
}

#[test]
fn default_index_is_empty_and_clean() {
    let ix = PrimaryIndex::default();
    assert!(ix.keys.is_empty());
    assert!(!ix.dirty);
    assert_eq!(ix.get("anything"), None);
}

#[test]
fn test_database_initialization() {
    let key = generate_key();
    let pager = Pager::open(&[], key);
    assert!(pager.is_ok());
}
