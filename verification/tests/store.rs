//! End-to-end scenarios: insertion, lookup, update, splits, root promotion,
//! persistence, and the tree-shape invariants.

use pagekv::collection::Collection;
use pagekv::dal::{DataAccessLayer, DataAccessLayerConfig};
use pagekv::KvError;

fn fresh(cfg: &DataAccessLayerConfig) -> Collection {
    let dal = DataAccessLayer::new(&[], cfg).unwrap();
    Collection::new("test_collection".to_string(), dal)
}

fn split_config() -> DataAccessLayerConfig {
    // 1.25% and 2.5% of a 4096-byte page: thresholds of 51 and 102 bytes,
    // so a handful of small items already forces splits.
    let mut cfg = DataAccessLayerConfig::default();
    cfg.min_fill_bp = 125;
    cfg.max_fill_bp = 250;
    cfg
}

/// Persist meta and free list, then flatten the image, as a client would at
/// shutdown.
fn save(c: &mut Collection) -> Vec<u8> {
    c.dal.write_freelist().unwrap();
    let m = c.dal.meta;
    c.dal.write_meta(&m).unwrap();
    c.dal.to_bytes()
}

fn reopen(bytes: &[u8], cfg: &DataAccessLayerConfig) -> Collection {
    let dal = DataAccessLayer::new(bytes, cfg).unwrap();
    Collection::new("test_collection".to_string(), dal)
}

/// In-order traversal of the tree, collecting every key.
fn collect_keys(dal: &DataAccessLayer, page: u64, out: &mut Vec<Vec<u8>>) {
    let node = dal.get_node(page).unwrap();
    if node.children.is_empty() {
        for it in &node.items {
            out.push(it.key.clone());
        }
    } else {
        for i in 0..node.items.len() {
            collect_keys(dal, node.children[i], out);
            out.push(node.items[i].key.clone());
        }
        collect_keys(dal, node.children[node.items.len()], out);
    }
}

/// Every page reachable from `page`, and a fan-out check on the way down.
fn collect_pages(dal: &DataAccessLayer, page: u64, out: &mut Vec<u64>) {
    out.push(page);
    let node = dal.get_node(page).unwrap();
    if !node.children.is_empty() {
        assert_eq!(node.children.len(), node.items.len() + 1);
        for child in &node.children {
            collect_pages(dal, *child, out);
        }
    }
}

#[test]
fn s1_empty_tree_insert_and_reopen() {
    let cfg = DataAccessLayerConfig::default();
    let mut c = fresh(&cfg);
    c.put(b"hello", b"world").unwrap();
    assert_eq!(c.find(b"hello").unwrap().value, b"world".to_vec());
    assert_eq!(c.find(b"nope").err(), Some(KvError::NotFound));

    let bytes = save(&mut c);
    let c2 = reopen(&bytes, &cfg);
    assert_eq!(c2.find(b"hello").unwrap().value, b"world".to_vec());
    assert_eq!(c2.find(b"nope").err(), Some(KvError::NotFound));
}

#[test]
fn s2_update_replaces_value() {
    let cfg = DataAccessLayerConfig::default();
    let mut c = fresh(&cfg);
    c.put(b"k", b"v1").unwrap();
    c.put(b"k", b"v2").unwrap();
    assert_eq!(c.find(b"k").unwrap().value, b"v2".to_vec());
    // The second put replaced in place: the tree still holds one item.
    let mut keys = Vec::new();
    collect_keys(&c.dal, c.root_page, &mut keys);
    assert_eq!(keys, vec![b"k".to_vec()]);
}

#[test]
fn s3_ordered_insertion_below_split_threshold() {
    let cfg = DataAccessLayerConfig::default();
    let mut c = fresh(&cfg);
    for i in 1..=6u8 {
        let key = format!("Key{}", i);
        let value = format!("Value{}", i);
        c.put(key.as_bytes(), value.as_bytes()).unwrap();
    }
    for i in 1..=6u8 {
        let key = format!("Key{}", i);
        let value = format!("Value{}", i);
        assert_eq!(c.find(key.as_bytes()).unwrap().value, value.into_bytes());
    }
    // Six small items stay far below the default threshold: one leaf.
    let root = c.dal.get_node(c.root_page).unwrap();
    assert!(root.children.is_empty());
    assert_eq!(root.items.len(), 6);
}

#[test]
fn s4_forced_split() {
    let cfg = split_config();
    let mut c = fresh(&cfg);
    for i in 1..=6u8 {
        let key = format!("Key{}", i);
        let value = format!("Value{}", i);
        c.put(key.as_bytes(), value.as_bytes()).unwrap();
    }
    for i in 1..=6u8 {
        let key = format!("Key{}", i);
        let value = format!("Value{}", i);
        assert_eq!(c.find(key.as_bytes()).unwrap().value, value.into_bytes());
    }
    let root = c.dal.get_node(c.root_page).unwrap();
    assert!(root.items.len() >= 1);
    assert!(root.children.len() >= 2);
}

#[test]
fn s5_root_promotion_and_reopen() {
    let cfg = split_config();
    let mut c = fresh(&cfg);
    let mut inserted: Vec<(Vec<u8>, Vec<u8>)> = Vec::new();

    // Insert until the root page changes: the first root promotion.
    let first_root = {
        let key = b"Key1".to_vec();
        let value = b"Value1".to_vec();
        c.put(&key, &value).unwrap();
        inserted.push((key, value));
        c.root_page
    };
    let mut i = 2u32;
    while c.root_page == first_root {
        assert!(i < 100, "no root promotion after many inserts");
        let key = format!("Key{}", i).into_bytes();
        let value = format!("Value{}", i).into_bytes();
        c.put(&key, &value).unwrap();
        inserted.push((key, value));
        i += 1;
    }

    // The promoted root carries exactly the middle item and its two halves.
    let root = c.dal.get_node(c.root_page).unwrap();
    assert_eq!(root.items.len(), 1);
    assert_eq!(root.children.len(), 2);
    assert_eq!(c.dal.meta.root, c.root_page);

    let bytes = save(&mut c);
    let c2 = reopen(&bytes, &cfg);
    for (key, value) in &inserted {
        assert_eq!(&c2.find(key).unwrap().value, value);
    }
}

#[test]
fn s6_random_keys_stay_sorted_and_findable() {
    let cfg = split_config();
    let mut c = fresh(&cfg);
    // A linear congruential generator gives 1000 distinct 8-byte keys.
    let mut state: u64 = 0x2545F4914F6CDD1D;
    let mut keys: Vec<Vec<u8>> = Vec::new();
    for _ in 0..1000 {
        state = state.wrapping_mul(6364136223846793005).wrapping_add(1442695040888963407);
        let key = state.to_be_bytes().to_vec();
        keys.push(key);
    }
    keys.sort();
    keys.dedup();
    assert_eq!(keys.len(), 1000);

    for key in &keys {
        c.put(key, b"v").unwrap();
    }
    for key in &keys {
        assert_eq!(c.find(key).unwrap().value, b"v".to_vec());
    }
    // An in-order walk yields the keys in strictly increasing order.
    let mut walked = Vec::new();
    collect_keys(&c.dal, c.root_page, &mut walked);
    assert_eq!(walked.len(), keys.len());
    for w in walked.windows(2) {
        assert!(w[0] < w[1]);
    }
    assert_eq!(walked, keys);
}

#[test]
fn fill_discipline_after_puts() {
    let cfg = split_config();
    let mut c = fresh(&cfg);
    for i in 0..80u32 {
        let key = format!("key-{:04}", i);
        let value = format!("value-{:04}", i);
        c.put(key.as_bytes(), value.as_bytes()).unwrap();
    }
    // At rest, no node's estimated size exceeds the maximum threshold.
    let mut pages = Vec::new();
    collect_pages(&c.dal, c.root_page, &mut pages);
    let max_threshold = c.dal.max_threshold();
    for page in &pages {
        let node = c.dal.get_node(*page).unwrap();
        assert!(node.size() <= max_threshold);
    }
}

#[test]
fn freelist_does_not_alias_live_pages() {
    let cfg = split_config();
    let mut c = fresh(&cfg);
    for i in 0..40u32 {
        let key = format!("key-{:04}", i);
        c.put(key.as_bytes(), b"value").unwrap();
    }
    // Park a scratch node on a page of its own, never linked into the tree,
    // and release it.
    let scratch = c.dal.new_node(Vec::new(), Vec::new());
    let mut scratch = scratch;
    scratch.write_node(&mut c.dal).unwrap();
    c.dal.delete_node(scratch.page_num);

    // The released pages (read back through the wire format) are disjoint
    // from every page reachable from the root.
    let bytes = c.dal.freelist.serialize();
    let count = u16::from_le_bytes([bytes[2], bytes[3]]) as usize;
    let mut released = Vec::new();
    for i in 0..count {
        let mut b = [0u8; 8];
        b.copy_from_slice(&bytes[4 + 8 * i..12 + 8 * i]);
        released.push(u64::from_le_bytes(b));
    }
    assert!(released.contains(&scratch.page_num));
    let mut live = Vec::new();
    collect_pages(&c.dal, c.root_page, &mut live);
    for r in &released {
        assert!(!live.contains(r));
    }
    // The next allocation reuses the most recently released page.
    assert_eq!(c.dal.freelist.next_page(), scratch.page_num);
}

#[test]
fn get_nodes_walks_the_recorded_path() {
    let cfg = split_config();
    let mut c = fresh(&cfg);
    for i in 1..=6u8 {
        let key = format!("Key{}", i);
        c.put(key.as_bytes(), b"Value").unwrap();
    }
    // The root is internal after the forced splits: walk to its first child.
    let root = c.dal.get_node(c.root_page).unwrap();
    assert!(root.children.len() >= 2);
    let nodes = c.get_nodes(&[0, 0]).unwrap();
    assert_eq!(nodes.len(), 2);
    assert_eq!(nodes[0].page_num, c.root_page);
    assert_eq!(nodes[1].page_num, root.children[0]);
}

#[test]
fn put_rejects_oversized_items() {
    let cfg = DataAccessLayerConfig::default();
    let mut c = fresh(&cfg);
    let long_key = vec![b'k'; 256];
    assert_eq!(c.put(&long_key, b"v"), Err(KvError::ItemTooLarge));
    let long_value = vec![b'v'; 256];
    assert_eq!(c.put(b"k", &long_value), Err(KvError::ItemTooLarge));
    // A key and value within the byte limits but over a quarter of a tiny
    // page are rejected too.
    let mut small = DataAccessLayerConfig::default();
    small.page_size = 256;
    let mut c2 = fresh(&small);
    assert_eq!(c2.put(&[b'k'; 40], &[b'v'; 40]), Err(KvError::ItemTooLarge));
    // The same item fits a quarter of the default page.
    assert!(c.put(&[b'k'; 40], &[b'v'; 40]).is_ok());
}

#[test]
fn reopening_is_stable() {
    let cfg = split_config();
    let mut c = fresh(&cfg);
    for i in 0..25u32 {
        let key = format!("stable-{:02}", i);
        c.put(key.as_bytes(), b"payload").unwrap();
    }
    let bytes = save(&mut c);
    // Opening the saved image and saving it again writes back the exact
    // same bytes: nothing is re-encoded differently.
    let mut c2 = reopen(&bytes, &cfg);
    let bytes2 = save(&mut c2);
    assert_eq!(bytes, bytes2);
    // And the reopened store answers like the first one.
    for i in 0..25u32 {
        let key = format!("stable-{:02}", i);
        assert_eq!(c2.find(key.as_bytes()).unwrap().value, b"payload".to_vec());
    }
}

#[test]
fn unsplittable_over_populated_node_is_fatal() {
    // A maximum threshold of zero declares every node over-populated, while
    // a minimum threshold of a full page means no prefix ever qualifies as
    // a split point: the insertion surfaces NotSplittable.
    let mut cfg = DataAccessLayerConfig::default();
    cfg.min_fill_bp = 10000;
    cfg.max_fill_bp = 0;
    let mut c = fresh(&cfg);
    // The first insertion creates the root leaf and returns before any
    // rebalancing; the second one finds the root over-populated and fails
    // to split it.
    assert_eq!(c.put(b"k1", b"v"), Ok(()));
    assert_eq!(c.put(b"k2", b"v"), Err(KvError::NotSplittable));
}

#[test]
fn fresh_store_reopens_empty() {
    let cfg = DataAccessLayerConfig::default();
    let mut c = fresh(&cfg);
    let bytes = save(&mut c);
    // Two pages: the meta page and the free-list page.
    assert_eq!(bytes.len(), 2 * cfg.page_size);
    let c2 = reopen(&bytes, &cfg);
    assert_eq!(c2.root_page, 0);
    assert_eq!(c2.find(b"k").err(), Some(KvError::NotFound));
}

#[test]
fn put_on_full_store_is_io_error() {
    let cfg = DataAccessLayerConfig::default();
    let mut c = fresh(&cfg);
    // Drive the allocator's 16-bit watermark to its cap; with nothing
    // released, no page is left to hold the first leaf.
    while c.dal.freelist.can_allocate() {
        c.dal.freelist.next_page();
    }
    assert_eq!(c.put(b"k", b"v"), Err(KvError::IoError));
}

#[test]
fn find_on_empty_tree_is_not_found() {
    let cfg = DataAccessLayerConfig::default();
    let c = fresh(&cfg);
    assert_eq!(c.find(b"anything").err(), Some(KvError::NotFound));
}

#[test]
fn interleaved_updates_and_inserts() {
    let cfg = split_config();
    let mut c = fresh(&cfg);
    for i in 0..30u32 {
        let key = format!("key-{:02}", i);
        c.put(key.as_bytes(), b"first").unwrap();
    }
    for i in 0..30u32 {
        let key = format!("key-{:02}", i);
        c.put(key.as_bytes(), format!("second-{}", i).as_bytes()).unwrap();
    }
    for i in 0..30u32 {
        let key = format!("key-{:02}", i);
        assert_eq!(
            c.find(key.as_bytes()).unwrap().value,
            format!("second-{}", i).into_bytes()
        );
    }
    // Updates did not duplicate keys.
    let mut walked = Vec::new();
    collect_keys(&c.dal, c.root_page, &mut walked);
    assert_eq!(walked.len(), 30);
}
