//! Round trips of the three on-disk encodings, and the error cases of the
//! decoders.

use pagekv::dal::{DataAccessLayer, DataAccessLayerConfig, Freelist, Meta, Page};
use pagekv::node::{Item, Node};
use pagekv::KvError;

#[test]
fn node_codec_round_trip() {
    let mut node = Node::new();
    node.items.push(Item::new(b"hello".to_vec(), b"world".to_vec()));
    node.children.push(5u64);
    node.children.push(8u64);

    let mut buffer = vec![0u8; 256];
    node.serialize(&mut buffer).unwrap();

    let mut n2 = Node::new();
    n2.deserialize(&buffer).unwrap();

    assert_eq!(n2.items.len(), 1);
    assert_eq!(n2.items[0].key, b"hello".to_vec());
    assert_eq!(n2.items[0].value, b"world".to_vec());
    assert_eq!(n2.children, vec![5u64, 8u64]);
}

#[test]
fn node_codec_round_trip_leaf_many_items() {
    let mut node = Node::new();
    for i in 0..20u8 {
        let key = vec![b'k', i];
        let value = vec![b'v', i, i];
        node.items.push(Item::new(key, value));
    }
    let mut buffer = vec![0u8; 4096];
    node.serialize(&mut buffer).unwrap();

    let mut n2 = Node::new();
    n2.deserialize(&buffer).unwrap();
    assert_eq!(n2.items.len(), 20);
    for i in 0..20u8 {
        assert_eq!(n2.items[i as usize].key, vec![b'k', i]);
        assert_eq!(n2.items[i as usize].value, vec![b'v', i, i]);
    }
    assert!(n2.children.is_empty());
}

#[test]
fn node_codec_round_trip_empty_leaf() {
    let node = Node::new();
    let mut buffer = vec![0u8; 64];
    node.serialize(&mut buffer).unwrap();

    let mut n2 = Node::new();
    n2.deserialize(&buffer).unwrap();
    assert!(n2.items.is_empty());
    assert!(n2.children.is_empty());
}

#[test]
fn node_decoder_rejects_garbage() {
    let mut n = Node::new();
    // A leaf flag with a huge item count overruns the buffer.
    let garbage = vec![0xffu8; 64];
    assert_eq!(n.deserialize(&garbage), Err(KvError::MalformedPage));
    let short = vec![1u8, 2u8];
    assert_eq!(n.deserialize(&short), Err(KvError::MalformedPage));
}

#[test]
fn meta_round_trip() {
    let mut m = Meta::new();
    m.root = 7;
    m.freelist_page = 3;
    let bytes = m.serialize();
    assert_eq!(bytes.len(), 16);

    let mut m2 = Meta::new();
    m2.deserialize(&bytes).unwrap();
    assert_eq!(m2.root, 7);
    assert_eq!(m2.freelist_page, 3);
}

#[test]
fn meta_decoder_rejects_short_buffer() {
    let mut m = Meta::new();
    assert_eq!(m.deserialize(&[0u8; 15]), Err(KvError::MalformedPage));
}

#[test]
fn freelist_lifo_and_round_trip() {
    let mut f = Freelist::new();
    // Grow the watermark, then release two pages and watch them come back
    // most-recent-first.
    let p1 = f.next_page();
    let p2 = f.next_page();
    let p3 = f.next_page();
    assert_eq!((p1, p2, p3), (1, 2, 3));
    f.release_page(p1);
    f.release_page(p3);

    let bytes = f.serialize();
    let mut f2 = Freelist::new();
    f2.deserialize(&bytes).unwrap();

    assert_eq!(f2.next_page(), 3);
    assert_eq!(f2.next_page(), 1);
    // Nothing released is left, so the watermark grows.
    assert_eq!(f2.next_page(), 4);
}

#[test]
fn freelist_never_returns_zero() {
    let mut f = Freelist::new();
    for _ in 0..100 {
        assert_ne!(f.next_page(), 0);
    }
}

#[test]
fn freelist_decoder_rejects_overrunning_count() {
    let mut buf = vec![0u8; 16];
    // max_page = 1, count = 200: the pages would overrun the buffer.
    buf[0] = 1;
    buf[2] = 200;
    let mut f = Freelist::new();
    assert_eq!(f.deserialize(&buf), Err(KvError::MalformedPage));
}

#[test]
fn write_page_grows_image_and_read_page_returns_it() {
    let cfg = DataAccessLayerConfig::default();
    let mut dal = DataAccessLayer::new(&[], &cfg).unwrap();
    let mut data = vec![0u8; cfg.page_size];
    data[0] = 42;
    let pg = Page { num: 5, data };
    dal.write_page(&pg).unwrap();
    let back = dal.read_page(5).unwrap();
    assert_eq!(back.data[0], 42);
    assert_eq!(back.data.len(), cfg.page_size);
    // Page 3 was never written: it reads back as zeros.
    let zero = dal.read_page(3).unwrap();
    assert!(zero.data.iter().all(|b| *b == 0));
}

#[test]
fn read_page_out_of_range_is_io_error() {
    let cfg = DataAccessLayerConfig::default();
    let dal = DataAccessLayer::new(&[], &cfg).unwrap();
    assert_eq!(dal.read_page(100).err(), Some(KvError::IoError));
}

#[test]
fn open_rejects_uneven_image() {
    let cfg = DataAccessLayerConfig::default();
    let bytes = vec![0u8; 100];
    assert!(matches!(
        DataAccessLayer::new(&bytes, &cfg),
        Err(KvError::IoError)
    ));
}

#[test]
fn get_node_on_garbage_page_is_malformed() {
    let cfg = DataAccessLayerConfig::default();
    let mut dal = DataAccessLayer::new(&[], &cfg).unwrap();
    let pg = Page { num: 9, data: vec![0xff; cfg.page_size] };
    dal.write_page(&pg).unwrap();
    assert_eq!(dal.get_node(9).err(), Some(KvError::MalformedPage));
}

#[test]
fn get_split_index_rejects_tiny_node() {
    let cfg = DataAccessLayerConfig::default();
    let dal = DataAccessLayer::new(&[], &cfg).unwrap();
    let mut node = Node::new();
    node.items.push(Item::new(b"a".to_vec(), b"b".to_vec()));
    assert_eq!(dal.get_split_index(&node).err(), Some(KvError::NotSplittable));
}

#[test]
fn size_estimator_formula() {
    let mut node = Node::new();
    node.items.push(Item::new(b"abc".to_vec(), b"de".to_vec()));
    node.items.push(Item::new(b"x".to_vec(), b"yz".to_vec()));
    // 3 (header) + (3 + 2 + 8) + (1 + 2 + 8) + 8 (trailing pointer)
    assert_eq!(node.size(), 3 + 13 + 11 + 8);
    assert_eq!(node.element_size(0), 13);
    assert_eq!(node.element_size(1), 11);
}

#[test]
fn population_thresholds_on_nodes() {
    let cfg = DataAccessLayerConfig::default();
    let dal = DataAccessLayer::new(&[], &cfg).unwrap();
    let mut small = Node::new();
    small.items.push(Item::new(b"a".to_vec(), b"b".to_vec()));
    assert!(dal.is_under_populated(&small));
    assert!(!dal.is_over_populated(&small));

    let mut big = Node::new();
    for i in 0..200u8 {
        big.items.push(Item::new(vec![b'k'; 5], vec![i; 10]));
    }
    // 3 + 200 × (5 + 10 + 8) + 8 = 4611 bytes: over 95% of the page.
    assert!(!dal.is_under_populated(&big));
    assert!(dal.is_over_populated(&big));
}

#[test]
fn thresholds_from_basis_points() {
    let cfg = DataAccessLayerConfig::default();
    let dal = DataAccessLayer::new(&[], &cfg).unwrap();
    // 95% and 50% of a 4096-byte page.
    assert_eq!(dal.max_threshold(), 3891);
    assert_eq!(dal.min_threshold(), 2048);
}
