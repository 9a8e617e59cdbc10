use bplus_index::codec::{ByteSerialize, BLOCK_SIZE};
use bplus_index::file_store::FileStore;
use bplus_index::node::{insert_into_array, InsertionResult, Node};
use bplus_index::node_store::NodeStoreError;
use bplus_index::second_chance_cache::Cache;

fn node(keys: &[i64], vals: &[i32], fanout: usize) -> Node {
    let mut separators = vec![0i64; fanout];
    let mut children = vec![0i32; fanout];
    separators[..keys.len()].copy_from_slice(keys);
    children[..vals.len()].copy_from_slice(vals);
    Node { separators, children, size: keys.len() }
}

#[test]
fn node_round_trips_through_a_block() {
    let n = node(&[-9, -1, 3, i64::MAX], &[7, -2, 0, i32::MIN], 4);
    let bytes = n.to_bytes();
    assert_eq!(bytes.len(), BLOCK_SIZE);
    let m = Node::from_bytes(&bytes, 4);
    assert_eq!(m.separators, n.separators);
    assert_eq!(m.children, n.children);
    assert_eq!(m.size, 4);
}

#[test]
fn block_layout_is_little_endian() {
    let n = node(&[0x0102030405060708, -2], &[0x0a0b0c0d, -1], 4);
    let b = n.to_bytes();
    assert_eq!(&b[0..8], &[8, 7, 6, 5, 4, 3, 2, 1]);
    assert_eq!(&b[8..16], &[0xfe, 0xff, 0xff, 0xff, 0xff, 0xff, 0xff, 0xff]);
    assert_eq!(&b[16..32], &[0u8; 16]);
    assert_eq!(&b[32..36], &[0x0d, 0x0c, 0x0b, 0x0a]);
    assert_eq!(&b[36..40], &[0xff, 0xff, 0xff, 0xff]);
    assert!(b[40..].iter().all(|x| *x == 0));
}

#[test]
fn decoded_size_counts_leading_nonzero_keys() {
    let n = node(&[4, 5], &[1, 2], 6);
    let m = Node::from_bytes(&n.to_bytes(), 6);
    assert_eq!(m.size, 2);
    let empty = Node::from_bytes(&vec![0u8; BLOCK_SIZE], 10);
    assert_eq!(empty.size, 0);
    assert_eq!(empty.separators, vec![0i64; 10]);
}

#[test]
fn cascade_stops_at_first_empty_slot() {
    let mut a = vec![1i64, 3, 5, 0, 0, 9];
    assert_eq!(insert_into_array(&mut a, 6, 1, 2, 0), None);
    assert_eq!(a, vec![1, 2, 3, 5, 0, 9]);
}

#[test]
fn cascade_returns_overflow_of_full_window() {
    let mut a = vec![1i64, 3, 5, 7, 0];
    assert_eq!(insert_into_array(&mut a, 4, 2, 4, 0), Some(7));
    assert_eq!(a, vec![1, 3, 4, 5, 0]);
    let mut b = vec![1i64, 3];
    assert_eq!(insert_into_array(&mut b, 2, 2, 9, 0), Some(9));
    assert_eq!(b, vec![1, 3]);
}

#[test]
fn cache_evicts_when_full() {
    let mut c = Cache::with_capacity(2);
    assert_eq!(c.len(), 0);
    assert!(c.cache_node(1, node(&[1], &[1], 4)).is_none());
    assert!(c.cache_node(2, node(&[2], &[2], 4)).is_none());
    assert!(c.has_node(1));
    assert!(!c.has_node(3));
    let evicted = c.cache_node(3, node(&[3], &[3], 4)).unwrap();
    assert!(evicted.0 == 1 || evicted.0 == 2);
    assert_eq!(evicted.1.separators[0], evicted.0 as i64);
    assert_eq!(c.len(), 2);
    assert!(c.has_node(3));
    assert!(!c.has_node(evicted.0));
}

#[test]
fn second_chance_spares_the_entry_just_used() {
    let mut c = Cache::with_capacity(2);
    c.cache_node(1, node(&[1], &[1], 4));
    c.cache_node(2, node(&[2], &[2], 4));
    for _ in 0..5 {
        assert_eq!(c.get_node(1).unwrap().separators[0], 1);
    }
    let evicted = c.cache_node(3, node(&[3], &[3], 4)).unwrap();
    assert_eq!(evicted.0, 2);
    assert!(c.has_node(1));
}

#[test]
fn cache_get_and_drain() {
    let mut c = Cache::new();
    assert!(c.get_node(5).is_none());
    c.cache_node(5, node(&[5, 6], &[50, 60], 4));
    c.cache_node(6, node(&[7], &[70], 4));
    let n = c.get_node(5).unwrap();
    assert_eq!(n.children[1], 60);
    let mut drained: Vec<i32> = c.drain().iter().map(|i| i.ident).collect();
    drained.sort();
    assert_eq!(drained, vec![5, 6]);
    assert_eq!(c.len(), 0);
    assert!(!c.has_node(5));
}

#[test]
fn store_allocates_signed_identifiers() {
    let mut s = FileStore::new(4, 2);
    let leaf = s.store_node(node(&[1, 2], &[10, 20], 4), true).unwrap();
    let inner = s.store_node(node(&[5], &[1, 1], 4), false).unwrap();
    assert_eq!(leaf, 1);
    assert_eq!(inner, -2);
    assert_eq!(s.node_ctr(), 2);
    assert_eq!(s.image().len(), 3 * BLOCK_SIZE);
    assert_eq!(s.get_node(1).unwrap().size, 2);
    assert_eq!(s.get_node(-2).unwrap().size, 1);
    assert_eq!(s.get_node(3).err(), Some(NodeStoreError::InvalidReference));
    assert_eq!(s.get_node(0).err(), Some(NodeStoreError::InvalidReference));
    assert_eq!(s.get_block(3).err(), Some(NodeStoreError::InvalidReference));
}

#[test]
fn store_decodes_what_the_algorithms_refuse() {
    let mut s = FileStore::new(4, 2);
    let full = s.store_node(node(&[1, 2, 3, 4], &[1, 2, 3, 4], 4), true).unwrap();
    let as_inner = s.get_node(-full).unwrap();
    assert_eq!(as_inner.separators, vec![1, 2, 3, 4]);
    assert_eq!(as_inner.size, 4);
    assert_eq!(Node::search(-full, 2, &mut s), Err(NodeStoreError::ReadFailed));
    assert_eq!(Node::search(full, 2, &mut s), Ok(Some(2)));

    let mut t = FileStore::new(4, 2);
    t.store_node(node(&[5], &[50], 4), true).unwrap();
    let unsorted = node(&[3, 1], &[1, 2], 4);
    let mut bytes = unsorted.to_bytes();
    assert_eq!(t.set_block(1, &bytes), Ok(()));
    let read = t.get_node(1).unwrap();
    assert_eq!(read.separators, vec![3, 1, 0, 0]);
    assert_eq!(read.size, 2);
    assert_eq!(Node::search(1, 3, &mut t), Err(NodeStoreError::ReadFailed));
    assert_eq!(Node::insert(1, 7, 7, &mut t), InsertionResult::InsertError(NodeStoreError::ReadFailed));
    bytes[0] = 9;
    assert_eq!(t.set_block(5, &bytes), Err(NodeStoreError::WriteFailed));
}

#[test]
fn recaching_a_node_replaces_it_without_eviction() {
    let mut c = Cache::with_capacity(2);
    c.cache_node(1, node(&[1], &[1], 4));
    c.cache_node(2, node(&[2], &[2], 4));
    assert!(c.cache_node(1, node(&[9], &[9], 4)).is_none());
    assert_eq!(c.len(), 2);
    assert_eq!(c.get_node(1).unwrap().separators[0], 9);
    assert!(c.has_node(2));
}

#[test]
fn cache_writes_back_evicted_nodes() {
    let mut s = FileStore::new(4, 1);
    let a = s.store_node(node(&[1], &[10], 4), true).unwrap();
    let b = s.store_node(node(&[2], &[20], 4), true).unwrap();
    let mut n = s.get_node(a).unwrap();
    n.separators[1] = 5;
    n.children[1] = 50;
    n.size = 2;
    s.put_node(a, n);
    assert_eq!(s.get_node(b).unwrap().separators[0], 2);
    let back = s.get_node(a).unwrap();
    assert_eq!(back.separators[..2], [1, 5]);
    assert_eq!(back.children[..2], [10, 50]);
}

#[test]
fn node_insert_reports_overflow_to_the_caller() {
    let mut s = FileStore::new(4, 4);
    let leaf = s.store_node(node(&[10, 20, 30, 40], &[1, 2, 3, 4], 4), true).unwrap();
    match Node::insert(leaf, 25, 9, &mut s) {
        InsertionResult::NodeOverflow(sep, right) => {
            assert_eq!(sep, 25);
            assert!(right > 0);
            let r = s.get_node(right).unwrap();
            assert_eq!(r.separators[..3], [25, 30, 40]);
            assert_eq!(r.children[..3], [9, 3, 4]);
            let l = s.get_node(leaf).unwrap();
            assert_eq!(l.separators, vec![10, 20, 0, 0]);
            assert_eq!(l.size, 2);
        }
        other => panic!("unexpected {:?}", other),
    }
    assert_eq!(Node::insert(leaf, 20, 1, &mut s), InsertionResult::DuplicateKey);
    assert_eq!(Node::insert(leaf, 0, 1, &mut s), InsertionResult::ZeroKey);
    assert_eq!(Node::search(leaf, 10, &mut s), Ok(Some(1)));
    assert_eq!(Node::search(leaf, 11, &mut s), Ok(None));
}

#[test]
fn inner_node_renders_as_record_with_edges() {
    let n = node(&[15, -3], &[1, 2, 3], 4);
    let n = Node { size: 1, ..n };
    assert_eq!(n.to_graphviz(&-7), "-7 [shape=record,label=\"<sep0> | 15 | <sep1> \"];\n-7:sep0 -> 1;\n-7:sep1 -> 2;");
}

#[test]
fn leaf_renders_as_record_of_keys() {
    let n = node(&[-5, 10, 15], &[1, 2, 3], 4);
    assert_eq!(n.to_graphviz(&3), "3 [shape=record, label=\"{ -5 } | { 10 } | { 15 }\"];");
    let empty = node(&[], &[], 4);
    assert_eq!(empty.to_graphviz(&1), "1 [shape=record, label=\"\"];");
}
