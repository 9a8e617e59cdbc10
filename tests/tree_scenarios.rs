use bplus_index::node::{InsertionResult, Node, NodeIdent, SearchKey};
use bplus_index::tree::{Tree, TreeCreationError};

fn value_of(key: SearchKey) -> NodeIdent {
    (key * 3 + 7) as NodeIdent
}

fn build(fanout: usize, cache: usize, keys: &[SearchKey]) -> Tree {
    let mut t = Tree::new(fanout, cache).unwrap();
    for &k in keys {
        assert_eq!(t.insert(k, value_of(k)), InsertionResult::Inserted);
    }
    t
}

fn live_keys(n: &Node) -> Vec<SearchKey> {
    n.separators[..n.size].to_vec()
}

/// Walks the tree and checks ordering, occupancy, routing and identifier
/// signs; returns the keys found in the leaves, in order.
fn check_structure(t: &mut Tree, fanout: usize) -> Vec<SearchKey> {
    let mut out = Vec::new();
    let root = t.root();
    walk(t, root, None, None, true, fanout, &mut out);
    out
}

fn walk(
    t: &mut Tree,
    id: NodeIdent,
    lo: Option<SearchKey>,
    hi: Option<SearchKey>,
    is_root: bool,
    fanout: usize,
    out: &mut Vec<SearchKey>,
) -> usize {
    let n = t.read_node(id).unwrap();
    let keys = live_keys(&n);
    for w in keys.windows(2) {
        assert!(w[0] < w[1]);
    }
    for &k in &keys {
        assert!(k != 0);
        if let Some(l) = lo {
            assert!(k >= l);
        }
        if let Some(h) = hi {
            assert!(k < h);
        }
    }
    if id > 0 {
        if !is_root {
            assert!(n.size >= fanout / 2 && n.size <= fanout);
        }
        out.extend(keys.iter().copied());
        0
    } else {
        assert!(n.size + 1 <= fanout);
        if !is_root {
            assert!(n.size + 1 >= fanout / 2);
        }
        let mut height = None;
        for i in 0..=n.size {
            let clo = if i == 0 { lo } else { Some(keys[i - 1]) };
            let chi = if i == n.size { hi } else { Some(keys[i]) };
            let h = walk(t, n.children[i], clo, chi, false, fanout, out);
            if let Some(prev) = height {
                assert_eq!(prev, h);
            }
            height = Some(h);
        }
        height.unwrap() + 1
    }
}

#[test]
fn single_leaf_holds_three_keys() {
    let mut t = build(4, 4, &[5, 10, 15]);
    assert!(t.root() > 0);
    let root = t.root();
    let n = t.read_node(root).unwrap();
    assert_eq!(n.size, 3);
    assert_eq!(t.search(10).unwrap(), Some(value_of(10)));
    assert_eq!(t.search(11).unwrap(), None);
}

#[test]
fn fifth_key_splits_the_leaf() {
    let mut t = build(4, 4, &[5, 10, 15, 20]);
    let root = t.root();
    assert_eq!(t.read_node(root).unwrap().size, 4);
    assert_eq!(t.insert(25, value_of(25)), InsertionResult::Inserted);
    let root = t.root();
    assert_eq!(root, -3);
    let r = t.read_node(root).unwrap();
    assert_eq!(r.separators, vec![15, 0, 0, 0]);
    assert_eq!(r.children, vec![1, 2, 0, 0]);
    let left = t.read_node(r.children[0]).unwrap();
    let right = t.read_node(r.children[1]).unwrap();
    assert!(r.children[0] > 0 && r.children[1] > 0);
    assert_eq!(left.separators, vec![5, 10, 0, 0]);
    assert_eq!(left.children, vec![value_of(5), value_of(10), 0, 0]);
    assert_eq!(right.separators, vec![15, 20, 25, 0]);
    assert_eq!(right.children, vec![value_of(15), value_of(20), value_of(25), 0]);
    for k in [5, 10, 15, 20, 25] {
        assert_eq!(t.search(k).unwrap(), Some(value_of(k)));
    }
}

#[test]
fn twenty_ascending_keys() {
    let keys: Vec<SearchKey> = (1..=20).collect();
    let mut t = build(4, 4, &keys);
    assert!(t.root() < 0);
    for &k in &keys {
        assert_eq!(t.search(k).unwrap(), Some(value_of(k)));
    }
    for k in [-5, 0, 21, 22, 100, i64::MIN, i64::MAX] {
        assert_eq!(t.search(k).unwrap(), None);
    }
    assert_eq!(check_structure(&mut t, 4), keys);
}

#[test]
fn twenty_keys_survive_save_and_load() {
    let keys: Vec<SearchKey> = (1..=20).collect();
    let mut t = build(4, 4, &keys);
    t.save();
    let image = t.image().clone();
    let mut u = Tree::load(image, 4, 4).unwrap();
    for &k in &keys {
        assert_eq!(u.search(k).unwrap(), Some(value_of(k)));
    }
    assert_eq!(u.search(21).unwrap(), None);
}

#[test]
fn saved_image_does_not_depend_on_cache_size() {
    let keys: Vec<SearchKey> = (1..=100).collect();
    let mut a = build(4, 4, &keys);
    let mut b = build(4, 128, &keys);
    a.save();
    b.save();
    assert_eq!(a.image(), b.image());
}

#[test]
fn zero_key_is_refused() {
    let mut t = build(4, 4, &[1, 2]);
    assert_eq!(t.insert(0, 9), InsertionResult::ZeroKey);
    assert_eq!(t.search(0).unwrap(), None);
    assert_eq!(t.search(1).unwrap(), Some(value_of(1)));
}

#[test]
fn thousand_keys_with_smallest_fanout() {
    let keys: Vec<SearchKey> = (1..=1000).map(|i: i64| (i * 7919) % 100_003 - 50_000).collect();
    let mut sorted = keys.clone();
    sorted.sort();
    sorted.dedup();
    assert_eq!(sorted.len(), keys.len());
    assert!(!keys.contains(&0));
    let mut t = build(4, 4, &keys);
    for &k in &keys {
        assert_eq!(t.search(k).unwrap(), Some(value_of(k)));
    }
    assert_eq!(t.search(0).unwrap(), None);
    assert_eq!(t.search(50_001).unwrap(), None);
    assert_eq!(check_structure(&mut t, 4), sorted);
}

#[test]
fn ascending_and_descending_orders() {
    let up: Vec<SearchKey> = (1..=300).collect();
    let down: Vec<SearchKey> = (1..=300).rev().collect();
    for keys in [up, down] {
        for fanout in [4, 6, 10] {
            let mut t = build(fanout, 3, &keys);
            for k in 1..=300 {
                assert_eq!(t.search(k).unwrap(), Some(value_of(k)));
            }
            assert_eq!(t.search(301).unwrap(), None);
            assert_eq!(check_structure(&mut t, fanout), (1..=300).collect::<Vec<SearchKey>>());
        }
    }
}

#[test]
fn repeated_key_is_a_duplicate() {
    let mut t = build(4, 4, &[1, 2, 3, 4, 5, 6, 7]);
    for attempt in 0..5 {
        assert_eq!(t.insert(4, 1000 + attempt), InsertionResult::DuplicateKey);
        assert_eq!(t.search(4).unwrap(), Some(value_of(4)));
    }
    for k in 1..=7 {
        assert_eq!(t.insert(k, 0), InsertionResult::DuplicateKey);
    }
}

#[test]
fn reopen_with_other_parameters_fails() {
    let keys: Vec<SearchKey> = (1..=30).collect();
    let mut t = build(4, 4, &keys);
    t.save();
    let image = t.image().clone();
    assert_eq!(Tree::load(image.clone(), 6, 4).err(), Some(TreeCreationError::ParameterMismatch));
    let mut other_block = image.clone();
    other_block[8] = 0;
    other_block[9] = 1;
    assert_eq!(Tree::load(other_block, 4, 4).err(), Some(TreeCreationError::ParameterMismatch));
    let mut other_key = image.clone();
    other_key[24] = 4;
    assert_eq!(Tree::load(other_key, 4, 4).err(), Some(TreeCreationError::ParameterMismatch));
    let truncated = image[..image.len() - 1].to_vec();
    assert_eq!(Tree::load(truncated, 4, 4).err(), Some(TreeCreationError::IOError));
    assert_eq!(Tree::load(vec![0u8; 10], 4, 4).err(), Some(TreeCreationError::IOError));
    assert!(Tree::load(image, 4, 1).is_ok());
}

#[test]
fn invalid_parameters_are_refused() {
    assert_eq!(Tree::new(3, 4).err(), Some(TreeCreationError::ParameterMismatch));
    assert_eq!(Tree::new(2, 4).err(), Some(TreeCreationError::ParameterMismatch));
    assert_eq!(Tree::new(12, 4).err(), Some(TreeCreationError::ParameterMismatch));
    assert_eq!(Tree::new(4, 0).err(), Some(TreeCreationError::ParameterMismatch));
    assert!(Tree::new(10, 1).is_ok());
}

#[test]
fn cache_size_does_not_change_results() {
    let keys: Vec<SearchKey> = (1..=400).map(|i: i64| ((i * 37) % 401) * if i % 2 == 0 { 1 } else { -1 }).collect();
    let mut small = Tree::new(6, 1).unwrap();
    let mut large = Tree::new(6, 1000).unwrap();
    for &k in &keys {
        assert_eq!(small.insert(k, value_of(k)), large.insert(k, value_of(k)));
    }
    for k in -450..450 {
        assert_eq!(small.search(k).unwrap(), large.search(k).unwrap());
    }
    small.save();
    large.save();
    assert_eq!(small.image(), large.image());
}

#[test]
fn reload_keeps_search_behaviour() {
    let keys: Vec<SearchKey> = (1..=150).map(|i: i64| i * 11 - 700).filter(|k| *k != 0).collect();
    let mut t = build(8, 4, &keys);
    let before: Vec<Option<NodeIdent>> = (-800..1000).map(|k| t.search(k).unwrap()).collect();
    t.save();
    let image = t.image().clone();
    let mut u = Tree::load(image, 8, 4).unwrap();
    let after: Vec<Option<NodeIdent>> = (-800..1000).map(|k| u.search(k).unwrap()).collect();
    assert_eq!(before, after);
    assert_eq!(u.insert(5, 1), InsertionResult::Inserted);
    assert_eq!(u.search(5).unwrap(), Some(1));
}

#[test]
fn saved_image_length_counts_blocks() {
    let keys: Vec<SearchKey> = (1..=50).collect();
    let mut t = build(4, 4, &keys);
    t.save();
    let ctr = i32::from_le_bytes([t.image()[32], t.image()[33], t.image()[34], t.image()[35]]);
    assert_eq!(t.image().len(), 128 * (ctr as usize + 1));
    let root = i32::from_le_bytes([t.image()[36], t.image()[37], t.image()[38], t.image()[39]]);
    assert_eq!(root, t.root());
    assert_eq!(u64::from_le_bytes(t.image()[0..8].try_into().unwrap()), 4);
    assert_eq!(u64::from_le_bytes(t.image()[8..16].try_into().unwrap()), 128);
    assert_eq!(u64::from_le_bytes(t.image()[16..24].try_into().unwrap()), 4);
    assert_eq!(u64::from_le_bytes(t.image()[24..32].try_into().unwrap()), 8);
}

#[test]
fn tree_renders_as_digraph() {
    let mut t = build(4, 2, &[5, 10, 15, 20, 25]);
    let dot = t.graphviz().unwrap();
    let root = t.root();
    let expected = format!(
        "digraph G {{\n{} [shape=record,label=\"<sep0> | 15 | <sep1> \"];\n{}:sep0 -> 1;\n{}:sep1 -> 2;\n1 [shape=record, label=\"{{ 5 }} | {{ 10 }}\"];\n2 [shape=record, label=\"{{ 15 }} | {{ 20 }} | {{ 25 }}\"];\n}}",
        root, root, root
    );
    assert_eq!(dot, expected);
}
