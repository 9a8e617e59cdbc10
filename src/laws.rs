//! What holds of every tree that [`Tree::new`] and [`Tree::insert`] build,
//! and of saving and reopening it.
use crate::codec::{
    lemma_decode_encodes, lemma_encoding_unique, BLOCK_SIZE, IDENT_BYTES, KEY_BYTES,
};
use crate::file_store::{
    block_of, fetch_from, ident_word_at, load_failure, metadata_encoded, word_at, Metadata,
};
use crate::node::{live_keys, strictly_sorted, valid_node, NodeIdent, NodeView, SearchKey};
use crate::shape::{content_get, edge_ok, edges_ok, lemma_lookup, node_of, node_ok, Shape};
use crate::tree::Tree;
use vstd::bytes::{lemma_auto_spec_u32_to_from_le_bytes, lemma_auto_spec_u64_to_from_le_bytes};
use vstd::prelude::*;

verus! {

/// The nodes of a well-formed tree and its shape.
pub open spec fn tree_nodes(t: Tree) -> Map<int, NodeView> {
    t.store_spec().nodes()
}

/// Every node but the root of a well-formed tree is at least half full and
/// at most full: a leaf holds between `fanout / 2` and `fanout` entries, an
/// inner node has between `fanout / 2` and `fanout` children. An inner root
/// has at least two children.
pub proof fn law_occupancy(t: Tree)
    requires
        t.well_formed(),
    ensures
        t.root_spec() < 0 ==> node_of(tree_nodes(t), t.store_spec().fanout_spec(), t.root_spec()).size
            + 1 >= 2,
        ({
            let g = t.store_spec().shape();
            let f = t.store_spec().fanout_spec();
            forall|id: NodeIdent|
                #[trigger] g.ids.contains(id) && id != g.root ==> {
                    let n = node_of(tree_nodes(t), f, id);
                    if id > 0 {
                        f / 2 <= n.size <= f
                    } else {
                        f / 2 <= n.size + 1 <= f
                    }
                }
        }),
{
    let g = t.store_spec().shape();
    let f = t.store_spec().fanout_spec();
    assert forall|id: NodeIdent| #[trigger] g.ids.contains(id) && id != g.root implies {
        let n = node_of(tree_nodes(t), f, id);
        if id > 0 {
            f / 2 <= n.size <= f
        } else {
            f / 2 <= n.size + 1 <= f
        }
    } by {
        assert(node_ok(tree_nodes(t), f, g, id));
    }
    assert(node_ok(tree_nodes(t), f, g, g.root));
}

/// The live separators of every inner node and the live keys of every leaf
/// of a well-formed tree are strictly ascending and non-zero.
pub proof fn law_sorted(t: Tree)
    requires
        t.well_formed(),
    ensures
        ({
            let g = t.store_spec().shape();
            let f = t.store_spec().fanout_spec();
            forall|id: NodeIdent|
                #[trigger] g.ids.contains(id) ==> strictly_sorted(
                    live_keys(node_of(tree_nodes(t), f, id)),
                ) && forall|i: int|
                    0 <= i < node_of(tree_nodes(t), f, id).size ==> #[trigger] node_of(
                        tree_nodes(t),
                        f,
                        id,
                    ).keys[i] != 0
        }),
{
    let g = t.store_spec().shape();
    let f = t.store_spec().fanout_spec();
    assert forall|id: NodeIdent| #[trigger] g.ids.contains(id) implies strictly_sorted(
        live_keys(node_of(tree_nodes(t), f, id)),
    ) && forall|i: int|
        0 <= i < node_of(tree_nodes(t), f, id).size ==> #[trigger] node_of(tree_nodes(t), f, id).keys[i]
            != 0 by {
        assert(node_ok(tree_nodes(t), f, g, id));
    }
}

/// Routing in a well-formed tree: every node's keys lie in its key range;
/// child `i` of an inner node covers exactly the keys from separator `i - 1`
/// (or the node's lower end) up to below separator `i` (or the node's upper
/// end), so every key below child `i` is below separator `i` and every key
/// below child `i + 1` is at least separator `i`.
pub proof fn law_routing(t: Tree)
    requires
        t.well_formed(),
    ensures
        ({
            let g = t.store_spec().shape();
            let f = t.store_spec().fanout_spec();
            &&& forall|id: NodeIdent, i: int|
                g.ids.contains(id) && 0 <= i < node_of(tree_nodes(t), f, id).size ==> g.lo[id]
                    <= #[trigger] node_of(tree_nodes(t), f, id).keys[i] < g.hi[id]
            &&& forall|id: NodeIdent, i: int|
                g.ids.contains(id) && id < 0 && 0 <= i < node_of(tree_nodes(t), f, id).size
                    ==> #[trigger] routes(g, node_of(tree_nodes(t), f, id), id, i) && {
                    let n = node_of(tree_nodes(t), f, id);
                    &&& g.ids.contains(n.vals[i])
                    &&& g.ids.contains(n.vals[i + 1])
                    &&& g.hi[n.vals[i]] == n.keys[i]
                    &&& g.lo[n.vals[i + 1]] == n.keys[i]
                    &&& g.lo[id] <= g.lo[n.vals[i]]
                    &&& g.hi[n.vals[i + 1]] <= g.hi[id]
                }
        }),
{
    let g = t.store_spec().shape();
    let f = t.store_spec().fanout_spec();
    let nodes = tree_nodes(t);
    assert forall|id: NodeIdent, i: int|
        g.ids.contains(id) && 0 <= i < node_of(nodes, f, id).size implies g.lo[id]
        <= #[trigger] node_of(nodes, f, id).keys[i] < g.hi[id] by {
        assert(node_ok(nodes, f, g, id));
    }
    assert forall|id: NodeIdent, i: int|
        g.ids.contains(id) && id < 0 && 0 <= i < node_of(nodes, f, id).size implies #[trigger] routes(
        g,
        node_of(nodes, f, id),
        id,
        i,
    ) && {
        let n = node_of(nodes, f, id);
        &&& g.ids.contains(n.vals[i])
        &&& g.ids.contains(n.vals[i + 1])
        &&& g.hi[n.vals[i]] == n.keys[i]
        &&& g.lo[n.vals[i + 1]] == n.keys[i]
        &&& g.lo[id] <= g.lo[n.vals[i]]
        &&& g.hi[n.vals[i + 1]] <= g.hi[id]
    } by {
        let n = node_of(nodes, f, id);
        assert(node_ok(nodes, f, g, id));
        assert(edges_ok(nodes, f, g, id));
        assert(edge_ok(nodes, f, g, id, i));
        assert(edge_ok(nodes, f, g, id, i + 1));
        if i > 0 {
            assert(n.keys[i - 1] >= g.lo[id]);
        }
        if i + 1 < n.size {
            assert(n.keys[i + 1] < g.hi[id]);
        }
    }
}

/// Separator `i` of the inner node `id` bounds its children `i` and `i + 1`.
pub open spec fn routes(g: Shape, n: NodeView, id: NodeIdent, i: int) -> bool {
    &&& g.hi[n.vals[i]] == n.keys[i]
    &&& g.lo[n.vals[i + 1]] == n.keys[i]
}

/// The sign of every identifier of a well-formed tree names the kind of its
/// node: a positive one reads as a valid leaf at the lowest level, a negative
/// one as a valid inner node above it.
pub proof fn law_identifier_signs(t: Tree)
    requires
        t.well_formed(),
    ensures
        ({
            let g = t.store_spec().shape();
            let f = t.store_spec().fanout_spec();
            forall|id: NodeIdent|
                #[trigger] g.ids.contains(id) ==> id != 0 && (fetch_from(tree_nodes(t), f, id) is Ok)
                    && valid_node(node_of(tree_nodes(t), f, id), f, id > 0) && (id > 0 <==> g.height[id]
                    == 0)
        }),
{
    let g = t.store_spec().shape();
    let f = t.store_spec().fanout_spec();
    assert forall|id: NodeIdent| #[trigger] g.ids.contains(id) implies id != 0 && (fetch_from(
        tree_nodes(t),
        f,
        id,
    ) is Ok) && valid_node(node_of(tree_nodes(t), f, id), f, id > 0) && (id > 0 <==> g.height[id]
        == 0) by {
        assert(node_ok(tree_nodes(t), f, g, id));
    }
}

/// A search in a well-formed tree finds exactly what its content holds: the
/// value of a present key, and nothing for an absent one.
pub proof fn law_search_finds_content(t: Tree, key: SearchKey)
    requires
        t.well_formed(),
    ensures
        t.lookup_key(key) == Ok::<Option<NodeIdent>, crate::node_store::NodeStoreError>(
            content_get(t.store_spec().shape(), key),
        ),
        !t.content().contains_key(key) ==> t.lookup_key(key) == Ok::<
            Option<NodeIdent>,
            crate::node_store::NodeStoreError,
        >(None),
{
    let s = t.store_spec();
    assert(node_ok(s.nodes(), s.fanout_spec(), s.shape(), t.root_spec()));
    lemma_lookup(
        s.nodes(),
        s.fanout_spec(),
        s.shape(),
        s.ctr(),
        t.root_spec(),
        key,
        s.ctr() as nat,
    );
}

/// After inserting distinct non-zero keys one after another into an empty
/// tree, each with its value, a search for any of them finds its value.
pub proof fn law_insert_then_search(
    trees: Seq<Tree>,
    keys: Seq<SearchKey>,
    values: Seq<NodeIdent>,
)
    requires
        trees.len() == keys.len() + 1,
        values.len() == keys.len(),
        forall|i: int, j: int| 0 <= i < j < keys.len() ==> keys[i] != keys[j],
        forall|i: int| 0 <= i < keys.len() ==> keys[i] != 0,
        forall|i: int| 0 <= i < trees.len() ==> #[trigger] trees[i].well_formed(),
        trees[0].content() == Map::<SearchKey, NodeIdent>::empty(),
        forall|i: int|
            0 <= i < keys.len() ==> #[trigger] trees[i + 1].content() == trees[i].content().insert(
                keys[i],
                values[i],
            ),
    ensures
        forall|j: int|
            0 <= j < keys.len() ==> #[trigger] trees[keys.len() as int].lookup_key(keys[j]) == Ok::<
                Option<NodeIdent>,
                crate::node_store::NodeStoreError,
            >(Some(values[j])),
{
    let n = keys.len() as int;
    lemma_prefix_content(trees, keys, values, n);
    assert forall|j: int| 0 <= j < n implies #[trigger] trees[n].lookup_key(keys[j]) == Ok::<
        Option<NodeIdent>,
        crate::node_store::NodeStoreError,
    >(Some(values[j])) by {
        assert(trees[n].well_formed());
        law_search_finds_content(trees[n], keys[j]);
        assert(trees[n].content().contains_key(keys[j]));
    }
}

proof fn lemma_prefix_content(
    trees: Seq<Tree>,
    keys: Seq<SearchKey>,
    values: Seq<NodeIdent>,
    i: int,
)
    requires
        trees.len() == keys.len() + 1,
        values.len() == keys.len(),
        0 <= i <= keys.len(),
        forall|a: int, b: int| 0 <= a < b < keys.len() ==> keys[a] != keys[b],
        forall|a: int|
            0 <= a < keys.len() ==> #[trigger] trees[a + 1].content() == trees[a].content().insert(
                keys[a],
                values[a],
            ),
    ensures
        forall|j: int|
            0 <= j < i ==> #[trigger] trees[i].content().contains_key(keys[j]) && trees[i].content()[keys[j]]
                == values[j],
    decreases i,
{
    if i > 0 {
        lemma_prefix_content(trees, keys, values, i - 1);
        let a = i - 1;
        assert(trees[a + 1].content() == trees[a].content().insert(keys[a], values[a]));
        assert(a + 1 == i);
        assert(trees[i].content() == trees[a].content().insert(keys[a], values[a]));
        assert forall|j: int| 0 <= j < i implies #[trigger] trees[i].content().contains_key(keys[j])
            && trees[i].content()[keys[j]] == values[j] by {
            if j < i - 1 {
                assert(keys[j] != keys[a]);
                assert(trees[a].content().contains_key(keys[j]));
                assert(trees[a].content()[keys[j]] == values[j]);
            }
        }
    }
}

/// Inserting a key that is already present leaves the content as it was, so
/// a search still finds the first value.
pub proof fn law_duplicate_keeps_value(before: Tree, after: Tree, key: SearchKey, value: NodeIdent)
    requires
        before.well_formed(),
        after.well_formed(),
        before.content().contains_key(key),
        before.content()[key] == value,
        after.content() == before.content(),
    ensures
        after.lookup_key(key) == Ok::<Option<NodeIdent>, crate::node_store::NodeStoreError>(
            Some(value),
        ),
{
    law_search_finds_content(after, key);
}

/// The metadata written by saving reads back as written.
proof fn lemma_metadata_round_trip(m: Metadata, image: Seq<u8>)
    requires
        image.len() >= BLOCK_SIZE,
        metadata_encoded(m, block_of(image, 0)),
    ensures
        word_at(image, 0) == m.fanout as u64,
        word_at(image, 8) == m.block_size as u64,
        word_at(image, 16) == m.node_ident_size as u64,
        word_at(image, 24) == m.search_key_size as u64,
        ident_word_at(image, 32) == m.node_ctr,
        ident_word_at(image, 36) == m.root_node,
{
    lemma_auto_spec_u64_to_from_le_bytes();
    lemma_auto_spec_u32_to_from_le_bytes();
    let b = block_of(image, 0);
    assert(image.subrange(0, 8) =~= b.subrange(0, 8));
    assert(image.subrange(8, 16) =~= b.subrange(8, 16));
    assert(image.subrange(16, 24) =~= b.subrange(16, 24));
    assert(image.subrange(24, 32) =~= b.subrange(24, 32));
    assert(image.subrange(32, 36) =~= b.subrange(32, 36));
    assert(image.subrange(36, 40) =~= b.subrange(36, 40));
    let c = m.node_ctr;
    let r = m.root_node;
    assert((c as u32) as i32 == c) by (bit_vector);
    assert((r as u32) as i32 == r) by (bit_vector);
}

/// Saving and reopening: the image of a saved tree opens with the tree's
/// fanout, and the reopened tree, which has the same node count and root,
/// answers every search as the saved one does.
pub proof fn law_persistence(saved: Tree, reopened: Tree, key: SearchKey)
    requires
        saved.wf(),
        saved.store_spec().cached() == Map::<NodeIdent, NodeView>::empty(),
        metadata_encoded(
            Metadata {
                fanout: saved.store_spec().fanout_spec() as usize,
                block_size: BLOCK_SIZE,
                node_ident_size: IDENT_BYTES,
                search_key_size: KEY_BYTES,
                node_ctr: saved.store_spec().ctr() as i32,
                root_node: saved.root_spec(),
            },
            block_of(saved.store_spec().image_spec(), 0),
        ),
        reopened.wf(),
        reopened.store_spec().image_spec() == saved.store_spec().image_spec(),
        reopened.store_spec().fanout_spec() == saved.store_spec().fanout_spec(),
        reopened.store_spec().cached() == Map::<NodeIdent, NodeView>::empty(),
        reopened.store_spec().ctr() == ident_word_at(saved.store_spec().image_spec(), 32),
        reopened.root_spec() == ident_word_at(saved.store_spec().image_spec(), 36),
    ensures
        load_failure(saved.store_spec().image_spec(), saved.store_spec().fanout_spec()) is None,
        reopened.store_spec().ctr() == saved.store_spec().ctr(),
        reopened.root_spec() == saved.root_spec(),
        reopened.lookup_key(key) == saved.lookup_key(key),
        reopened.store_spec().nodes() == saved.store_spec().nodes(),
        saved.well_formed() ==> reopened.fits_shape(saved.store_spec().shape()),
{
    let s = saved.store_spec();
    let image = s.image_spec();
    saved.lemma_store_wf();
    reopened.lemma_store_wf();
    s.lemma_wf();
    s.lemma_wf_padded();
    assert(image.len() >= BLOCK_SIZE) by (nonlinear_arith)
        requires
            image.len() == (s.ctr() + 1) * BLOCK_SIZE,
            s.ctr() >= 0,
    ;
    lemma_metadata_round_trip(
        Metadata {
            fanout: s.fanout_spec() as usize,
            block_size: BLOCK_SIZE,
            node_ident_size: IDENT_BYTES,
            search_key_size: KEY_BYTES,
            node_ctr: s.ctr() as i32,
            root_node: saved.root_spec(),
        },
        image,
    );
    assert(s.fanout_spec() <= 10);
    assert((s.fanout_spec() as usize) as u64 == s.fanout_spec());
    assert((s.ctr() as i32) as int == s.ctr());
    assert(ident_word_at(image, 32) == s.ctr());
    assert(reopened.store_spec().ctr() == s.ctr());
    assert(reopened.store_spec().nodes() =~= s.nodes());
}

/// The metadata block that saving a tree writes.
pub open spec fn saved_metadata(t: Tree) -> Metadata {
    Metadata {
        fanout: t.store_spec().fanout_spec() as usize,
        block_size: BLOCK_SIZE,
        node_ident_size: IDENT_BYTES,
        search_key_size: KEY_BYTES,
        node_ctr: t.store_spec().ctr() as i32,
        root_node: t.root_spec(),
    }
}

proof fn lemma_metadata_unique(m: Metadata, b1: Seq<u8>, b2: Seq<u8>)
    requires
        metadata_encoded(m, b1),
        metadata_encoded(m, b2),
    ensures
        b1 == b2,
{
    assert forall|j: int| 0 <= j < BLOCK_SIZE implies b1[j] == b2[j] by {
        if j < 8 {
            assert(b1[j] == b1.subrange(0, 8)[j] && b2[j] == b2.subrange(0, 8)[j]);
        } else if j < 16 {
            assert(b1[j] == b1.subrange(8, 16)[j - 8] && b2[j] == b2.subrange(8, 16)[j - 8]);
        } else if j < 24 {
            assert(b1[j] == b1.subrange(16, 24)[j - 16] && b2[j] == b2.subrange(16, 24)[j - 16]);
        } else if j < 32 {
            assert(b1[j] == b1.subrange(24, 32)[j - 24] && b2[j] == b2.subrange(24, 32)[j - 24]);
        } else if j < 36 {
            assert(b1[j] == b1.subrange(32, 36)[j - 32] && b2[j] == b2.subrange(32, 36)[j - 32]);
        } else if j < 40 {
            assert(b1[j] == b1.subrange(36, 40)[j - 36] && b2[j] == b2.subrange(36, 40)[j - 36]);
        }
    }
    assert(b1 =~= b2);
}

proof fn lemma_blocks_equal(i1: Seq<u8>, i2: Seq<u8>, n: int)
    requires
        n >= 0,
        i1.len() == n * BLOCK_SIZE,
        i2.len() == n * BLOCK_SIZE,
        forall|k: int| 0 <= k < n ==> #[trigger] block_of(i1, k) == block_of(i2, k),
    ensures
        i1 == i2,
{
    assert forall|j: int| 0 <= j < i1.len() implies i1[j] == i2[j] by {
        let k = j / (BLOCK_SIZE as int);
        assert(0 <= k < n) by (nonlinear_arith)
            requires
                0 <= j < n * BLOCK_SIZE,
                k == j / (BLOCK_SIZE as int),
        ;
        assert(k * BLOCK_SIZE <= j < k * BLOCK_SIZE + BLOCK_SIZE);
        assert(block_of(i1, k) == block_of(i2, k));
        assert(i1[j] == block_of(i1, k)[j - k * BLOCK_SIZE]);
        assert(i2[j] == block_of(i2, k)[j - k * BLOCK_SIZE]);
    }
    assert(i1 =~= i2);
}

/// Cache transparency: two trees whose stores hold the same nodes, node
/// count and root, whatever their caches, answer every search alike; once
/// both are saved, their images are byte for byte the same.
pub proof fn law_cache_transparency(a: Tree, b: Tree, key: SearchKey)
    requires
        a.wf(),
        b.wf(),
        a.store_spec().nodes() == b.store_spec().nodes(),
        a.store_spec().fanout_spec() == b.store_spec().fanout_spec(),
        a.store_spec().ctr() == b.store_spec().ctr(),
        a.root_spec() == b.root_spec(),
    ensures
        a.lookup_key(key) == b.lookup_key(key),
        a.store_spec().cached() == Map::<NodeIdent, NodeView>::empty() && b.store_spec().cached()
            == Map::<NodeIdent, NodeView>::empty() && metadata_encoded(
            saved_metadata(a),
            block_of(a.store_spec().image_spec(), 0),
        ) && metadata_encoded(saved_metadata(b), block_of(b.store_spec().image_spec(), 0))
            ==> a.store_spec().image_spec() == b.store_spec().image_spec(),
{
    let sa = a.store_spec();
    let sb = b.store_spec();
    if sa.cached() == Map::<NodeIdent, NodeView>::empty() && sb.cached() == Map::<
        NodeIdent,
        NodeView,
    >::empty() && metadata_encoded(saved_metadata(a), block_of(sa.image_spec(), 0))
        && metadata_encoded(saved_metadata(b), block_of(sb.image_spec(), 0)) {
        a.lemma_store_wf();
        b.lemma_store_wf();
        sa.lemma_wf();
        sb.lemma_wf();
        sa.lemma_wf_padded();
        sb.lemma_wf_padded();
        let f = sa.fanout_spec();
        let ia = sa.image_spec();
        let ib = sb.image_spec();
        assert forall|k: int| 0 <= k < sa.ctr() + 1 implies #[trigger] block_of(ia, k) == block_of(
            ib,
            k,
        ) by {
            crate::file_store::lemma_block_in_range(k, sa.ctr(), ia.len() as int);
            if k == 0 {
                lemma_metadata_unique(saved_metadata(a), block_of(ia, 0), block_of(ib, 0));
            } else {
                assert(sa.nodes()[k] == sb.nodes()[k]);
                assert(sa.node_at(k) == decode_view_of(ia, k, f));
                assert(crate::file_store::padded(block_of(ia, k), f));
                assert(crate::file_store::padded(block_of(ib, k), f));
                lemma_decode_encodes(block_of(ia, k), f);
                lemma_decode_encodes(block_of(ib, k), f);
                lemma_encoding_unique(decode_view_of(ia, k, f), block_of(ia, k), block_of(ib, k));
            }
        }
        lemma_blocks_equal(ia, ib, sa.ctr() + 1);
    }
}

/// What block `k` of an image decodes to.
pub open spec fn decode_view_of(image: Seq<u8>, k: int, fanout: nat) -> NodeView {
    crate::codec::decode_view(block_of(image, k), fanout)
}

/// Two trees hold the same nodes, node counter, root and fanout, whatever
/// their caches.
pub open spec fn same_state(a: Tree, b: Tree) -> bool {
    &&& a.store_spec().nodes() == b.store_spec().nodes()
    &&& a.store_spec().ctr() == b.store_spec().ctr()
    &&& a.root_spec() == b.root_spec()
    &&& a.store_spec().fanout_spec() == b.store_spec().fanout_spec()
}

/// `after` is what inserting `key` with `value` into `before` leaves.
pub open spec fn inserted(before: Tree, after: Tree, key: SearchKey, value: NodeIdent) -> bool {
    let e = Tree::insert_effect(
        before.store_spec().nodes(),
        before.store_spec().fanout_spec(),
        before.store_spec().ctr(),
        before.root_spec(),
        key,
        value,
    );
    &&& after.store_spec().nodes() == e.1
    &&& after.store_spec().ctr() == e.2
    &&& after.root_spec() == e.3
    &&& after.store_spec().fanout_spec() == before.store_spec().fanout_spec()
}

/// Cache transparency for a run of inserts: two trees that start in the same
/// state, whatever their cache capacities, and receive the same inserts are
/// in the same state after each of them, with the same results. Saved, they
/// are then the same bytes (see [`law_cache_transparency`]).
pub proof fn law_inserts_ignore_cache(
    a: Seq<Tree>,
    b: Seq<Tree>,
    keys: Seq<SearchKey>,
    values: Seq<NodeIdent>,
)
    requires
        a.len() == keys.len() + 1,
        b.len() == keys.len() + 1,
        values.len() == keys.len(),
        same_state(a[0], b[0]),
        forall|i: int| 0 <= i < keys.len() ==> #[trigger] inserted(a[i], a[i + 1], keys[i], values[i]),
        forall|i: int| 0 <= i < keys.len() ==> #[trigger] inserted(b[i], b[i + 1], keys[i], values[i]),
    ensures
        forall|i: int| 0 <= i < a.len() ==> #[trigger] same_state(a[i], b[i]),
        forall|i: int, key: SearchKey|
            0 <= i < a.len() ==> #[trigger] a[i].lookup_key(key) == b[i].lookup_key(key),
        forall|i: int|
            0 <= i < keys.len() ==> #[trigger] Tree::insert_effect(
                a[i].store_spec().nodes(),
                a[i].store_spec().fanout_spec(),
                a[i].store_spec().ctr(),
                a[i].root_spec(),
                keys[i],
                values[i],
            ).0 == Tree::insert_effect(
                b[i].store_spec().nodes(),
                b[i].store_spec().fanout_spec(),
                b[i].store_spec().ctr(),
                b[i].root_spec(),
                keys[i],
                values[i],
            ).0,
{
    assert forall|i: int| 0 <= i < a.len() implies #[trigger] same_state(a[i], b[i]) by {
        lemma_runs_agree(a, b, keys, values, i);
    }
    assert forall|i: int, key: SearchKey| 0 <= i < a.len() implies #[trigger] a[i].lookup_key(key)
        == b[i].lookup_key(key) by {
        assert(same_state(a[i], b[i]));
    }
    assert forall|i: int| 0 <= i < keys.len() implies #[trigger] Tree::insert_effect(
        a[i].store_spec().nodes(),
        a[i].store_spec().fanout_spec(),
        a[i].store_spec().ctr(),
        a[i].root_spec(),
        keys[i],
        values[i],
    ).0 == Tree::insert_effect(
        b[i].store_spec().nodes(),
        b[i].store_spec().fanout_spec(),
        b[i].store_spec().ctr(),
        b[i].root_spec(),
        keys[i],
        values[i],
    ).0 by {
        assert(same_state(a[i], b[i]));
    }
}

proof fn lemma_runs_agree(a: Seq<Tree>, b: Seq<Tree>, keys: Seq<SearchKey>, values: Seq<NodeIdent>, i: int)
    requires
        a.len() == keys.len() + 1,
        b.len() == keys.len() + 1,
        values.len() == keys.len(),
        0 <= i < a.len(),
        same_state(a[0], b[0]),
        forall|j: int| 0 <= j < keys.len() ==> #[trigger] inserted(a[j], a[j + 1], keys[j], values[j]),
        forall|j: int| 0 <= j < keys.len() ==> #[trigger] inserted(b[j], b[j + 1], keys[j], values[j]),
    ensures
        same_state(a[i], b[i]),
    decreases i,
{
    if i > 0 {
        lemma_runs_agree(a, b, keys, values, i - 1);
        let j = i - 1;
        assert(inserted(a[j], a[j + 1], keys[j], values[j]));
        assert(inserted(b[j], b[j + 1], keys[j], values[j]));
        assert(j + 1 == i);
    }
}

/// Up to this many entries an insertion is never refused for want of
/// identifiers.
pub open spec fn roomy(c: nat) -> bool {
    c <= 46000
}

proof fn lemma_roomy(c: nat)
    requires
        c <= 46001,
    ensures
        c * c + 3 * c + 5 <= i32::MAX,
{
    assert(c * c <= 46001 * 46001) by (nonlinear_arith)
        requires
            c <= 46001,
    ;
}

proof fn lemma_run_prefix(
    ts: Seq<Tree>,
    keys: Seq<SearchKey>,
    values: Seq<NodeIdent>,
    rs: Seq<crate::node::InsertionResult>,
    i: int,
)
    requires
        ts.len() == keys.len() + 1,
        values.len() == keys.len(),
        rs.len() == keys.len(),
        roomy(keys.len()),
        forall|a: int, b: int| 0 <= a < b < keys.len() ==> keys[a] != keys[b],
        forall|a: int| 0 <= a < keys.len() ==> keys[a] != 0,
        ts[0].well_formed(),
        ts[0].content() == Map::<SearchKey, NodeIdent>::empty(),
        forall|a: int|
            0 <= a < keys.len() ==> #[trigger] Tree::insert_outcome(
                ts[a],
                ts[a + 1],
                keys[a],
                values[a],
                rs[a],
            ),
        0 <= i <= keys.len(),
    ensures
        ts[i].well_formed(),
        ts[i].content().dom().finite(),
        ts[i].content().len() == i,
        forall|j: int|
            0 <= j < i ==> #[trigger] ts[i].content().contains_key(keys[j]) && ts[i].content()[keys[j]]
                == values[j],
        forall|k: SearchKey|
            #[trigger] ts[i].content().contains_key(k) ==> exists|j: int| 0 <= j < i && keys[j] == k,
        forall|j: int| 0 <= j < i ==> #[trigger] rs[j] == crate::node::InsertionResult::Inserted,
    decreases i,
{
    if i == 0 {
        assert(ts[0].content().dom() =~= Set::<SearchKey>::empty());
    } else {
        let a = i - 1;
        lemma_run_prefix(ts, keys, values, rs, a);
        assert(Tree::insert_outcome(ts[a], ts[a + 1], keys[a], values[a], rs[a]));
        assert(a + 1 == i);
        let c = ts[a].content();
        assert(!c.contains_key(keys[a])) by {
            if c.contains_key(keys[a]) {
                let j = choose|j: int| 0 <= j < a && keys[j] == keys[a];
            }
        }
        lemma_roomy(a as nat);
        assert(rs[a] == crate::node::InsertionResult::Inserted);
        let c2 = ts[i].content();
        assert(c2 == c.insert(keys[a], values[a]));
        assert(c2.dom() =~= c.dom().insert(keys[a]));
        assert forall|j: int| 0 <= j < i implies #[trigger] c2.contains_key(keys[j]) && c2[keys[j]]
            == values[j] by {
            if j < a {
                assert(keys[j] != keys[a]);
                assert(c.contains_key(keys[j]));
            }
        }
        assert forall|k: SearchKey| #[trigger] c2.contains_key(k) implies exists|j: int|
            0 <= j < i && keys[j] == k by {
            if k != keys[a] {
                assert(c.contains_key(k));
                let j = choose|j: int| 0 <= j < a && keys[j] == k;
                assert(0 <= j < i && keys[j] == k);
            } else {
                assert(0 <= a < i && keys[a] == k);
            }
        }
        assert forall|j: int| 0 <= j < i implies #[trigger] rs[j]
            == crate::node::InsertionResult::Inserted by {
        }
    }
}

/// A run of inserts of distinct non-zero keys into an empty well-formed
/// tree, in any order (ascending and descending ones included), each as
/// `Tree::insert` reports it: every insert succeeds, every tree of the run is
/// well formed, and afterwards a search finds each key's value and nothing
/// for any other key. Holds for runs of up to 46000 keys.
pub proof fn law_run_of_inserts(
    ts: Seq<Tree>,
    keys: Seq<SearchKey>,
    values: Seq<NodeIdent>,
    rs: Seq<crate::node::InsertionResult>,
)
    requires
        ts.len() == keys.len() + 1,
        values.len() == keys.len(),
        rs.len() == keys.len(),
        roomy(keys.len()),
        forall|a: int, b: int| 0 <= a < b < keys.len() ==> keys[a] != keys[b],
        forall|a: int| 0 <= a < keys.len() ==> keys[a] != 0,
        ts[0].well_formed(),
        ts[0].content() == Map::<SearchKey, NodeIdent>::empty(),
        forall|a: int|
            0 <= a < keys.len() ==> #[trigger] Tree::insert_outcome(
                ts[a],
                ts[a + 1],
                keys[a],
                values[a],
                rs[a],
            ),
    ensures
        forall|j: int| 0 <= j < keys.len() ==> #[trigger] rs[j] == crate::node::InsertionResult::Inserted,
        forall|i: int| 0 <= i < ts.len() ==> #[trigger] ts[i].well_formed(),
        forall|j: int|
            0 <= j < keys.len() ==> #[trigger] ts[keys.len() as int].lookup_key(keys[j]) == Ok::<
                Option<NodeIdent>,
                crate::node_store::NodeStoreError,
            >(Some(values[j])),
        forall|k: SearchKey|
            !keys.contains(k) ==> #[trigger] ts[keys.len() as int].lookup_key(k) == Ok::<
                Option<NodeIdent>,
                crate::node_store::NodeStoreError,
            >(None),
{
    let n = keys.len() as int;
    lemma_run_prefix(ts, keys, values, rs, n);
    assert forall|i: int| 0 <= i < ts.len() implies #[trigger] ts[i].well_formed() by {
        lemma_run_prefix(ts, keys, values, rs, i);
    }
    assert forall|j: int| 0 <= j < n implies #[trigger] ts[n].lookup_key(keys[j]) == Ok::<
        Option<NodeIdent>,
        crate::node_store::NodeStoreError,
    >(Some(values[j])) by {
        law_search_finds_content(ts[n], keys[j]);
        assert(ts[n].content().contains_key(keys[j]));
    }
    assert forall|k: SearchKey| !keys.contains(k) implies #[trigger] ts[n].lookup_key(k) == Ok::<
        Option<NodeIdent>,
        crate::node_store::NodeStoreError,
    >(None) by {
        law_search_finds_content(ts[n], k);
        if ts[n].content().contains_key(k) {
            let j = choose|j: int| 0 <= j < n && keys[j] == k;
            assert(keys.contains(k));
        }
    }
}

/// Inserting a key absent from a well-formed tree and then inserting it
/// again, with any value, reports success and then a duplicate; the second
/// insert changes no search, and the key keeps its first value.
pub proof fn law_duplicate_run(
    t0: Tree,
    t1: Tree,
    t2: Tree,
    key: SearchKey,
    v1: NodeIdent,
    v2: NodeIdent,
    r1: crate::node::InsertionResult,
    r2: crate::node::InsertionResult,
)
    requires
        t0.well_formed(),
        key != 0,
        !t0.content().contains_key(key),
        roomy(t0.content().len()),
        Tree::insert_outcome(t0, t1, key, v1, r1),
        Tree::insert_outcome(t1, t2, key, v2, r2),
    ensures
        r1 == crate::node::InsertionResult::Inserted,
        r2 == crate::node::InsertionResult::DuplicateKey,
        t2.lookup_key(key) == Ok::<Option<NodeIdent>, crate::node_store::NodeStoreError>(Some(v1)),
        forall|k: SearchKey| #[trigger] t2.lookup_key(k) == t1.lookup_key(k),
{
    lemma_roomy(t0.content().len());
    assert(r1 == crate::node::InsertionResult::Inserted);
    assert(t1.content().contains_key(key));
    assert(t1.content().dom() =~= t0.content().dom().insert(key));
    lemma_roomy(t1.content().len());
    assert(r2 == crate::node::InsertionResult::DuplicateKey);
    law_search_finds_content(t2, key);
    assert forall|k: SearchKey| #[trigger] t2.lookup_key(k) == t1.lookup_key(k) by {
        law_search_finds_content(t2, k);
        law_search_finds_content(t1, k);
    }
}

} // verus!
