//! The shape of a well-formed tree in a node store, and what searching it
//! means.
use crate::file_store::{block_index, fetch_from, valid_fanout};
use crate::node::{live_keys, strictly_sorted, valid_node, NodeIdent, NodeView, SearchKey};
use crate::node_store::NodeStoreError;
use vstd::prelude::*;

verus! {

/// The ghost bookkeeping of a tree kept in a node store: its root, which
/// identifiers belong to it, the key range `[lo, hi)` each node covers, its
/// height above the leaves, its parent, and the key-value content of the tree.
pub struct Shape {
    pub root: NodeIdent,
    pub ids: Set<NodeIdent>,
    pub lo: Map<NodeIdent, int>,
    pub hi: Map<NodeIdent, int>,
    pub height: Map<NodeIdent, nat>,
    pub parent: Map<NodeIdent, NodeIdent>,
    pub content: Map<SearchKey, NodeIdent>,
}

/// The lower end of the key range of the whole tree.
pub open spec fn key_min() -> int {
    i64::MIN as int
}

/// One past the upper end of the key range of the whole tree.
pub open spec fn key_end() -> int {
    i64::MAX as int + 1
}

/// The lower end of the range of child `i` of an inner node covering from `lo`.
pub open spec fn child_lo(n: NodeView, lo: int, i: int) -> int {
    if i == 0 {
        lo
    } else {
        n.keys[i - 1] as int
    }
}

/// The upper end of the range of child `i` of an inner node covering up to `hi`.
pub open spec fn child_hi(n: NodeView, hi: int, i: int) -> int {
    if i == n.size {
        hi
    } else {
        n.keys[i] as int
    }
}

/// A node that is not the root is at least half full: a leaf holds at least
/// `fanout / 2` entries and an inner node at least `fanout / 2` children.
pub open spec fn occupancy(n: NodeView, fanout: nat, leaf: bool) -> bool {
    if leaf {
        n.size >= fanout / 2
    } else {
        n.size + 1 >= fanout / 2
    }
}

/// The node read for `id`.
pub open spec fn node_of(nodes: Map<int, NodeView>, fanout: nat, id: NodeIdent) -> NodeView {
    fetch_from(nodes, fanout, id)->Ok_0
}

/// What holds of node `id` of the tree by itself.
pub open spec fn node_ok(nodes: Map<int, NodeView>, fanout: nat, g: Shape, id: NodeIdent) -> bool {
    let n = node_of(nodes, fanout, id);
    &&& fetch_from(nodes, fanout, id) is Ok
    &&& (id > 0 <==> g.height[id] == 0)
    &&& g.lo[id] < g.hi[id]
    &&& forall|i: int| 0 <= i < n.size ==> g.lo[id] <= #[trigger] n.keys[i] < g.hi[id]
    &&& id != g.root ==> occupancy(n, fanout, id > 0)
    &&& id > 0 ==> forall|i: int|
        0 <= i < n.size ==> g.content.contains_key(#[trigger] n.keys[i]) && g.content[n.keys[i]]
            == n.vals[i]
    &&& id > 0 ==> forall|k: SearchKey|
        #[trigger] g.content.contains_key(k) && g.lo[id] <= k < g.hi[id] ==> live_keys(n).contains(k)
    &&& id < 0 ==> forall|i: int| 0 <= i < n.size ==> g.content.contains_key(#[trigger] n.keys[i])
    &&& id < 0 ==> n.size >= 1
}

/// Child `i` of the inner node `id` links back to it, sits one level lower,
/// and covers exactly the range its separators give it.
pub open spec fn edge_ok(nodes: Map<int, NodeView>, fanout: nat, g: Shape, id: NodeIdent, i: int) -> bool {
    let n = node_of(nodes, fanout, id);
    let c = n.vals[i];
    &&& g.ids.contains(c)
    &&& g.parent.contains_key(c)
    &&& g.parent[c] == id
    &&& g.height[c] + 1 == g.height[id]
    &&& g.lo[c] == child_lo(n, g.lo[id], i)
    &&& g.hi[c] == child_hi(n, g.hi[id], i)
}

/// Every live child of node `id`, if it is an inner node, is in place.
pub open spec fn edges_ok(nodes: Map<int, NodeView>, fanout: nat, g: Shape, id: NodeIdent) -> bool {
    id < 0 ==> forall|i: int| 0 <= i <= node_of(nodes, fanout, id).size ==> #[trigger] edge_ok(nodes, fanout, g, id, i)
}

/// The tree invariant, with the children of `skip` and the upper end of the
/// root's range exempted when asked: the state in the middle of a split.
pub open spec fn inv_except(
    nodes: Map<int, NodeView>,
    fanout: nat,
    g: Shape,
    ctr: int,
    skip: Option<NodeIdent>,
    root_hi_ok: bool,
) -> bool {
    &&& valid_fanout(fanout)
    &&& forall|k: int| #[trigger] nodes.contains_key(k) ==> 1 <= k <= ctr
    &&& g.ids.contains(g.root)
    &&& g.lo[g.root] == key_min()
    &&& root_hi_ok ==> g.hi[g.root] == key_end()
    &&& !g.parent.contains_key(g.root)
    &&& g.height[g.root] < ctr
    &&& forall|id: NodeIdent| #[trigger] g.ids.contains(id) ==> node_ok(nodes, fanout, g, id)
    &&& forall|id: NodeIdent| #[trigger] g.ids.contains(id) ==> g.height[id] <= g.height[g.root]
    &&& forall|id: NodeIdent|
        #[trigger] g.ids.contains(id) && skip != Some(id) ==> edges_ok(nodes, fanout, g, id)
    &&& forall|x: NodeIdent, y: NodeIdent|
        #[trigger] g.ids.contains(x) && #[trigger] g.ids.contains(y) && x != y ==> block_index(x)
            != block_index(y)
    &&& forall|x: NodeIdent, y: NodeIdent|
        #[trigger] g.ids.contains(x) && #[trigger] g.ids.contains(y) && x != y && g.height[x]
            == g.height[y] ==> g.hi[x] <= g.lo[y] || g.hi[y] <= g.lo[x]
}

/// The tree invariant: every node of the tree is valid, sorted, within its
/// range, linked to its children, and agrees with the content; every node
/// but the root is at least half full.
pub open spec fn tree_inv(nodes: Map<int, NodeView>, fanout: nat, g: Shape, ctr: int) -> bool {
    inv_except(nodes, fanout, g, ctr, None, true)
}

/// What an insertion of `key` into the subtree of `id` needs beyond a
/// well-formed store: a well-formed tree holding `id`, whose range holds
/// `key`, enough levels of descent, and room for the nodes a split creates.
pub open spec fn insert_pre(
    nodes: Map<int, NodeView>,
    fanout: nat,
    g: Shape,
    ctr: int,
    id: NodeIdent,
    key: SearchKey,
    fuel: int,
) -> bool {
    &&& tree_inv(nodes, fanout, g, ctr)
    &&& g.ids.contains(id)
    &&& g.lo[id] <= key < g.hi[id]
    &&& fuel > g.height[id]
    &&& ctr + g.height[id] + 1 < i32::MAX
}

/// An insertion into the subtree of `id` changed nothing at or above its
/// level but `id` itself, kept every node and its height, and allocated at
/// most one node per level, each below `id`'s level or at it.
pub open spec fn insert_frame(
    nodes: Map<int, NodeView>,
    g: Shape,
    ctr: int,
    nodes2: Map<int, NodeView>,
    g2: Shape,
    ctr2: int,
    fanout: nat,
    id: NodeIdent,
) -> bool {
    &&& g2.root == g.root
    &&& ctr <= ctr2 <= ctr + g.height[id] + 1
    &&& forall|x: NodeIdent|
        #[trigger] g.ids.contains(x) ==> g2.ids.contains(x) && g2.height[x] == g.height[x]
    &&& forall|x: NodeIdent|
        #[trigger] g2.ids.contains(x) && !g.ids.contains(x) ==> block_index(x) > ctr
            && g2.height[x] <= g.height[id]
    &&& forall|x: NodeIdent|
        #[trigger] g.ids.contains(x) && x != id && g.height[x] >= g.height[id] ==> fetch_from(
            nodes2,
            fanout,
            x,
        ) == fetch_from(nodes, fanout, x) && g2.lo[x] == g.lo[x] && g2.hi[x] == g.hi[x]
            && parent_of(g2, x) == parent_of(g, x)
    &&& g2.lo[id] == g.lo[id]
    &&& parent_of(g2, id) == parent_of(g, id)
}

/// The parent of `id`, if it has one.
pub open spec fn parent_of(g: Shape, id: NodeIdent) -> Option<NodeIdent> {
    if g.parent.contains_key(id) {
        Some(g.parent[id])
    } else {
        None
    }
}

/// After node `id` split at `sep` into itself and the new node `rid`: the
/// tree is well formed but for the parent's missing link to `rid` (or, at
/// the root, the missing new root), `id` keeps `[lo, sep)` and `rid` covers
/// `[sep, hi)` at the same level and of the same kind.
pub open spec fn split_post(
    g: Shape,
    nodes2: Map<int, NodeView>,
    g2: Shape,
    ctr2: int,
    fanout: nat,
    id: NodeIdent,
    sep: SearchKey,
    rid: NodeIdent,
) -> bool {
    &&& inv_except(nodes2, fanout, g2, ctr2, parent_of(g, id), id != g.root)
    &&& g2.ids.contains(rid)
    &&& !g.ids.contains(rid)
    &&& (rid > 0 <==> id > 0)
    &&& g2.height[rid] == g.height[id]
    &&& g2.lo[rid] == sep
    &&& g2.hi[rid] == g.hi[id]
    &&& g2.hi[id] == sep
    &&& g.lo[id] < sep < g.hi[id]
    &&& g2.content.contains_key(sep)
    &&& parent_of(g2, rid) == parent_of(g, id)
    &&& occupancy(node_of(nodes2, fanout, id), fanout, id > 0)
}

/// What an insertion of `key` with `data` into the subtree of `id` achieved,
/// given [`insert_pre`]: a duplicate changes nothing; otherwise the content
/// gains the entry and the tree is well formed, or `id` split.
pub open spec fn insert_post(
    nodes: Map<int, NodeView>,
    g: Shape,
    ctr: int,
    nodes2: Map<int, NodeView>,
    g2: Shape,
    ctr2: int,
    fanout: nat,
    id: NodeIdent,
    key: SearchKey,
    data: NodeIdent,
    r: crate::node::InsertionResult,
) -> bool {
    match r {
        crate::node::InsertionResult::DuplicateKey => g.content.contains_key(key) && nodes2
            == nodes && g2 == g && ctr2 == ctr,
        crate::node::InsertionResult::Inserted => !g.content.contains_key(key) && g2.content
            == g.content.insert(key, data) && insert_frame(nodes, g, ctr, nodes2, g2, ctr2, fanout, id)
            && tree_inv(nodes2, fanout, g2, ctr2) && g2.hi[id] == g.hi[id],
        crate::node::InsertionResult::NodeOverflow(sep, rid) => !g.content.contains_key(key)
            && g2.content == g.content.insert(key, data) && insert_frame(
            nodes,
            g,
            ctr,
            nodes2,
            g2,
            ctr2,
            fanout,
            id,
        ) && split_post(g, nodes2, g2, ctr2, fanout, id, sep, rid),
        _ => false,
    }
}

/// The number of live keys of `n` that are at most `key`: the child a search
/// for `key` descends into.
pub open spec fn route(n: NodeView, key: SearchKey) -> int {
    count_le(live_keys(n), key)
}

/// The number of elements of `s` that are at most `key`.
pub open spec fn count_le(s: Seq<SearchKey>, key: SearchKey) -> int
    decreases s.len(),
{
    if s.len() == 0 {
        0
    } else {
        count_le(s.drop_last(), key) + if s.last() <= key {
            1int
        } else {
            0int
        }
    }
}

/// A live position of `key` in `n`.
pub open spec fn key_pos(n: NodeView, key: SearchKey) -> int {
    choose|i: int| 0 <= i < n.size && n.keys[i] == key
}

/// The value stored with `key` in the leaf `n`, if any.
pub open spec fn leaf_get(n: NodeView, key: SearchKey) -> Option<NodeIdent> {
    if live_keys(n).contains(key) {
        Some(n.vals[key_pos(n, key)])
    } else {
        None
    }
}

/// What a search for `key` from node `id` finds, descending at most `fuel`
/// levels.
pub open spec fn lookup(
    nodes: Map<int, NodeView>,
    fanout: nat,
    id: NodeIdent,
    key: SearchKey,
    fuel: nat,
) -> Result<Option<NodeIdent>, NodeStoreError>
    decreases fuel,
{
    if fuel == 0 {
        Err(NodeStoreError::ReadFailed)
    } else {
        match fetch_from(nodes, fanout, id) {
            Err(e) => Err(e),
            Ok(n) => if id > 0 {
                Ok(leaf_get(n, key))
            } else {
                lookup(nodes, fanout, n.vals[route(n, key)], key, (fuel - 1) as nat)
            },
        }
    }
}

/// The value the content of a tree holds for `key`.
pub open spec fn content_get(g: Shape, key: SearchKey) -> Option<NodeIdent> {
    if g.content.contains_key(key) {
        Some(g.content[key])
    } else {
        None
    }
}

/// In a sorted sequence, the elements below `key` are exactly the first `u`.
pub proof fn lemma_count_le(s: Seq<SearchKey>, key: SearchKey, u: int)
    requires
        0 <= u <= s.len(),
        forall|j: int| 0 <= j < u ==> s[j] <= key,
        forall|j: int| u <= j < s.len() ==> s[j] > key,
    ensures
        count_le(s, key) == u,
    decreases s.len(),
{
    if s.len() > 0 {
        if u == s.len() {
            lemma_count_le(s.drop_last(), key, u - 1);
        } else {
            lemma_count_le(s.drop_last(), key, u);
        }
    }
}

/// A sorted sequence has a point before which its elements are at most
/// `key` and after which they exceed it.
pub proof fn lemma_split_point(s: Seq<SearchKey>, key: SearchKey) -> (c: int)
    requires
        strictly_sorted(s),
    ensures
        0 <= c <= s.len(),
        forall|j: int| 0 <= j < c ==> s[j] <= key,
        forall|j: int| c <= j < s.len() ==> s[j] > key,
    decreases s.len(),
{
    if s.len() == 0 {
        0
    } else {
        let t = s.drop_last();
        assert(strictly_sorted(t)) by {
            assert forall|i: int, j: int| 0 <= i < j < t.len() implies t[i] < t[j] by {
                assert(s[i] < s[j]);
            }
        }
        let d = lemma_split_point(t, key);
        assert forall|j: int| 0 <= j < d implies s[j] <= key by {
            assert(t[j] == s[j]);
        }
        assert forall|j: int| d <= j < t.len() implies s[j] > key by {
            assert(t[j] == s[j]);
        }
        if s.last() <= key {
            assert forall|j: int| 0 <= j < s.len() implies s[j] <= key by {
                if j < s.len() - 1 {
                    assert(s[j] < s[s.len() - 1]);
                }
            }
            s.len() as int
        } else {
            d
        }
    }
}

/// A search from a node of a well-formed tree whose range holds `key` finds
/// exactly what the content holds for `key`.
pub proof fn lemma_lookup(
    nodes: Map<int, NodeView>,
    fanout: nat,
    g: Shape,
    ctr: int,
    id: NodeIdent,
    key: SearchKey,
    fuel: nat,
)
    requires
        tree_inv(nodes, fanout, g, ctr),
        g.ids.contains(id),
        g.lo[id] <= key < g.hi[id],
        fuel > g.height[id],
    ensures
        lookup(nodes, fanout, id, key, fuel) == Ok::<Option<NodeIdent>, NodeStoreError>(
            content_get(g, key),
        ),
    decreases g.height[id],
{
    let n = node_of(nodes, fanout, id);
    assert(node_ok(nodes, fanout, g, id));
    assert(valid_node(n, fanout, id > 0));
    let lk = live_keys(n);
    if id > 0 {
        if g.content.contains_key(key) {
            assert(lk.contains(key));
            let i = choose|i: int| 0 <= i < n.size && n.keys[i] == key;
            assert(lk[i] == key);
        } else {
            if lk.contains(key) {
                let i = choose|i: int| 0 <= i < lk.len() && lk[i] == key;
                assert(n.keys[i] == key);
            }
        }
    } else {
        let c = lemma_split_point(lk, key);
        lemma_count_le(lk, key, c);
        assert(edges_ok(nodes, fanout, g, id));
        assert(edge_ok(nodes, fanout, g, id, c));
        let child = n.vals[c];
        if c > 0 {
            assert(lk[c - 1] == n.keys[c - 1]);
        }
        if c < n.size {
            assert(lk[c] == n.keys[c]);
        }
        lemma_lookup(nodes, fanout, g, ctr, child, key, (fuel - 1) as nat);
    }
}

} // verus!
