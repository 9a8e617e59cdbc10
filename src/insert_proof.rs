//! Proofs that inserting keeps a tree well formed.
use crate::file_store::{block_index, fetch_from};
use crate::node::{live_keys, strictly_sorted, valid_node, NodeIdent, NodeView, SearchKey};
use crate::shape::{
    edge_ok, edges_ok, insert_frame, inv_except, key_end, key_min, node_of, node_ok, occupancy,
    parent_of, split_post, tree_inv, Shape,
};
use vstd::prelude::*;

verus! {

/// The shape with `key` mapped to `data` in its content.
pub open spec fn with_entry(g: Shape, key: SearchKey, data: NodeIdent) -> Shape {
    Shape { content: g.content.insert(key, data), ..g }
}

/// The entries of a leaf after inserting `key` with `data` at `u` map to
/// what the content, extended by that entry, holds.
proof fn lemma_entries_in_content(
    g: Shape,
    n0: NodeView,
    w: Seq<SearchKey>,
    v: Seq<NodeIdent>,
    u: int,
    key: SearchKey,
    data: NodeIdent,
)
    requires
        0 <= u <= n0.size <= n0.keys.len(),
        n0.size <= n0.vals.len(),
        !g.content.contains_key(key),
        forall|i: int|
            0 <= i < n0.size ==> g.content.contains_key(#[trigger] n0.keys[i]) && g.content[n0.keys[i]]
                == n0.vals[i],
        w == live_keys(n0).insert(u, key),
        v == n0.vals.take(n0.size as int).insert(u, data),
    ensures
        forall|i: int|
            0 <= i < w.len() ==> g.content.insert(key, data).contains_key(#[trigger] w[i])
                && g.content.insert(key, data)[w[i]] == v[i],
{
    let c2 = g.content.insert(key, data);
    assert forall|i: int| 0 <= i < w.len() implies c2.contains_key(#[trigger] w[i]) && c2[w[i]]
        == v[i] by {
        if i < u {
            assert(w[i] == n0.keys[i]);
            assert(v[i] == n0.vals[i]);
        } else if i > u {
            assert(w[i] == n0.keys[i - 1]);
            assert(v[i] == n0.vals[i - 1]);
        }
    }
}

/// Inserting into a leaf that does not split keeps the tree well formed.
pub proof fn lemma_leaf_fits(
    nodes: Map<int, NodeView>,
    fanout: nat,
    g: Shape,
    ctr: int,
    id: NodeIdent,
    key: SearchKey,
    data: NodeIdent,
    n1: NodeView,
    u: int,
)
    requires
        tree_inv(nodes, fanout, g, ctr),
        g.ids.contains(id),
        id > 0,
        g.lo[id] <= key < g.hi[id],
        !g.content.contains_key(key),
        valid_node(n1, fanout, true),
        0 <= u <= node_of(nodes, fanout, id).size,
        n1.size == node_of(nodes, fanout, id).size + 1,
        live_keys(n1) == live_keys(node_of(nodes, fanout, id)).insert(u, key),
        n1.vals.take(n1.size as int) == node_of(nodes, fanout, id).vals.take(
            node_of(nodes, fanout, id).size as int,
        ).insert(u, data),
    ensures
        tree_inv(nodes.insert(block_index(id), n1), fanout, with_entry(g, key, data), ctr),
        crate::shape::insert_frame(
            nodes,
            g,
            ctr,
            nodes.insert(block_index(id), n1),
            with_entry(g, key, data),
            ctr,
            fanout,
            id,
        ),
{
    let n0 = node_of(nodes, fanout, id);
    let nodes2 = nodes.insert(block_index(id), n1);
    let g2 = with_entry(g, key, data);
    assert(node_ok(nodes, fanout, g, id));
    let w = live_keys(n1);
    let v = n1.vals.take(n1.size as int);
    lemma_entries_in_content(g, n0, w, v, u, key, data);
    assert(fetch_from(nodes2, fanout, id) == Ok::<NodeView, crate::node_store::NodeStoreError>(n1));
    assert forall|x: NodeIdent| #[trigger] g2.ids.contains(x) implies node_ok(nodes2, fanout, g2, x)
        && edges_ok(nodes2, fanout, g2, x) by {
        if x == id {
            assert forall|i: int| 0 <= i < n1.size implies g2.lo[id] <= #[trigger] n1.keys[i]
                < g2.hi[id] by {
                assert(n1.keys[i] == w[i]);
                if i < u {
                    assert(w[i] == n0.keys[i]);
                } else if i > u {
                    assert(w[i] == n0.keys[i - 1]);
                }
            }
            assert forall|i: int| 0 <= i < n1.size implies g2.content.contains_key(
                #[trigger] n1.keys[i],
            ) && g2.content[n1.keys[i]] == n1.vals[i] by {
                assert(n1.keys[i] == w[i]);
                assert(n1.vals[i] == v[i]);
            }
            assert forall|k: SearchKey|
                #[trigger] g2.content.contains_key(k) && g2.lo[id] <= k < g2.hi[id] implies live_keys(
                n1,
            ).contains(k) by {
                if k == key {
                    assert(w[u] == key);
                } else {
                    assert(live_keys(n0).contains(k));
                    let j = choose|j: int| 0 <= j < live_keys(n0).len() && live_keys(n0)[j] == k;
                    if j < u {
                        assert(w[j] == k);
                    } else {
                        assert(w[j + 1] == k);
                    }
                }
            }
        } else {
            assert(block_index(x) != block_index(id));
            assert(fetch_from(nodes2, fanout, x) == fetch_from(nodes, fanout, x));
            assert(node_ok(nodes, fanout, g, x));
            assert(edges_ok(nodes, fanout, g, x));
            let nx = node_of(nodes, fanout, x);
            if x > 0 {
                assert forall|k: SearchKey|
                    #[trigger] g2.content.contains_key(k) && g2.lo[x] <= k < g2.hi[x] implies live_keys(
                    nx,
                ).contains(k) by {
                    if k == key {
                        assert(g.height[x] == g.height[id]);
                    }
                }
            }
            if x < 0 {
                assert forall|i: int| 0 <= i <= nx.size implies #[trigger] edge_ok(
                    nodes2,
                    fanout,
                    g2,
                    x,
                    i,
                ) by {
                    assert(edge_ok(nodes, fanout, g, x, i));
                }
            }
        }
    }
    assert forall|x: NodeIdent|
        #[trigger] g.ids.contains(x) && x != id && g.height[x] >= g.height[id] implies fetch_from(
        nodes2,
        fanout,
        x,
    ) == fetch_from(nodes, fanout, x) by {
        assert(block_index(x) != block_index(id));
    }
}

/// The shape after node `id` split at `sep`, the new node `rid` taking the
/// upper part of its range at the same level and under the same parent.
pub open spec fn split_shape(g: Shape, id: NodeIdent, rid: NodeIdent, sep: SearchKey) -> Shape {
    Shape {
        ids: g.ids.insert(rid),
        lo: g.lo.insert(rid, sep as int),
        hi: g.hi.insert(id, sep as int).insert(rid, g.hi[id]),
        height: g.height.insert(rid, g.height[id]),
        parent: if g.parent.contains_key(id) {
            g.parent.insert(rid, g.parent[id])
        } else {
            g.parent.remove(rid)
        },
        ..g
    }
}

/// Splitting a full leaf on insertion leaves the tree well formed but for
/// the parent's link to the new right leaf.
#[verifier::rlimit(60)]
pub proof fn lemma_leaf_split(
    nodes: Map<int, NodeView>,
    fanout: nat,
    g: Shape,
    ctr: int,
    id: NodeIdent,
    key: SearchKey,
    data: NodeIdent,
    nl: NodeView,
    nr: NodeView,
    u: int,
)
    requires
        tree_inv(nodes, fanout, g, ctr),
        g.ids.contains(id),
        id > 0,
        g.lo[id] <= key < g.hi[id],
        !g.content.contains_key(key),
        0 <= ctr < i32::MAX,
        0 <= u <= node_of(nodes, fanout, id).size,
        node_of(nodes, fanout, id).size == fanout,
        forall|j: int| 0 <= j < u ==> node_of(nodes, fanout, id).keys[j] < key,
        forall|j: int| u <= j < fanout ==> node_of(nodes, fanout, id).keys[j] > key,
        valid_node(nl, fanout, true),
        valid_node(nr, fanout, true),
        ({
            let n0 = node_of(nodes, fanout, id);
            let m = (fanout / 2) as int;
            let w = live_keys(n0).insert(u, key);
            let v = n0.vals.take(n0.size as int).insert(u, data);
            &&& nl.size == m
            &&& live_keys(nl) == w.take(m as int)
            &&& nl.vals.take(m as int) == v.take(m as int)
            &&& nr.size == m + 1
            &&& live_keys(nr) == w.subrange(m as int, fanout as int + 1)
            &&& nr.vals.take(m as int + 1) == v.subrange(m as int, fanout as int + 1)
        }),
    ensures
        ({
            let rid = (ctr + 1) as i32;
            let sep = live_keys(node_of(nodes, fanout, id)).insert(u, key)[(fanout / 2) as int];
            let nodes3 = nodes.insert(block_index(id), nl).insert(ctr + 1, nr);
            let g3 = split_shape(with_entry(g, key, data), id, rid, sep);
            &&& split_post(g, nodes3, g3, ctr + 1, fanout, id, sep, rid)
            &&& crate::shape::insert_frame(nodes, g, ctr, nodes3, g3, ctr + 1, fanout, id)
            &&& g3.content == g.content.insert(key, data)
        }),
{
    let n0 = node_of(nodes, fanout, id);
    let m = fanout / 2;
    let w = live_keys(n0).insert(u, key);
    let v = n0.vals.take(n0.size as int).insert(u, data);
    let rid = (ctr + 1) as i32;
    let sep = w[m as int];
    let nodes3 = nodes.insert(block_index(id), nl).insert(ctr + 1, nr);
    let g2 = with_entry(g, key, data);
    let g3 = split_shape(g2, id, rid, sep);
    assert(node_ok(nodes, fanout, g, id));
    assert(valid_node(n0, fanout, true));
    assert(fanout >= 4 && fanout % 2 == 0);
    lemma_entries_in_content(g, n0, w, v, u, key, data);
    crate::node::lemma_insert_sorted(live_keys(n0), u, key);
    assert(strictly_sorted(w));
    assert forall|i: int| 0 <= i < w.len() implies g.lo[id] <= #[trigger] w[i] < g.hi[id] by {
        if i < u {
            assert(w[i] == n0.keys[i]);
        } else if i > u {
            assert(w[i] == n0.keys[i - 1]);
        }
    }
    assert(w.len() == fanout + 1);
    assert(w[0] < sep);
    assert(block_index(id) <= ctr) by {
        assert(fetch_from(nodes, fanout, id) is Ok);
    }
    assert(fetch_from(nodes3, fanout, id) == Ok::<NodeView, crate::node_store::NodeStoreError>(nl));
    assert(fetch_from(nodes3, fanout, rid) == Ok::<NodeView, crate::node_store::NodeStoreError>(nr));
    assert forall|x: NodeIdent| #[trigger] g.ids.contains(x) implies block_index(x) <= ctr by {
        assert(node_ok(nodes, fanout, g, x));
    }
    assert(!g.ids.contains(rid));
    // the two halves
    assert forall|i: int| 0 <= i < nl.size implies g3.lo[id] <= #[trigger] nl.keys[i] < g3.hi[id]
        && g3.content.contains_key(nl.keys[i]) && g3.content[nl.keys[i]] == nl.vals[i] by {
        assert(nl.keys[i] == live_keys(nl)[i]);
        assert(live_keys(nl)[i] == w[i]);
        assert(w[i] < w[m as int]);
        assert(nl.vals[i] == nl.vals.take(m as int)[i]);
    }
    assert forall|i: int| 0 <= i < nr.size implies g3.lo[rid] <= #[trigger] nr.keys[i] < g3.hi[rid]
        && g3.content.contains_key(nr.keys[i]) && g3.content[nr.keys[i]] == nr.vals[i] by {
        assert(nr.keys[i] == live_keys(nr)[i]);
        assert(live_keys(nr)[i] == w[m + i]);
        if i > 0 {
            assert(w[m as int] < w[m + i]);
        }
        assert(nr.vals[i] == nr.vals.take(m as int + 1)[i]);
    }
    assert forall|k: SearchKey|
        #[trigger] g3.content.contains_key(k) && g.lo[id] <= k < g.hi[id] implies w.contains(k) by {
        if k == key {
            assert(w[u] == key);
        } else {
            assert(live_keys(n0).contains(k));
            let j = choose|j: int| 0 <= j < live_keys(n0).len() && live_keys(n0)[j] == k;
            if j < u {
                assert(w[j] == k);
            } else {
                assert(w[j + 1] == k);
            }
        }
    }
    assert forall|k: SearchKey|
        #[trigger] g3.content.contains_key(k) && g3.lo[id] <= k < g3.hi[id] implies live_keys(
        nl,
    ).contains(k) by {
        assert(w.contains(k));
        let j = choose|j: int| 0 <= j < w.len() && w[j] == k;
        if j >= m {
            if j > m {
                assert(w[m as int] < w[j]);
            }
        }
        assert(live_keys(nl)[j] == k);
    }
    assert forall|k: SearchKey|
        #[trigger] g3.content.contains_key(k) && g3.lo[rid] <= k < g3.hi[rid] implies live_keys(
        nr,
    ).contains(k) by {
        assert(w.contains(k));
        let j = choose|j: int| 0 <= j < w.len() && w[j] == k;
        if j < m {
            assert(w[j] < w[m as int]);
        }
        assert(live_keys(nr)[j - m] == k);
    }
    assert(node_ok(nodes3, fanout, g3, id));
    assert(node_ok(nodes3, fanout, g3, rid));
    // every other node
    assert forall|x: NodeIdent| #[trigger] g3.ids.contains(x) && x != id && x != rid implies node_ok(
        nodes3,
        fanout,
        g3,
        x,
    ) && (Some(x) != parent_of(g, id) ==> edges_ok(nodes3, fanout, g3, x)) by {
        assert(g.ids.contains(x));
        assert(block_index(x) != block_index(id));
        assert(fetch_from(nodes3, fanout, x) == fetch_from(nodes, fanout, x));
        assert(node_ok(nodes, fanout, g, x));
        assert(edges_ok(nodes, fanout, g, x));
        let nx = node_of(nodes, fanout, x);
        if x > 0 {
            assert forall|k: SearchKey|
                #[trigger] g3.content.contains_key(k) && g3.lo[x] <= k < g3.hi[x] implies live_keys(
                nx,
            ).contains(k) by {
                if k == key {
                    assert(g.height[x] == g.height[id]);
                }
            }
        }
        if x < 0 && Some(x) != parent_of(g, id) {
            assert forall|i: int| 0 <= i <= nx.size implies #[trigger] edge_ok(
                nodes3,
                fanout,
                g3,
                x,
                i,
            ) by {
                assert(edge_ok(nodes, fanout, g, x, i));
                let c = nx.vals[i];
                assert(c != id);
                assert(c != rid);
            }
        }
    }
    assert forall|x: NodeIdent, y: NodeIdent|
        #[trigger] g3.ids.contains(x) && #[trigger] g3.ids.contains(y) && x != y implies block_index(x)
        != block_index(y) by {
        if x != rid && y != rid {
            assert(g.ids.contains(x) && g.ids.contains(y));
        }
    }
    assert forall|x: NodeIdent, y: NodeIdent|
        #[trigger] g3.ids.contains(x) && #[trigger] g3.ids.contains(y) && x != y && g3.height[x]
            == g3.height[y] implies g3.hi[x] <= g3.lo[y] || g3.hi[y] <= g3.lo[x] by {
        if x != rid && y != rid && x != id && y != id {
            assert(g.ids.contains(x) && g.ids.contains(y));
        } else if x == rid && y != id {
            assert(g.ids.contains(y));
            assert(g.hi[y] <= g.lo[id] || g.hi[id] <= g.lo[y]);
        } else if y == rid && x != id {
            assert(g.ids.contains(x));
            assert(g.hi[x] <= g.lo[id] || g.hi[id] <= g.lo[x]);
        } else if x == id && y != rid {
            assert(g.ids.contains(y));
            assert(g.hi[y] <= g.lo[id] || g.hi[id] <= g.lo[y]);
        } else if y == id && x != rid {
            assert(g.ids.contains(x));
            assert(g.hi[x] <= g.lo[id] || g.hi[id] <= g.lo[x]);
        }
    }
    assert(g3.content.contains_key(sep)) by {
        assert(g3.content.contains_key(w[m as int]));
    }
    assert(occupancy(nl, fanout, true));
    assert forall|k: int| #[trigger] nodes3.contains_key(k) implies 1 <= k <= ctr + 1 by {
        if k != ctr + 1 && k != block_index(id) {
            assert(nodes.contains_key(k));
        }
    }
    assert forall|x: NodeIdent| #[trigger] g3.ids.contains(x) implies node_ok(nodes3, fanout, g3, x) by {
        if x != id && x != rid {
        }
    }
    assert forall|x: NodeIdent| #[trigger] g3.ids.contains(x) && parent_of(g, id) != Some(x) implies edges_ok(nodes3, fanout, g3, x) by {
        if x != id && x != rid {
        }
    }
    assert(inv_except(nodes3, fanout, g3, ctr + 1, parent_of(g, id), id != g.root));
    assert(rid > 0);
    assert(g3.hi[rid] == g.hi[id]);
    assert(g3.hi[id] == sep);
    assert(g.lo[id] < sep);
    assert(sep < g.hi[id]);
    assert(parent_of(g3, rid) == parent_of(g, id));
    assert(occupancy(node_of(nodes3, fanout, id), fanout, id > 0));
    assert(split_post(g, nodes3, g3, ctr + 1, fanout, id, sep, rid));
    assert(crate::shape::insert_frame(nodes, g, ctr, nodes3, g3, ctr + 1, fanout, id));
}

/// The lower end of the range of child `j` under separators `w`.
pub open spec fn seq_lo(w: Seq<SearchKey>, lo: int, j: int) -> int {
    if j == 0 {
        lo
    } else {
        w[j - 1] as int
    }
}

/// The upper end of the range of child `j` under separators `w`.
pub open spec fn seq_hi(w: Seq<SearchKey>, hi: int, j: int) -> int {
    if j == w.len() {
        hi
    } else {
        w[j] as int
    }
}

/// Child `j` among `v` of the inner node `p` with separators `w` links
/// back to `p`, sits one level lower, and covers the range `w` gives it.
pub open spec fn child_in_place(
    g: Shape,
    p: NodeIdent,
    w: Seq<SearchKey>,
    v: Seq<NodeIdent>,
    lo: int,
    hi: int,
    j: int,
) -> bool {
    let c = v[j];
    &&& g.ids.contains(c)
    &&& g.parent.contains_key(c)
    &&& g.parent[c] == p
    &&& g.height[c] + 1 == g.height[p]
    &&& g.lo[c] == seq_lo(w, lo, j)
    &&& g.hi[c] == seq_hi(w, hi, j)
}

/// The live children of an inner node of a well-formed tree are distinct.
pub proof fn lemma_children_distinct(
    nodes: Map<int, NodeView>,
    fanout: nat,
    g: Shape,
    ctr: int,
    skip: Option<NodeIdent>,
    root_hi_ok: bool,
    p: NodeIdent,
)
    requires
        inv_except(nodes, fanout, g, ctr, skip, root_hi_ok),
        g.ids.contains(p),
        p < 0,
        skip != Some(p),
    ensures
        forall|i: int, j: int|
            0 <= i < j <= node_of(nodes, fanout, p).size ==> node_of(nodes, fanout, p).vals[i]
                != node_of(nodes, fanout, p).vals[j],
{
    let n = node_of(nodes, fanout, p);
    assert(node_ok(nodes, fanout, g, p));
    assert(edges_ok(nodes, fanout, g, p));
    assert(valid_node(n, fanout, false));
    assert forall|i: int, j: int| 0 <= i < j <= n.size implies n.vals[i] != n.vals[j] by {
        assert(edge_ok(nodes, fanout, g, p, i));
        assert(edge_ok(nodes, fanout, g, p, j));
        assert(edge_ok(nodes, fanout, g, p, 0));
        assert(node_ok(nodes, fanout, g, n.vals[0]));
        if i == 0 {
            assert(g.lo[p] < n.keys[0]);
            if j - 1 > 0 {
                assert(live_keys(n)[0] < live_keys(n)[j - 1]);
            }
        } else {
            assert(live_keys(n)[i - 1] < live_keys(n)[j - 1]);
        }
    }
}

/// After the child at position `u` of the inner node `p` split at `sep`
/// into itself and `rid`, the separators of `p` with `sep` inserted and its
/// children with `rid` inserted after the child are all in place.
#[verifier::rlimit(60)]
pub proof fn lemma_inner_children(
    nodes0: Map<int, NodeView>,
    g0: Shape,
    ctr0: int,
    nodes1: Map<int, NodeView>,
    g1: Shape,
    ctr1: int,
    fanout: nat,
    p: NodeIdent,
    u: int,
    key: SearchKey,
    data: NodeIdent,
    sep: SearchKey,
    rid: NodeIdent,
)
    requires
        tree_inv(nodes0, fanout, g0, ctr0),
        g0.ids.contains(p),
        p < 0,
        0 <= u <= node_of(nodes0, fanout, p).size,
        insert_frame(nodes0, g0, ctr0, nodes1, g1, ctr1, fanout, node_of(nodes0, fanout, p).vals[u]),
        split_post(g0, nodes1, g1, ctr1, fanout, node_of(nodes0, fanout, p).vals[u], sep, rid),
        g1.content == g0.content.insert(key, data),
    ensures
        ({
            let n0 = node_of(nodes0, fanout, p);
            let w = live_keys(n0).insert(u, sep);
            let v = n0.vals.take(n0.size as int + 1).insert(u + 1, rid);
            &&& strictly_sorted(w)
            &&& forall|j: int| 0 <= j < u ==> n0.keys[j] < sep
            &&& forall|j: int| u <= j < n0.size ==> n0.keys[j] > sep
            &&& forall|j: int|
                0 <= j < w.len() ==> g0.lo[p] <= #[trigger] w[j] < g0.hi[p] && g1.content.contains_key(
                    w[j],
                )
            &&& forall|j: int|
                0 <= j <= w.len() ==> #[trigger] child_in_place(g1, p, w, v, g0.lo[p], g0.hi[p], j)
            &&& forall|i: int, j: int| 0 <= i < j <= w.len() ==> v[i] != v[j]
            &&& fetch_from(nodes1, fanout, p) == fetch_from(nodes0, fanout, p)
            &&& g1.ids.contains(p)
            &&& g1.lo[p] == g0.lo[p]
            &&& g1.hi[p] == g0.hi[p]
            &&& g1.height[p] == g0.height[p]
            &&& parent_of(g1, p) == parent_of(g0, p)
            &&& parent_of(g0, node_of(nodes0, fanout, p).vals[u]) == Some(p)
            &&& p != g0.root ==> occupancy(n0, fanout, false)
        }),
{
    let n0 = node_of(nodes0, fanout, p);
    let c = n0.vals[u];
    let w = live_keys(n0).insert(u, sep);
    let v = n0.vals.take(n0.size as int + 1).insert(u + 1, rid);
    let lk = live_keys(n0);
    assert(node_ok(nodes0, fanout, g0, p));
    assert(edges_ok(nodes0, fanout, g0, p));
    assert(valid_node(n0, fanout, false));
    assert(edge_ok(nodes0, fanout, g0, p, u));
    lemma_children_distinct(nodes0, fanout, g0, ctr0, None, true, p);
    assert(g0.height[p] > g0.height[c]);
    assert(parent_of(g0, c) == Some(p));
    // the separator fits between its neighbours
    assert forall|j: int| 0 <= j < u implies n0.keys[j] < sep by {
        assert(lk[j] == n0.keys[j]);
        if j < u - 1 {
            assert(lk[j] < lk[u - 1]);
        }
    }
    assert forall|j: int| u <= j < n0.size implies n0.keys[j] > sep by {
        assert(lk[j] == n0.keys[j]);
        if j > u {
            assert(lk[u] < lk[j]);
        }
    }
    crate::node::lemma_insert_sorted(lk, u, sep);
    // the separators lie in the node's range and in the content
    assert forall|j: int| 0 <= j < w.len() implies g0.lo[p] <= #[trigger] w[j] < g0.hi[p]
        && g1.content.contains_key(w[j]) by {
        if j < u {
            assert(w[j] == n0.keys[j]);
        } else if j > u {
            assert(w[j] == n0.keys[j - 1]);
        } else {
            if u > 0 {
                assert(n0.keys[u - 1] >= g0.lo[p]);
            }
            if u < n0.size {
                assert(n0.keys[u as int] < g0.hi[p]);
            }
        }
    }
    // each child is in place
    assert forall|j: int| 0 <= j <= w.len() implies #[trigger] child_in_place(
        g1,
        p,
        w,
        v,
        g0.lo[p],
        g0.hi[p],
        j,
    ) by {
        if j <= u {
            assert(v[j] == n0.vals[j]);
            assert(edge_ok(nodes0, fanout, g0, p, j));
            if j > 0 {
                assert(w[j - 1] == n0.keys[j - 1]);
            }
            if j < u {
                assert(w[j] == n0.keys[j]);
                assert(n0.vals[j] != c);
            }
        } else if j == u + 1 {
            assert(v[j] == rid);
            if u < n0.size {
                assert(w[u + 1] == n0.keys[u]);
            }
        } else {
            assert(v[j] == n0.vals[j - 1]);
            assert(edge_ok(nodes0, fanout, g0, p, j - 1));
            assert(n0.vals[j - 1] != c);
            assert(w[j - 1] == n0.keys[j - 2]);
            if j < w.len() {
                assert(w[j] == n0.keys[j - 1]);
            }
        }
    }
    // the children are distinct
    assert forall|i: int, j: int| 0 <= i < j <= w.len() implies v[i] != v[j] by {
        if i == u + 1 {
            let b = j - 1;
            assert(v[j] == n0.vals[b]);
            assert(edge_ok(nodes0, fanout, g0, p, b));
            assert(g0.ids.contains(v[j]));
        } else if j == u + 1 {
            assert(v[i] == n0.vals[i]);
            assert(edge_ok(nodes0, fanout, g0, p, i));
            assert(g0.ids.contains(v[i]));
        } else {
            let a = if i <= u { i } else { i - 1 };
            let b = if j <= u { j } else { j - 1 };
            assert(v[i] == n0.vals[a]);
            assert(v[j] == n0.vals[b]);
        }
    }
}

/// Adding the separator and the new child to an inner node that does not
/// overflow makes the tree well formed again.
#[verifier::rlimit(60)]
pub proof fn lemma_inner_fits(
    nodes0: Map<int, NodeView>,
    g0: Shape,
    ctr0: int,
    nodes1: Map<int, NodeView>,
    g1: Shape,
    ctr1: int,
    fanout: nat,
    p: NodeIdent,
    u: int,
    key: SearchKey,
    data: NodeIdent,
    sep: SearchKey,
    rid: NodeIdent,
    n1: NodeView,
)
    requires
        tree_inv(nodes0, fanout, g0, ctr0),
        g0.ids.contains(p),
        p < 0,
        0 <= u <= node_of(nodes0, fanout, p).size,
        insert_frame(nodes0, g0, ctr0, nodes1, g1, ctr1, fanout, node_of(nodes0, fanout, p).vals[u]),
        split_post(g0, nodes1, g1, ctr1, fanout, node_of(nodes0, fanout, p).vals[u], sep, rid),
        g1.content == g0.content.insert(key, data),
        valid_node(n1, fanout, false),
        n1.size == node_of(nodes0, fanout, p).size + 1,
        live_keys(n1) == live_keys(node_of(nodes0, fanout, p)).insert(u, sep),
        n1.vals.take(n1.size as int + 1) == node_of(nodes0, fanout, p).vals.take(
            node_of(nodes0, fanout, p).size as int + 1,
        ).insert(u + 1, rid),
    ensures
        tree_inv(nodes1.insert(block_index(p), n1), fanout, g1, ctr1),
        insert_frame(nodes0, g0, ctr0, nodes1.insert(block_index(p), n1), g1, ctr1, fanout, p),
{
    let n0 = node_of(nodes0, fanout, p);
    let c = n0.vals[u];
    let w = live_keys(n0).insert(u, sep);
    let v = n0.vals.take(n0.size as int + 1).insert(u + 1, rid);
    let nodes2 = nodes1.insert(block_index(p), n1);
    lemma_inner_children(nodes0, g0, ctr0, nodes1, g1, ctr1, fanout, p, u, key, data, sep, rid);
    assert(g0.height[c] < g0.height[p]) by {
        assert(edges_ok(nodes0, fanout, g0, p));
        assert(edge_ok(nodes0, fanout, g0, p, u));
    }
    assert(c != g0.root);
    assert(inv_except(nodes1, fanout, g1, ctr1, Some(p), true));
    assert(fetch_from(nodes2, fanout, p) == Ok::<NodeView, crate::node_store::NodeStoreError>(n1));
    assert(block_index(p) <= ctr0) by {
        assert(node_ok(nodes0, fanout, g0, p));
    }
    assert(node_ok(nodes0, fanout, g0, p));
    // the node itself
    assert forall|i: int| 0 <= i < n1.size implies g1.lo[p] <= #[trigger] n1.keys[i] < g1.hi[p]
        && g1.content.contains_key(n1.keys[i]) by {
        assert(n1.keys[i] == live_keys(n1)[i]);
        assert(live_keys(n1)[i] == w[i]);
    }
    assert(node_ok(nodes2, fanout, g1, p));
    assert forall|i: int| 0 <= i <= n1.size implies #[trigger] edge_ok(nodes2, fanout, g1, p, i) by {
        assert(child_in_place(g1, p, w, v, g0.lo[p], g0.hi[p], i));
        assert(n1.vals[i] == v[i]);
        if i > 0 {
            assert(n1.keys[i - 1] == w[i - 1]);
        }
        if i < n1.size {
            assert(n1.keys[i] == w[i]);
        }
    }
    // every other node
    assert forall|x: NodeIdent| #[trigger] g1.ids.contains(x) implies node_ok(nodes2, fanout, g1, x)
        && edges_ok(nodes2, fanout, g1, x) by {
        if x != p {
            assert(block_index(x) != block_index(p));
            assert(fetch_from(nodes2, fanout, x) == fetch_from(nodes1, fanout, x));
            assert(node_ok(nodes1, fanout, g1, x));
            assert(edges_ok(nodes1, fanout, g1, x));
            if x < 0 {
                assert forall|i: int| 0 <= i <= node_of(nodes1, fanout, x).size implies #[trigger] edge_ok(
                    nodes2,
                    fanout,
                    g1,
                    x,
                    i,
                ) by {
                    assert(edge_ok(nodes1, fanout, g1, x, i));
                }
            }
        }
    }
    assert forall|k: int| #[trigger] nodes2.contains_key(k) implies 1 <= k <= ctr1 by {
        if k != block_index(p) {
            assert(nodes1.contains_key(k));
        }
    }
    assert forall|x: NodeIdent|
        #[trigger] g0.ids.contains(x) && x != p && g0.height[x] >= g0.height[p] implies fetch_from(
        nodes2,
        fanout,
        x,
    ) == fetch_from(nodes0, fanout, x) by {
        assert(g1.ids.contains(x));
        assert(g1.ids.contains(p));
        assert(block_index(x) != block_index(p));
        assert(x != c);
        assert(fetch_from(nodes1, fanout, x) == fetch_from(nodes0, fanout, x));
        assert(fetch_from(nodes2, fanout, x) == fetch_from(nodes1, fanout, x));
    }
}

/// The shape with `q` as the parent of every node of `kids`.
pub open spec fn adopt(g: Shape, kids: Seq<NodeIdent>, q: NodeIdent) -> Shape {
    Shape {
        parent: Map::new(
            |x: NodeIdent| g.parent.contains_key(x) || kids.contains(x),
            |x: NodeIdent|
                if kids.contains(x) {
                    q
                } else {
                    g.parent[x]
                },
        ),
        ..g
    }
}

/// An insertion below the inner node `p` that changed nothing at `p`'s
/// level or above changed nothing there as seen from `p` either.
pub proof fn lemma_frame_lift(
    nodes0: Map<int, NodeView>,
    g0: Shape,
    ctr0: int,
    nodes1: Map<int, NodeView>,
    g1: Shape,
    ctr1: int,
    fanout: nat,
    p: NodeIdent,
    c: NodeIdent,
)
    requires
        g0.ids.contains(p),
        g0.height[c] + 1 == g0.height[p],
        insert_frame(nodes0, g0, ctr0, nodes1, g1, ctr1, fanout, c),
    ensures
        insert_frame(nodes0, g0, ctr0, nodes1, g1, ctr1, fanout, p),
        fetch_from(nodes1, fanout, p) == fetch_from(nodes0, fanout, p),
        g1.hi[p] == g0.hi[p],
{
}

/// Adding the separator and the new child to a full inner node, which then
/// splits at its middle separator, leaves the tree well formed but for the
/// link to the new right node.
#[verifier::rlimit(100)]
pub proof fn lemma_inner_split(
    nodes0: Map<int, NodeView>,
    g0: Shape,
    ctr0: int,
    nodes1: Map<int, NodeView>,
    g1: Shape,
    ctr1: int,
    fanout: nat,
    p: NodeIdent,
    u: int,
    key: SearchKey,
    data: NodeIdent,
    sep: SearchKey,
    rid: NodeIdent,
    nl: NodeView,
    nr: NodeView,
)
    requires
        tree_inv(nodes0, fanout, g0, ctr0),
        g0.ids.contains(p),
        p < 0,
        0 <= u <= node_of(nodes0, fanout, p).size,
        node_of(nodes0, fanout, p).size + 1 == fanout,
        insert_frame(nodes0, g0, ctr0, nodes1, g1, ctr1, fanout, node_of(nodes0, fanout, p).vals[u]),
        split_post(g0, nodes1, g1, ctr1, fanout, node_of(nodes0, fanout, p).vals[u], sep, rid),
        g1.content == g0.content.insert(key, data),
        ctr1 < i32::MAX,
        valid_node(nl, fanout, false),
        valid_node(nr, fanout, false),
        ({
            let n0 = node_of(nodes0, fanout, p);
            let m = (fanout / 2) as int;
            let w = live_keys(n0).insert(u, sep);
            let v = n0.vals.take(n0.size as int + 1).insert(u + 1, rid);
            &&& nl.size == m - 1
            &&& live_keys(nl) == w.take(m - 1)
            &&& nl.vals.take(m) == v.take(m)
            &&& nr.size == m
            &&& live_keys(nr) == w.subrange(m, fanout as int)
            &&& nr.vals.take(m + 1) == v.subrange(m, fanout as int + 1)
        }),
    ensures
        ({
            let n0 = node_of(nodes0, fanout, p);
            let m = (fanout / 2) as int;
            let w = live_keys(n0).insert(u, sep);
            let v = n0.vals.take(n0.size as int + 1).insert(u + 1, rid);
            let q = -(ctr1 + 1) as i32;
            let pivot = w[m - 1];
            let nodes2 = nodes1.insert(block_index(p), nl).insert(ctr1 + 1, nr);
            let g2 = adopt(split_shape(g1, p, q, pivot), v.subrange(m, fanout as int + 1), q);
            &&& split_post(g0, nodes2, g2, ctr1 + 1, fanout, p, pivot, q)
            &&& insert_frame(nodes0, g0, ctr0, nodes2, g2, ctr1 + 1, fanout, p)
            &&& g2.content == g1.content
        }),
{
    let n0 = node_of(nodes0, fanout, p);
    let c = n0.vals[u];
    let m = (fanout / 2) as int;
    let w = live_keys(n0).insert(u, sep);
    let v = n0.vals.take(n0.size as int + 1).insert(u + 1, rid);
    let q = -(ctr1 + 1) as i32;
    let pivot = w[m - 1];
    let kids = v.subrange(m, fanout as int + 1);
    let nodes2 = nodes1.insert(block_index(p), nl).insert(ctr1 + 1, nr);
    let g15 = split_shape(g1, p, q, pivot);
    let g2 = adopt(g15, kids, q);
    lemma_inner_children(nodes0, g0, ctr0, nodes1, g1, ctr1, fanout, p, u, key, data, sep, rid);
    assert(g0.height[c] < g0.height[p]) by {
        assert(edges_ok(nodes0, fanout, g0, p));
        assert(edge_ok(nodes0, fanout, g0, p, u));
    }
    assert(c != g0.root);
    assert(inv_except(nodes1, fanout, g1, ctr1, Some(p), true));
    assert(fanout >= 4 && fanout % 2 == 0);
    assert(w.len() == fanout);
    assert(v.len() == fanout + 1);
    assert(block_index(q) == ctr1 + 1);
    assert forall|x: NodeIdent| #[trigger] g1.ids.contains(x) implies block_index(x) <= ctr1 by {
        assert(node_ok(nodes1, fanout, g1, x));
    }
    assert(!g1.ids.contains(q));
    assert(fetch_from(nodes2, fanout, p) == Ok::<NodeView, crate::node_store::NodeStoreError>(nl));
    assert(fetch_from(nodes2, fanout, q) == Ok::<NodeView, crate::node_store::NodeStoreError>(nr));
    // which children move
    assert forall|j: int| 0 <= j < m implies !kids.contains(#[trigger] v[j]) by {
        if kids.contains(v[j]) {
            let k = choose|k: int| 0 <= k < kids.len() && kids[k] == v[j];
            assert(kids[k] == v[m + k]);
        }
    }
    assert forall|j: int| m <= j <= fanout implies kids.contains(#[trigger] v[j]) by {
        assert(kids[j - m] == v[j]);
    }
    assert forall|x: NodeIdent| #[trigger] kids.contains(x) implies g1.ids.contains(x) && g1.parent.contains_key(x)
        && g1.parent[x] == p && g1.height[x] + 1 == g1.height[p] by {
        let k = choose|k: int| 0 <= k < kids.len() && kids[k] == x;
        assert(kids[k] == v[m + k]);
        assert(child_in_place(g1, p, w, v, g0.lo[p], g0.hi[p], m + k));
    }
    assert(!kids.contains(q));
    assert(!kids.contains(p));
    assert(w[0] < pivot) by {
        assert(m - 1 >= 1);
    }
    // the two halves
    assert forall|i: int| 0 <= i < nl.size implies g2.lo[p] <= #[trigger] nl.keys[i] < g2.hi[p]
        && g2.content.contains_key(nl.keys[i]) by {
        assert(nl.keys[i] == live_keys(nl)[i]);
        assert(live_keys(nl)[i] == w[i]);
        assert(w[i] < w[m - 1]);
    }
    assert forall|i: int| 0 <= i < nr.size implies g2.lo[q] <= #[trigger] nr.keys[i] < g2.hi[q]
        && g2.content.contains_key(nr.keys[i]) by {
        assert(nr.keys[i] == live_keys(nr)[i]);
        assert(live_keys(nr)[i] == w[m + i]);
        assert(w[m - 1] < w[m + i]);
    }
    assert(node_ok(nodes2, fanout, g2, p));
    assert(node_ok(nodes2, fanout, g2, q));
    assert forall|j: int| 0 <= j <= nl.size implies #[trigger] edge_ok(nodes2, fanout, g2, p, j) by {
        assert(child_in_place(g1, p, w, v, g0.lo[p], g0.hi[p], j));
        assert(nl.vals[j] == nl.vals.take(m)[j]);
        assert(nl.vals[j] == v[j]);
        assert(!kids.contains(v[j]));
        assert(v[j] != p);
        if j > 0 {
            assert(nl.keys[j - 1] == live_keys(nl)[j - 1]);
        }
        if j < nl.size {
            assert(nl.keys[j] == live_keys(nl)[j]);
        }
    }
    assert forall|j: int| 0 <= j <= nr.size implies #[trigger] edge_ok(nodes2, fanout, g2, q, j) by {
        assert(child_in_place(g1, p, w, v, g0.lo[p], g0.hi[p], m + j));
        assert(nr.vals[j] == nr.vals.take(m + 1)[j]);
        assert(nr.vals[j] == v[m + j]);
        assert(kids.contains(v[m + j]));
        assert(v[m + j] != p);
        if j > 0 {
            assert(nr.keys[j - 1] == live_keys(nr)[j - 1]);
            assert(live_keys(nr)[j - 1] == w[m + j - 1]);
        }
        if j < nr.size {
            assert(nr.keys[j] == live_keys(nr)[j]);
            assert(live_keys(nr)[j] == w[m + j]);
        }
    }
    // every other node
    assert forall|x: NodeIdent| #[trigger] g2.ids.contains(x) && x != p && x != q implies node_ok(
        nodes2,
        fanout,
        g2,
        x,
    ) && (Some(x) != parent_of(g0, p) ==> edges_ok(nodes2, fanout, g2, x)) by {
        assert(g1.ids.contains(x));
        assert(block_index(x) != block_index(p));
        assert(fetch_from(nodes2, fanout, x) == fetch_from(nodes1, fanout, x));
        assert(node_ok(nodes1, fanout, g1, x));
        if x < 0 && Some(x) != parent_of(g0, p) {
            assert(edges_ok(nodes1, fanout, g1, x));
            assert forall|i: int| 0 <= i <= node_of(nodes1, fanout, x).size implies #[trigger] edge_ok(
                nodes2,
                fanout,
                g2,
                x,
                i,
            ) by {
                assert(edge_ok(nodes1, fanout, g1, x, i));
                let cc = node_of(nodes1, fanout, x).vals[i];
                assert(cc != q);
                assert(cc != p);
                assert(!kids.contains(cc));
            }
        }
    }
    assert forall|k: int| #[trigger] nodes2.contains_key(k) implies 1 <= k <= ctr1 + 1 by {
        if k != ctr1 + 1 && k != block_index(p) {
            assert(nodes1.contains_key(k));
        }
    }
    assert forall|x: NodeIdent, y: NodeIdent|
        #[trigger] g2.ids.contains(x) && #[trigger] g2.ids.contains(y) && x != y implies block_index(x)
        != block_index(y) by {
        if x != q && y != q {
            assert(g1.ids.contains(x) && g1.ids.contains(y));
        }
    }
    assert forall|x: NodeIdent, y: NodeIdent|
        #[trigger] g2.ids.contains(x) && #[trigger] g2.ids.contains(y) && x != y && g2.height[x]
            == g2.height[y] implies g2.hi[x] <= g2.lo[y] || g2.hi[y] <= g2.lo[x] by {
        if x != q && y != q && x != p && y != p {
            assert(g1.ids.contains(x) && g1.ids.contains(y));
        } else if x == q && y != p {
            assert(g1.ids.contains(y));
            assert(g1.hi[y] <= g1.lo[p] || g1.hi[p] <= g1.lo[y]);
        } else if y == q && x != p {
            assert(g1.ids.contains(x));
            assert(g1.hi[x] <= g1.lo[p] || g1.hi[p] <= g1.lo[x]);
        } else if x == p && y != q {
            assert(g1.ids.contains(y));
            assert(g1.hi[y] <= g1.lo[p] || g1.hi[p] <= g1.lo[y]);
        } else if y == p && x != q {
            assert(g1.ids.contains(x));
            assert(g1.hi[x] <= g1.lo[p] || g1.hi[p] <= g1.lo[x]);
        }
    }
    assert forall|x: NodeIdent| #[trigger] g2.ids.contains(x) implies node_ok(nodes2, fanout, g2, x) by {
        if x != p && x != q {
        }
    }
    assert forall|x: NodeIdent|
        #[trigger] g2.ids.contains(x) && parent_of(g0, p) != Some(x) implies edges_ok(
        nodes2,
        fanout,
        g2,
        x,
    ) by {
        if x != p && x != q {
        }
    }
    assert(!g2.parent.contains_key(g2.root));
    assert(inv_except(nodes2, fanout, g2, ctr1 + 1, parent_of(g0, p), p != g0.root));
    assert(parent_of(g2, q) == parent_of(g0, p));
    assert(g2.content.contains_key(pivot));
    assert(occupancy(nl, fanout, false));
    assert(split_post(g0, nodes2, g2, ctr1 + 1, fanout, p, pivot, q));
    assert forall|x: NodeIdent|
        #[trigger] g0.ids.contains(x) && x != p && g0.height[x] >= g0.height[p] implies fetch_from(
        nodes2,
        fanout,
        x,
    ) == fetch_from(nodes0, fanout, x) && g2.lo[x] == g0.lo[x] && g2.hi[x] == g0.hi[x]
        && parent_of(g2, x) == parent_of(g0, x) by {
        assert(g1.ids.contains(x));
        assert(g1.height[x] == g0.height[x]);
        assert(g1.height[p] == g0.height[p]);
        assert(block_index(x) != block_index(p));
        assert(block_index(x) <= ctr1);
        assert(x != c);
        assert(x != q);
        if kids.contains(x) {
            assert(g1.height[x] + 1 == g1.height[p]);
        }
        assert(fetch_from(nodes1, fanout, x) == fetch_from(nodes0, fanout, x));
        assert(fetch_from(nodes2, fanout, x) == fetch_from(nodes1, fanout, x));
        assert(g15.parent.contains_key(x) == g1.parent.contains_key(x));
        assert(g15.parent[x] == g1.parent[x]);
        assert(g2.parent.contains_key(x) == g15.parent.contains_key(x));
        if g15.parent.contains_key(x) {
            assert(g2.parent[x] == g15.parent[x]);
        }
        assert(g2.lo[x] == g1.lo[x]);
        assert(g2.hi[x] == g1.hi[x]);
        assert(g1.lo[x] == g0.lo[x]);
        assert(g1.hi[x] == g0.hi[x]);
    }
    assert(insert_frame(nodes0, g0, ctr0, nodes2, g2, ctr1 + 1, fanout, p));
}

/// The shape after the root `old_root` split off `rid` and the new root
/// `new_root` took both as its children.
pub open spec fn promote_shape(g: Shape, old_root: NodeIdent, rid: NodeIdent, new_root: NodeIdent) -> Shape {
    Shape {
        root: new_root,
        ids: g.ids.insert(new_root),
        lo: g.lo.insert(new_root, key_min()),
        hi: g.hi.insert(new_root, key_end()),
        height: g.height.insert(new_root, g.height[old_root] + 1),
        parent: g.parent.insert(old_root, new_root).insert(rid, new_root).remove(new_root),
        content: g.content,
    }
}

/// A new inner root over the split old root and its new sibling makes the
/// tree well formed again, one level taller.
#[verifier::rlimit(60)]
pub proof fn lemma_root_promotion(
    nodes0: Map<int, NodeView>,
    g0: Shape,
    ctr0: int,
    nodes1: Map<int, NodeView>,
    g1: Shape,
    ctr1: int,
    fanout: nat,
    sep: SearchKey,
    rid: NodeIdent,
    nr: NodeView,
)
    requires
        tree_inv(nodes0, fanout, g0, ctr0),
        insert_frame(nodes0, g0, ctr0, nodes1, g1, ctr1, fanout, g0.root),
        split_post(g0, nodes1, g1, ctr1, fanout, g0.root, sep, rid),
        0 <= ctr1 < i32::MAX,
        valid_node(nr, fanout, false),
        nr.size == 1,
        nr.keys[0] == sep,
        nr.vals[0] == g0.root,
        nr.vals[1] == rid,
    ensures
        tree_inv(
            nodes1.insert(ctr1 + 1, nr),
            fanout,
            promote_shape(g1, g0.root, rid, -(ctr1 + 1) as i32),
            ctr1 + 1,
        ),
{
    let old_root = g0.root;
    let r = -(ctr1 + 1) as i32;
    let nodes2 = nodes1.insert(ctr1 + 1, nr);
    let g2 = promote_shape(g1, old_root, rid, r);
    assert(node_ok(nodes0, fanout, g0, old_root));
    assert(inv_except(nodes1, fanout, g1, ctr1, None, false));
    assert(block_index(r) == ctr1 + 1);
    assert forall|x: NodeIdent| #[trigger] g1.ids.contains(x) implies block_index(x) <= ctr1 by {
        assert(node_ok(nodes1, fanout, g1, x));
    }
    assert(!g1.ids.contains(r));
    assert(g1.ids.contains(old_root));
    assert(fetch_from(nodes2, fanout, r) == Ok::<NodeView, crate::node_store::NodeStoreError>(nr));
    assert(g1.root == old_root);
    assert(!g1.parent.contains_key(old_root));
    assert(!g1.parent.contains_key(rid));
    assert(g1.height[old_root] == g0.height[old_root]);
    assert(rid != old_root);
    // the new root
    assert(node_ok(nodes2, fanout, g2, r)) by {
        assert(nr.keys[0] == live_keys(nr)[0]);
    }
    assert forall|i: int| 0 <= i <= nr.size implies #[trigger] edge_ok(nodes2, fanout, g2, r, i) by {
    }
    // every other node
    assert forall|x: NodeIdent| #[trigger] g2.ids.contains(x) && x != r implies node_ok(
        nodes2,
        fanout,
        g2,
        x,
    ) && edges_ok(nodes2, fanout, g2, x) by {
        assert(g1.ids.contains(x));
        assert(block_index(x) != ctr1 + 1);
        assert(fetch_from(nodes2, fanout, x) == fetch_from(nodes1, fanout, x));
        assert(node_ok(nodes1, fanout, g1, x));
        assert(edges_ok(nodes1, fanout, g1, x));
        if x < 0 {
            assert forall|i: int| 0 <= i <= node_of(nodes1, fanout, x).size implies #[trigger] edge_ok(
                nodes2,
                fanout,
                g2,
                x,
                i,
            ) by {
                assert(edge_ok(nodes1, fanout, g1, x, i));
                let cc = node_of(nodes1, fanout, x).vals[i];
                assert(cc != old_root);
                assert(cc != rid);
                assert(cc != r);
            }
        }
    }
    assert forall|x: NodeIdent| #[trigger] g2.ids.contains(x) implies node_ok(nodes2, fanout, g2, x)
        && edges_ok(nodes2, fanout, g2, x) by {
        if x != r {
        }
    }
    assert forall|x: NodeIdent| #[trigger] g2.ids.contains(x) implies g2.height[x] <= g2.height[g2.root] by {
        if x != r {
            assert(g1.ids.contains(x));
        }
    }
    assert forall|k: int| #[trigger] nodes2.contains_key(k) implies 1 <= k <= ctr1 + 1 by {
        if k != ctr1 + 1 {
            assert(nodes1.contains_key(k));
        }
    }
    assert forall|x: NodeIdent, y: NodeIdent|
        #[trigger] g2.ids.contains(x) && #[trigger] g2.ids.contains(y) && x != y implies block_index(x)
        != block_index(y) by {
        if x != r && y != r {
            assert(g1.ids.contains(x) && g1.ids.contains(y));
        }
    }
    assert forall|x: NodeIdent, y: NodeIdent|
        #[trigger] g2.ids.contains(x) && #[trigger] g2.ids.contains(y) && x != y && g2.height[x]
            == g2.height[y] implies g2.hi[x] <= g2.lo[y] || g2.hi[y] <= g2.lo[x] by {
        if x != r && y != r {
            assert(g1.ids.contains(x) && g1.ids.contains(y));
        } else if x == r {
            assert(g1.ids.contains(y));
        } else {
            assert(g1.ids.contains(x));
        }
    }
    assert(g2.height[r] < ctr1 + 1);
}

} // verus!
