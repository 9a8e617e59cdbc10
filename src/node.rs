//! Nodes of the B+-tree and the array primitives used to fill them.
use crate::file_store::{block_index, check_node, FileStore};
use crate::insert_proof::{
    adopt, lemma_frame_lift, lemma_inner_children, lemma_inner_fits, lemma_inner_split,
    lemma_leaf_fits, lemma_leaf_split, split_shape, with_entry,
};
use crate::node_store::NodeStoreError;
use crate::shape::{
    edge_ok, edges_ok, insert_post, insert_pre, key_pos, leaf_get, lemma_count_le, lookup, node_of,
    node_ok, route,
};
use vstd::prelude::*;

verus! {

/// Identifier of a node: positive for a leaf, negative for an inner node,
/// with the magnitude giving the block index. Zero is the empty slot.
pub type NodeIdent = i32;

/// A search key. Zero is reserved as the empty-slot sentinel.
pub type SearchKey = i64;

/// A node of the tree. For an inner node `separators` holds the routing keys
/// and `children` the child identifiers (`size + 1` of them are live); for a
/// leaf `separators` holds the keys and `children` the payload identifiers
/// (`size` of each are live). Both vectors have the fanout as their length.
#[derive(Debug)]
pub struct Node {
    pub separators: Vec<SearchKey>,
    pub children: Vec<NodeIdent>,
    pub size: usize,
}

/// The mathematical content of a [`Node`].
pub struct NodeView {
    pub keys: Seq<SearchKey>,
    pub vals: Seq<NodeIdent>,
    pub size: nat,
}

impl View for Node {
    type V = NodeView;

    open spec fn view(&self) -> NodeView {
        NodeView { keys: self.separators@, vals: self.children@, size: self.size as nat }
    }
}

/// A payload value carried alongside a key.
pub struct Data<T> {
    pub data: T,
}

/// Why a node could not be built.
pub enum NodeCreationError {
    /// More entries than the fanout allows.
    CapacityExceeded,
}

/// The outcome of inserting into a subtree.
#[derive(Debug, PartialEq, Eq, Structural, Clone, Copy)]
pub enum InsertionResult {
    /// The entry was added and the subtree's root still fits.
    Inserted,
    /// The entry was added and the subtree's root split: the separator to add
    /// to the parent, and the identifier of the new right sibling.
    NodeOverflow(SearchKey, NodeIdent),
    /// A node could not be read or written.
    InsertError(NodeStoreError),
    /// The key is already present; nothing changed.
    DuplicateKey,
    /// The key is zero, the reserved empty-slot sentinel; nothing changed.
    ZeroKey,
}

/// The first index at or after `from` and before `end` that holds `empty`, or
/// `end` if there is none.
pub open spec fn first_empty(s: Seq<SearchKey>, from: int, end: int, empty: SearchKey) -> int
    decreases end - from,
{
    if from >= end {
        end
    } else if s[from] == empty {
        from
    } else {
        first_empty(s, from + 1, end, empty)
    }
}

proof fn lemma_first_empty_bounds(s: Seq<SearchKey>, from: int, end: int, empty: SearchKey)
    requires
        from <= end,
    ensures
        from <= first_empty(s, from, end, empty) <= end,
        forall|j: int| from <= j < first_empty(s, from, end, empty) ==> s[j] != empty,
        first_empty(s, from, end, empty) < end ==> s[first_empty(s, from, end, empty)] == empty,
    decreases end - from,
{
    if from < end && s[from] != empty {
        lemma_first_empty_bounds(s, from + 1, end, empty);
    }
}

/// The window `s[0..end]` with `key` inserted at `index` (one element longer).
pub open spec fn cascade(s: Seq<SearchKey>, end: int, index: int, key: SearchKey) -> Seq<SearchKey> {
    s.take(end).insert(index, key)
}

/// Inserts `key` at `index` of the window `slice[0..end]`, shifting the
/// following elements one place to the right until a slot holding `empty` is
/// consumed. If the window held no empty slot at or after `index`, the value
/// pushed out of its last slot is returned.
pub fn insert_into_array(
    slice: &mut Vec<SearchKey>,
    end: usize,
    index: usize,
    key: SearchKey,
    empty: SearchKey,
) -> (r: Option<SearchKey>)
    requires
        index <= end <= old(slice)@.len(),
    ensures
        first_empty(old(slice)@, index as int, end as int, empty) < end ==> r == None::<SearchKey>
            && final(slice)@ == cascade(old(slice)@, end as int, index as int, key).remove(
            first_empty(old(slice)@, index as int, end as int, empty) + 1,
        ) + old(slice)@.skip(end as int),
        first_empty(old(slice)@, index as int, end as int, empty) == end ==> r == Some(
            cascade(old(slice)@, end as int, index as int, key)[end as int],
        ) && final(slice)@ == cascade(old(slice)@, end as int, index as int, key).take(end as int)
            + old(slice)@.skip(end as int),
{
    let ghost s0 = (*slice)@;
    let ghost e = first_empty(s0, index as int, end as int, empty);
    let ghost w = cascade(s0, end as int, index as int, key);
    proof {
        lemma_first_empty_bounds(s0, index as int, end as int, empty);
    }
    let mut hanging = key;
    let mut i: usize = index;
    while i < end
        invariant
            index <= i <= end <= s0.len(),
            slice@.len() == s0.len(),
            s0 == old(slice)@,
            e == first_empty(s0, index as int, end as int, empty),
            w == cascade(s0, end as int, index as int, key),
            index <= e <= end,
            forall|j: int| index <= j < e ==> s0[j] != empty,
            e < end ==> s0[e] == empty,
            i <= e,
            forall|j: int| 0 <= j < i ==> slice@[j] == w[j],
            forall|j: int| i <= j < s0.len() ==> slice@[j] == s0[j],
            hanging == w[i as int],
        decreases end - i,
    {
        let tmp = slice[i];
        assert(tmp == s0[i as int]);
        slice.set(i, hanging);
        if tmp == empty {
            assert(i as int == e);
            assert(slice@ =~= w.remove(e + 1) + s0.skip(end as int));
            return None;
        }
        hanging = tmp;
        i = i + 1;
    }
    assert(slice@ =~= w.take(end as int) + s0.skip(end as int));
    Some(hanging)
}


/// `n` zeros.
pub open spec fn zeros_key(n: int) -> Seq<SearchKey> {
    Seq::new(n as nat, |i: int| 0i64)
}

/// `n` zero identifiers.
pub open spec fn zeros_ident(n: int) -> Seq<NodeIdent> {
    Seq::new(n as nat, |i: int| 0i32)
}

/// The elements of `s` are strictly ascending.
pub open spec fn strictly_sorted(s: Seq<SearchKey>) -> bool {
    forall|i: int, j: int| 0 <= i < j < s.len() ==> s[i] < s[j]
}

/// The live keys (or separators) of a node.
pub open spec fn live_keys(n: NodeView) -> Seq<SearchKey> {
    n.keys.take(n.size as int)
}

/// What a block can hold: both arrays have `fanout` entries, the live keys
/// are non-zero and strictly ascending, and every slot after them is zero.
/// An inner node keeps its last separator slot empty.
pub open spec fn valid_node(n: NodeView, fanout: nat, leaf: bool) -> bool {
    &&& n.keys.len() == fanout
    &&& n.vals.len() == fanout
    &&& if leaf { n.size <= fanout } else { n.size < fanout }
    &&& forall|i: int| 0 <= i < n.size ==> n.keys[i] != 0
    &&& forall|i: int| n.size <= i < fanout ==> n.keys[i] == 0
    &&& strictly_sorted(live_keys(n))
}

/// A leaf after `key` with `data` went in at live position `u` without a
/// split: the live entries shift right by one from `u`.
pub open spec fn leaf_fit_view(n: NodeView, u: int, key: SearchKey, data: NodeIdent) -> NodeView {
    NodeView {
        keys: live_keys(n).insert(u, key) + n.keys.skip(n.size as int + 1),
        vals: n.vals.take(n.size as int).insert(u, data) + n.vals.skip(n.size as int + 1),
        size: n.size + 1,
    }
}

/// The left half of a full leaf split after `key` with `data` went in at
/// `u`: the lowest `fanout / 2` entries, the other slots zero.
pub open spec fn leaf_split_left(n: NodeView, u: int, key: SearchKey, data: NodeIdent) -> NodeView {
    let m = (n.keys.len() / 2) as int;
    NodeView {
        keys: n.keys.insert(u, key).take(m) + zeros_key(m),
        vals: n.vals.insert(u, data).take(m) + zeros_ident(m),
        size: m as nat,
    }
}

/// The new right leaf of that split: the other `fanout / 2 + 1` entries.
pub open spec fn leaf_split_right(n: NodeView, u: int, key: SearchKey, data: NodeIdent) -> NodeView {
    let s = n.keys.len() as int;
    let m = s / 2;
    NodeView {
        keys: n.keys.insert(u, key).subrange(m, s + 1) + zeros_key(m - 1),
        vals: n.vals.insert(u, data).subrange(m, s + 1) + zeros_ident(m - 1),
        size: (m + 1) as nat,
    }
}

/// An inner node after separator `sep` went in at live position `u` and the
/// child `child` right after it, without a split.
pub open spec fn inner_fit_view(n: NodeView, u: int, sep: SearchKey, child: NodeIdent) -> NodeView {
    NodeView {
        keys: live_keys(n).insert(u, sep) + n.keys.skip(n.size as int + 1),
        vals: n.vals.take(n.size as int + 1).insert(u + 1, child) + n.vals.skip(n.size as int + 2),
        size: n.size + 1,
    }
}

/// The left part of a full inner node split after `sep` and `child` went
/// in: `fanout / 2 - 1` separators and `fanout / 2` children.
pub open spec fn inner_split_left(n: NodeView, u: int, sep: SearchKey, child: NodeIdent) -> NodeView {
    let m = (n.keys.len() / 2) as int;
    NodeView {
        keys: live_keys(n).insert(u, sep).take(m - 1) + zeros_key(m + 1),
        vals: n.vals.insert(u + 1, child).take(m) + zeros_ident(m),
        size: (m - 1) as nat,
    }
}

/// The new right node of that split: the `fanout / 2` separators above the
/// pivot and the upper `fanout / 2 + 1` children.
pub open spec fn inner_split_right(n: NodeView, u: int, sep: SearchKey, child: NodeIdent) -> NodeView {
    let s = n.keys.len() as int;
    let m = s / 2;
    NodeView {
        keys: live_keys(n).insert(u, sep).subrange(m, s) + zeros_key(m),
        vals: n.vals.insert(u + 1, child).subrange(m, s + 1) + zeros_ident(m - 1),
        size: m as nat,
    }
}

/// The separator a full inner node promotes when it splits.
pub open spec fn inner_pivot(n: NodeView, u: int, sep: SearchKey) -> SearchKey {
    live_keys(n).insert(u, sep)[(n.keys.len() / 2) - 1]
}

/// The separator a full leaf hands up when it splits.
pub open spec fn leaf_pivot(n: NodeView, u: int, key: SearchKey) -> SearchKey {
    n.keys.insert(u, key)[(n.keys.len() / 2) as int]
}

/// What a full inner node `id`, read again after its child at position `u`
/// split at `sep` into itself and `rid`, becomes: it takes the separator and
/// the new child, splitting in turn when it was full. A node that no longer
/// reads, or whose separators around `u` would not enclose `sep`, stops the
/// insertion with an error.
pub open spec fn adopt_effect(
    nodes: Map<int, NodeView>,
    fanout: nat,
    ctr: int,
    id: NodeIdent,
    u: int,
    sep: SearchKey,
    rid: NodeIdent,
) -> (InsertionResult, Map<int, NodeView>, int) {
    match crate::file_store::fetch_from(nodes, fanout, id) {
        Err(e) => (InsertionResult::InsertError(e), nodes, ctr),
        Ok(n) => if u > n.size || (u > 0 && n.keys[u - 1] >= sep) || (u < n.size && n.keys[u]
            <= sep) {
            (InsertionResult::InsertError(NodeStoreError::ReadFailed), nodes, ctr)
        } else if n.size + 1 < fanout {
            (
                InsertionResult::Inserted,
                nodes.insert(block_index(id), inner_fit_view(n, u, sep, rid)),
                ctr,
            )
        } else {
            let left = nodes.insert(block_index(id), inner_split_left(n, u, sep, rid));
            if ctr == i32::MAX {
                (InsertionResult::InsertError(NodeStoreError::WriteFailed), left, ctr)
            } else {
                (
                    InsertionResult::NodeOverflow(inner_pivot(n, u, sep), -(ctr + 1) as i32),
                    left.insert(ctr + 1, inner_split_right(n, u, sep, rid)),
                    ctr + 1,
                )
            }
        },
    }
}

/// The result of inserting `key` with `data` into the subtree of `id`, with
/// the nodes and the node counter afterwards, descending at most `fuel`
/// levels. A node is read by its identifier's sign; a key among its live
/// keys is a duplicate and changes nothing. A leaf takes the entry at its
/// place, and when full splits into its lower `fanout / 2` entries and a new
/// right leaf, allocated next, whose first key is handed up. An inner node
/// passes the entry to the child its keys route to, and adopts a split child.
pub open spec fn insert_effect(
    nodes: Map<int, NodeView>,
    fanout: nat,
    ctr: int,
    id: NodeIdent,
    key: SearchKey,
    data: NodeIdent,
    fuel: nat,
) -> (InsertionResult, Map<int, NodeView>, int)
    decreases fuel,
{
    if fuel == 0 {
        (InsertionResult::InsertError(NodeStoreError::ReadFailed), nodes, ctr)
    } else {
        match crate::file_store::fetch_from(nodes, fanout, id) {
            Err(e) => (InsertionResult::InsertError(e), nodes, ctr),
            Ok(n) => if live_keys(n).contains(key) {
                (InsertionResult::DuplicateKey, nodes, ctr)
            } else if id >= 0 {
                let u = route(n, key);
                if n.size < fanout {
                    (
                        InsertionResult::Inserted,
                        nodes.insert(block_index(id), leaf_fit_view(n, u, key, data)),
                        ctr,
                    )
                } else {
                    let left = nodes.insert(block_index(id), leaf_split_left(n, u, key, data));
                    if ctr == i32::MAX {
                        (InsertionResult::InsertError(NodeStoreError::WriteFailed), left, ctr)
                    } else {
                        (
                            InsertionResult::NodeOverflow(leaf_pivot(n, u, key), (ctr + 1) as i32),
                            left.insert(ctr + 1, leaf_split_right(n, u, key, data)),
                            ctr + 1,
                        )
                    }
                }
            } else {
                let u = route(n, key);
                let below = insert_effect(nodes, fanout, ctr, n.vals[u], key, data, (fuel - 1) as nat);
                match below.0 {
                    InsertionResult::NodeOverflow(sep, rid) => adopt_effect(
                        below.1,
                        fanout,
                        below.2,
                        id,
                        u,
                        sep,
                        rid,
                    ),
                    _ => below,
                }
            },
        }
    }
}

/// Inserts `value` at `index` among the first `live` elements of
/// `arr[0..end]`, shifting the others one place to the right. When the window
/// was full (`live == end`), the value pushed out of its last slot is returned.
fn shift_into_array(
    arr: &mut Vec<NodeIdent>,
    live: usize,
    end: usize,
    index: usize,
    value: NodeIdent,
) -> (r: Option<NodeIdent>)
    requires
        index <= live <= end <= old(arr)@.len(),
    ensures
        live < end ==> r == None::<NodeIdent> && final(arr)@ == old(arr)@.take(live as int).insert(
            index as int,
            value,
        ) + old(arr)@.skip(live + 1),
        live == end ==> r == Some(old(arr)@.take(end as int).insert(index as int, value)[end as int])
            && final(arr)@ == old(arr)@.take(end as int).insert(index as int, value).take(end as int)
            + old(arr)@.skip(end as int),
{
    let ghost s0 = old(arr)@;
    let ghost stop: int = if live < end { live + 1 } else { end as int };
    let ghost w = s0.take(stop).insert(index as int, value);
    let mut hanging = value;
    let mut i: usize = index;
    while i < end && i <= live
        invariant
            index <= i <= end,
            i <= live + 1,
            live <= end <= s0.len(),
            s0 == old(arr)@,
            arr@.len() == s0.len(),
            stop == if live < end { live + 1 } else { end as int },
            w == s0.take(stop).insert(index as int, value),
            forall|j: int| 0 <= j < i ==> arr@[j] == w[j],
            forall|j: int| i <= j < s0.len() ==> arr@[j] == s0[j],
            i < stop ==> hanging == w[i as int],
            i == stop && live == end ==> hanging == w[i as int],
        decreases end - i,
    {
        let tmp = arr[i];
        arr.set(i, hanging);
        hanging = tmp;
        i = i + 1;
    }
    if live < end {
        assert(i == live + 1);
        let ghost x = s0.take(live as int).insert(index as int, value) + s0.skip(live + 1);
        assert forall|j: int| 0 <= j < s0.len() implies arr@[j] == x[j] by {
            if j <= live {
                assert(arr@[j] == w[j]);
            }
        }
        assert(arr@ =~= x);
        None
    } else {
        assert(arr@ =~= w.take(end as int) + s0.skip(end as int));
        Some(hanging)
    }
}

/// Finds `key` among the first `n` entries of the strictly ascending `keys`:
/// `Ok(i)` where it stands, or `Err(u)` with `u` the number of entries below it.
fn binary_search_prefix(keys: &Vec<SearchKey>, n: usize, key: SearchKey) -> (r: Result<
    usize,
    usize,
>)
    requires
        n <= keys@.len(),
        strictly_sorted(keys@.take(n as int)),
    ensures
        match r {
            Ok(i) => i < n && keys@[i as int] == key,
            Err(u) => u <= n && (forall|j: int| 0 <= j < u ==> keys@[j] < key) && (forall|j: int|
                u <= j < n ==> keys@[j] > key),
        },
{
    let mut lo: usize = 0;
    let mut hi: usize = n;
    while lo < hi
        invariant
            lo <= hi <= n <= keys@.len(),
            strictly_sorted(keys@.take(n as int)),
            forall|j: int| 0 <= j < lo ==> keys@[j] < key,
            forall|j: int| hi <= j < n ==> keys@[j] > key,
        decreases hi - lo,
    {
        let mid = lo + (hi - lo) / 2;
        let k = keys[mid];
        if k == key {
            return Ok(mid);
        } else if k < key {
            assert forall|j: int| 0 <= j <= mid implies keys@[j] < key by {
                if j < mid {
                    assert(keys@.take(n as int)[j] < keys@.take(n as int)[mid as int]);
                }
            }
            lo = mid + 1;
        } else {
            assert forall|j: int| mid <= j < n implies keys@[j] > key by {
                if j > mid {
                    assert(keys@.take(n as int)[mid as int] < keys@.take(n as int)[j]);
                }
            }
            hi = mid;
        }
    }
    Err(lo)
}


/// The fanout is even and at least four, so that a split leaves both halves
/// at least half full.
pub open spec fn even_fanout(s: nat) -> bool {
    s >= 4 && s % 2 == 0
}


/// The leaf entry that holds `key`, if any, is at the position a search
/// finds.
proof fn lemma_leaf_get(n: NodeView, key: SearchKey, r: Result<usize, usize>)
    requires
        strictly_sorted(live_keys(n)),
        n.size <= n.keys.len(),
        match r {
            Ok(i) => i < n.size && n.keys[i as int] == key,
            Err(u) => u <= n.size && (forall|j: int| 0 <= j < u ==> n.keys[j] < key) && (forall|j: int|
                u <= j < n.size ==> n.keys[j] > key),
        },
    ensures
        match r {
            Ok(i) => leaf_get(n, key) == Some(n.vals[i as int]),
            Err(_) => leaf_get(n, key) == None::<NodeIdent>,
        },
        route(n, key) == match r {
            Ok(i) => i + 1,
            Err(u) => u as int,
        },
{
    let lk = live_keys(n);
    match r {
        Ok(i) => {
            assert(lk[i as int] == key);
            assert(lk.contains(key));
            assert forall|j: int| 0 <= j < i + 1 implies lk[j] <= key by {
                if j < i {
                    assert(lk[j] < lk[i as int]);
                }
            }
            assert forall|j: int| i + 1 <= j < lk.len() implies lk[j] > key by {
                assert(lk[i as int] < lk[j]);
            }
            lemma_count_le(lk, key, i + 1);
            assert(exists|c: int| 0 <= c < n.size && n.keys[c] == key) by {
                assert(0 <= i < n.size && n.keys[i as int] == key);
            }
            let c = key_pos(n, key);
            assert(lk[c] == key);
            if c != i {
                if c < i {
                    assert(lk[c] < lk[i as int]);
                } else {
                    assert(lk[i as int] < lk[c]);
                }
            }
        },
        Err(u) => {
            lemma_count_le(lk, key, u as int);
            if lk.contains(key) {
                let c = choose|c: int| 0 <= c < lk.len() && lk[c] == key;
                assert(n.keys[c] == key);
            }
        },
    }
}

impl Node {
    /// Searches the subtree of `self_id` for `key`: the payload stored with
    /// it, or `None`. Descends through at most as many levels as blocks have
    /// been allocated.
    pub fn search(self_id: NodeIdent, key: SearchKey, store: &mut FileStore) -> (r: Result<
        Option<NodeIdent>,
        NodeStoreError,
    >)
        requires
            old(store).wf(),
        ensures
            final(store).wf(),
            final(store).fanout_spec() == old(store).fanout_spec(),
            final(store).ctr() == old(store).ctr(),
            final(store).cache_cap() == old(store).cache_cap(),
            final(store).shape() == old(store).shape(),
            final(store).nodes() == old(store).nodes(),
            r == lookup(old(store).nodes(), old(store).fanout_spec(), self_id, key, old(store).ctr() as nat),
    {
        proof {
            store.lemma_wf();
        }
        let fuel = store.node_ctr() as usize;
        Node::search_bounded(self_id, key, store, fuel)
    }

    fn search_bounded(self_id: NodeIdent, key: SearchKey, store: &mut FileStore, fuel: usize) -> (r: Result<
        Option<NodeIdent>,
        NodeStoreError,
    >)
        requires
            old(store).wf(),
        ensures
            final(store).wf(),
            final(store).fanout_spec() == old(store).fanout_spec(),
            final(store).ctr() == old(store).ctr(),
            final(store).cache_cap() == old(store).cache_cap(),
            final(store).shape() == old(store).shape(),
            final(store).nodes() == old(store).nodes(),
            r == lookup(old(store).nodes(), old(store).fanout_spec(), self_id, key, fuel as nat),
        decreases fuel,
    {
        if fuel == 0 {
            return Err(NodeStoreError::ReadFailed);
        }
        let node = match store.get_node(self_id) {
            Ok(n) => n,
            Err(e) => return Err(e),
        };
        if !check_node(&node, store.fanout(), self_id > 0) {
            return Err(NodeStoreError::ReadFailed);
        }
        let found = binary_search_prefix(&node.separators, node.size, key);
        proof {
            lemma_leaf_get(node@, key, found);
        }
        if self_id > 0 {
            match found {
                Ok(i) => Ok(Some(node.children[i])),
                Err(_) => Ok(None),
            }
        } else {
            let index = match found {
                Ok(i) => i + 1,
                Err(u) => u,
            };
            let child = node.children[index];
            Node::search_bounded(child, key, store, fuel - 1)
        }
    }

    /// A copy of the node.
    pub fn copy(&self) -> (r: Node)
        ensures
            r@ == self@,
    {
        let mut separators: Vec<SearchKey> = Vec::new();
        let mut children: Vec<NodeIdent> = Vec::new();
        let mut i: usize = 0;
        while i < self.separators.len()
            invariant
                i <= self.separators@.len(),
                separators@ == self.separators@.take(i as int),
            decreases self.separators@.len() - i,
        {
            separators.push(self.separators[i]);
            i = i + 1;
            assert(separators@ =~= self.separators@.take(i as int));
        }
        let mut i: usize = 0;
        while i < self.children.len()
            invariant
                i <= self.children@.len(),
                children@ == self.children@.take(i as int),
            decreases self.children@.len() - i,
        {
            children.push(self.children[i]);
            i = i + 1;
            assert(children@ =~= self.children@.take(i as int));
        }
        assert(separators@ =~= self.separators@);
        assert(children@ =~= self.children@);
        Node { separators, children, size: self.size }
    }


    /// Inserts `key` with `data` at live position `u` of a valid leaf, where
    /// the keys before `u` are smaller and those from `u` on are larger. If
    /// the leaf was full it splits: the lower `fanout / 2` entries stay, the
    /// others form the returned right leaf, whose first key is returned as
    /// the separator.
    #[verifier::rlimit(100)]
    fn insert_entry(&mut self, u: usize, key: SearchKey, data: NodeIdent) -> (r: Option<(SearchKey, Node)>)
        requires
            valid_node(old(self)@, old(self).separators@.len() as nat, true),
            even_fanout(old(self).separators@.len() as nat),
            key != 0,
            u <= old(self).size,
            forall|j: int| 0 <= j < u ==> old(self).separators@[j] < key,
            forall|j: int| u <= j < old(self).size ==> old(self).separators@[j] > key,
        ensures
            ({
                let s = old(self).separators@.len() as int;
                let m = s / 2;
                let w = live_keys(old(self)@).insert(u as int, key);
                let v = old(self)@.vals.take(old(self).size as int).insert(u as int, data);
                match r {
                    None => final(self)@ == leaf_fit_view(old(self)@, u as int, key, data)
                        && old(self).size < s && final(self).size == old(self).size + 1
                        && valid_node(final(self)@, s as nat, true) && live_keys(final(self)@) == w
                        && final(self)@.vals.take(final(self).size as int) == v,
                    Some((sep, right)) => final(self)@ == leaf_split_left(old(self)@, u as int, key, data)
                        && right@ == leaf_split_right(old(self)@, u as int, key, data)
                        && sep == leaf_pivot(old(self)@, u as int, key)
                        && old(self).size == s && final(self).size == m && valid_node(
                        final(self)@,
                        s as nat,
                        true,
                    ) && live_keys(final(self)@) == w.take(m) && final(self)@.vals.take(m) == v.take(m)
                        && right.size == m + 1 && valid_node(right@, s as nat, true) && live_keys(
                        right@,
                    ) == w.subrange(m, s + 1) && right@.vals.take(m + 1) == v.subrange(m, s + 1)
                        && sep == w[m],
                }
            }),
    {
        let fanout = self.separators.len();
        let ghost n0 = self@;
        proof {
            lemma_first_empty_bounds(n0.keys, u as int, fanout as int, 0);
            assert(first_empty(n0.keys, u as int, fanout as int, 0) == n0.size as int) by {
                let e = first_empty(n0.keys, u as int, fanout as int, 0);
                if e < n0.size {
                    assert(n0.keys[e] != 0);
                }
                if n0.size < fanout {
                    assert(n0.keys[n0.size as int] == 0);
                }
            }
            lemma_insert_sorted(live_keys(n0), u as int, key);
            assert(n0.keys.take(fanout as int) =~= n0.keys);
        }
        let ok = insert_into_array(&mut self.separators, fanout, u, key, 0);
        let ov = shift_into_array(&mut self.children, self.size, fanout, u, data);
        self.size = self.size + 1;
        let ghost w = live_keys(n0).insert(u as int, key);
        let ghost wk = n0.keys.insert(u as int, key);
        let ghost v = n0.vals.take(n0.size as int).insert(u as int, data);
        match (ok, ov) {
            (None, None) => {
                proof {
                    lemma_cascade_live(n0.keys, fanout as int, u as int, key, n0.size as int);
                    assert(live_keys(self@) =~= w);
                    assert(self@.vals.take(self.size as int) =~= v);
                    assert forall|j: int| 0 <= j < self.size implies live_keys(self@)[j] != 0 by {
                        if j != u {
                            if j < u {
                                assert(w[j] == live_keys(n0)[j]);
                            } else {
                                assert(w[j] == live_keys(n0)[j - 1]);
                            }
                        }
                    }
                    lemma_valid_parts(self@, fanout as nat, true);
                    assert(self@.keys =~= leaf_fit_view(n0, u as int, key, data).keys);
                    assert(self@.vals =~= leaf_fit_view(n0, u as int, key, data).vals);
                }
                None
            },
            (Some(k), Some(c)) => {
                let ghost full = self@;
                let ghost fv = n0.vals.insert(u as int, data);
                let (sep, right_seps, right_children) = self.split_leaf(k, c);
                let m = fanout / 2;
                let right = Node { separators: right_seps, children: right_children, size: m + 1 };
                proof {
                    assert(full.keys.push(k) =~= wk);
                    assert(full.vals.push(c) =~= fv);
                    assert(w =~= wk);
                    assert(v =~= fv);
                    lemma_sorted_subrange(w, 0, m as int);
                    lemma_sorted_subrange(w, m as int, fanout + 1);
                    assert(live_keys(self@) =~= w.subrange(0, m as int));
                    assert(live_keys(self@) =~= w.take(m as int));
                    assert(self@.vals.take(m as int) =~= v.take(m as int));
                    assert(live_keys(right@) =~= w.subrange(m as int, fanout + 1));
                    assert(right@.vals.take(m + 1) =~= v.subrange(m as int, fanout + 1));
                    assert(n0.keys.insert(u as int, key) =~= wk);
                    assert(self@.keys =~= leaf_split_left(n0, u as int, key, data).keys);
                    assert(self@.vals =~= leaf_split_left(n0, u as int, key, data).vals);
                    assert(right@.keys =~= leaf_split_right(n0, u as int, key, data).keys);
                    assert(right@.vals =~= leaf_split_right(n0, u as int, key, data).vals);
                }
                Some((sep, right))
            },
            (None, Some(_)) => {
                proof {
                    assert(false);
                }
                None
            },
            (Some(_), None) => {
                proof {
                    assert(false);
                }
                None
            },
        }
    }

    /// Inserts separator `sep` at live position `u` of a valid inner node and
    /// the child `child` right after it, where the separators before `u` are
    /// smaller and those from `u` on are larger. If the node overflowed it
    /// splits: with `m = fanout / 2`, the separator at `m - 1` is returned as
    /// the pivot, `m - 1` separators stay, and the `m` above the pivot form
    /// the returned right node.
    #[verifier::rlimit(100)]
    fn insert_child(&mut self, u: usize, sep: SearchKey, child: NodeIdent) -> (r: Option<(SearchKey, Node)>)
        requires
            valid_node(old(self)@, old(self).separators@.len() as nat, false),
            even_fanout(old(self).separators@.len() as nat),
            sep != 0,
            u <= old(self).size,
            forall|j: int| 0 <= j < u ==> old(self).separators@[j] < sep,
            forall|j: int| u <= j < old(self).size ==> old(self).separators@[j] > sep,
        ensures
            ({
                let s = old(self).separators@.len() as int;
                let m = s / 2;
                let w = live_keys(old(self)@).insert(u as int, sep);
                let v = old(self)@.vals.take(old(self).size + 1).insert(u + 1, child);
                match r {
                    None => final(self)@ == inner_fit_view(old(self)@, u as int, sep, child)
                        && old(self).size + 1 < s && final(self).size == old(self).size + 1
                        && valid_node(final(self)@, s as nat, false) && live_keys(final(self)@) == w
                        && final(self)@.vals.take(final(self).size + 1) == v,
                    Some((pivot, right)) => final(self)@ == inner_split_left(old(self)@, u as int, sep, child)
                        && right@ == inner_split_right(old(self)@, u as int, sep, child)
                        && pivot == inner_pivot(old(self)@, u as int, sep)
                        && old(self).size + 1 == s && final(self).size == m - 1
                        && valid_node(final(self)@, s as nat, false) && live_keys(final(self)@)
                        == w.take(m - 1) && final(self)@.vals.take(m) == v.take(m) && right.size == m
                        && valid_node(right@, s as nat, false) && live_keys(right@) == w.subrange(m, s)
                        && right@.vals.take(m + 1) == v.subrange(m, s + 1) && pivot == w[m - 1],
                }
            }),
    {
        let fanout = self.separators.len();
        let ghost n0 = self@;
        proof {
            lemma_first_empty_bounds(n0.keys, u as int, fanout - 1, 0);
            assert(first_empty(n0.keys, u as int, fanout - 1, 0) == n0.size as int) by {
                let e = first_empty(n0.keys, u as int, fanout - 1, 0);
                if e < n0.size {
                    assert(n0.keys[e] != 0);
                }
                assert(n0.keys[n0.size as int] == 0);
            }
            lemma_insert_sorted(live_keys(n0), u as int, sep);
        }
        let ok = insert_into_array(&mut self.separators, fanout - 1, u, sep, 0);
        let ov = shift_into_array(&mut self.children, self.size + 1, fanout, u + 1, child);
        self.size = self.size + 1;
        let ghost w = live_keys(n0).insert(u as int, sep);
        let ghost wk = n0.keys.take(fanout - 1).insert(u as int, sep);
        let ghost v = n0.vals.take(n0.size as int + 1).insert(u + 1, child);
        match (ok, ov) {
            (None, None) => {
                proof {
                    lemma_cascade_live(n0.keys, fanout - 1, u as int, sep, n0.size as int);
                    assert(live_keys(self@) =~= w);
                    assert(self@.vals.take(self.size + 1) =~= v);
                    assert forall|j: int| 0 <= j < self.size implies live_keys(self@)[j] != 0 by {
                        if j != u {
                            if j < u {
                                assert(w[j] == live_keys(n0)[j]);
                            } else {
                                assert(w[j] == live_keys(n0)[j - 1]);
                            }
                        }
                    }
                    lemma_valid_parts(self@, fanout as nat, false);
                    assert(self@.keys =~= inner_fit_view(n0, u as int, sep, child).keys);
                    assert(self@.vals =~= inner_fit_view(n0, u as int, sep, child).vals);
                }
                None
            },
            (Some(k), Some(c)) => {
                let ghost full = self@;
                let ghost fv = n0.vals.insert(u + 1, child);
                let (pivot, right_seps, right_children) = self.split_inner(k, c);
                let m = fanout / 2;
                let right = Node { separators: right_seps, children: right_children, size: m };
                proof {
                    assert(full.keys.take(fanout - 1).push(k) =~= wk);
                    assert(full.vals.push(c) =~= fv);
                    assert(w =~= wk);
                    assert(v =~= fv);
                    lemma_sorted_subrange(w, 0, m - 1);
                    lemma_sorted_subrange(w, m as int, fanout as int);
                    assert(live_keys(self@) =~= w.take(m - 1));
                    assert(self@.vals.take(m as int) =~= v.take(m as int));
                    assert(live_keys(right@) =~= w.subrange(m as int, fanout as int));
                    assert(right@.vals.take(m + 1) =~= v.subrange(m as int, fanout + 1));
                    assert(n0.vals.take(n0.size as int + 1) =~= n0.vals);
                    assert(self@.keys =~= inner_split_left(n0, u as int, sep, child).keys);
                    assert(self@.vals =~= inner_split_left(n0, u as int, sep, child).vals);
                    assert(right@.keys =~= inner_split_right(n0, u as int, sep, child).keys);
                    assert(right@.vals =~= inner_split_right(n0, u as int, sep, child).vals);
                }
                Some((pivot, right))
            },
            (None, Some(_)) => {
                proof {
                    assert(false);
                }
                None
            },
            (Some(_), None) => {
                proof {
                    assert(false);
                }
                None
            },
        }
    }

    /// Splits a leaf whose `fanout` entries overflowed by one more entry
    /// (`largest_key`, `largest_value`). The upper `fanout / 2 + 1` entries go
    /// to the returned right arrays, the lower `fanout / 2` stay, and the
    /// smallest key of the right half is returned as the new separator.
    fn split_leaf(&mut self, largest_key: SearchKey, largest_value: NodeIdent) -> (r: (
        SearchKey,
        Vec<SearchKey>,
        Vec<NodeIdent>,
    ))
        requires
            even_fanout(old(self).separators@.len()),
            old(self).children@.len() == old(self).separators@.len(),
        ensures
            ({
                let s = old(self).separators@.len() as int;
                let m = s / 2;
                let w = old(self).separators@.push(largest_key);
                let v = old(self).children@.push(largest_value);
                &&& r.0 == w[m]
                &&& r.1@ == w.subrange(m, s + 1) + zeros_key(m - 1)
                &&& r.2@ == v.subrange(m, s + 1) + zeros_ident(m - 1)
                &&& final(self).separators@ == w.take(m) + zeros_key(m)
                &&& final(self).children@ == v.take(m) + zeros_ident(m)
                &&& final(self).size == m
            }),
    {
        let s = self.separators.len();
        let m = s / 2;
        let ghost w = self.separators@.push(largest_key);
        let ghost v = self.children@.push(largest_value);
        let mut right_seps: Vec<SearchKey> = vec![0; s];
        let mut right_children: Vec<NodeIdent> = vec![0; s];
        let root_sep = self.separators[m];
        let mut i: usize = m;
        while i < s
            invariant
                m == s / 2,
                even_fanout(s as nat),
                s == self.separators@.len(),
                s == self.children@.len(),
                m <= i <= s,
                right_seps@.len() == s,
                right_children@.len() == s,
                w == old(self).separators@.push(largest_key),
                v == old(self).children@.push(largest_value),
                forall|j: int| 0 <= j < m ==> self.separators@[j] == w[j],
                forall|j: int| 0 <= j < m ==> self.children@[j] == v[j],
                forall|j: int| m <= j < i ==> self.separators@[j] == 0,
                forall|j: int| m <= j < i ==> self.children@[j] == 0,
                forall|j: int| i <= j < s ==> self.separators@[j] == w[j],
                forall|j: int| i <= j < s ==> self.children@[j] == v[j],
                forall|j: int| 0 <= j < i - m ==> right_seps@[j] == w[j + m],
                forall|j: int| 0 <= j < i - m ==> right_children@[j] == v[j + m],
                forall|j: int| i - m <= j < s ==> right_seps@[j] == 0,
                forall|j: int| i - m <= j < s ==> right_children@[j] == 0,
            decreases s - i,
        {
            let k = self.separators[i];
            let c = self.children[i];
            right_seps.set(i - m, k);
            right_children.set(i - m, c);
            self.separators.set(i, 0);
            self.children.set(i, 0);
            i = i + 1;
        }
        right_seps.set(m, largest_key);
        right_children.set(m, largest_value);
        self.size = m;
        assert(right_seps@ =~= w.subrange(m as int, s + 1) + zeros_key(m - 1));
        assert(right_children@ =~= v.subrange(m as int, s + 1) + zeros_ident(m - 1));
        assert(self.separators@ =~= w.take(m as int) + zeros_key(m as int));
        assert(self.children@ =~= v.take(m as int) + zeros_ident(m as int));
        (root_sep, right_seps, right_children)
    }

    /// Splits an inner node whose window of `fanout - 1` separators and
    /// `fanout` children overflowed by one more separator and child. With
    /// `m = fanout / 2`, the separator at `m - 1` is promoted and returned; the
    /// `m` separators above it and the upper `m + 1` children go to the
    /// returned right arrays; `m - 1` separators and `m` children stay.
    fn split_inner(&mut self, largest_key: SearchKey, largest_value: NodeIdent) -> (r: (
        SearchKey,
        Vec<SearchKey>,
        Vec<NodeIdent>,
    ))
        requires
            even_fanout(old(self).separators@.len()),
            old(self).children@.len() == old(self).separators@.len(),
        ensures
            ({
                let s = old(self).separators@.len() as int;
                let m = s / 2;
                let w = old(self).separators@.take(s - 1).push(largest_key);
                let v = old(self).children@.push(largest_value);
                &&& r.0 == w[m - 1]
                &&& r.1@ == w.subrange(m, s) + zeros_key(m)
                &&& r.2@ == v.subrange(m, s + 1) + zeros_ident(m - 1)
                &&& final(self).separators@ == w.take(m - 1) + zeros_key(m + 1)
                &&& final(self).children@ == v.take(m) + zeros_ident(m)
                &&& final(self).size == m - 1
            }),
    {
        let s = self.separators.len();
        let m = s / 2;
        let ghost w = self.separators@.take(s - 1).push(largest_key);
        let ghost v = self.children@.push(largest_value);
        let mut right_seps: Vec<SearchKey> = vec![0; s];
        let mut right_children: Vec<NodeIdent> = vec![0; s];
        let root_sep = self.separators[m - 1];
        self.separators.set(m - 1, 0);
        let mut i: usize = m;
        while i < s
            invariant
                m == s / 2,
                even_fanout(s as nat),
                s == self.separators@.len(),
                s == self.children@.len(),
                m <= i <= s,
                right_seps@.len() == s,
                right_children@.len() == s,
                w == old(self).separators@.take(s - 1).push(largest_key),
                old(self).separators@.len() == s,
                v == old(self).children@.push(largest_value),
                forall|j: int| 0 <= j < m - 1 ==> self.separators@[j] == w[j],
                forall|j: int| 0 <= j < m ==> self.children@[j] == v[j],
                forall|j: int| m - 1 <= j < i ==> self.separators@[j] == 0,
                forall|j: int| m <= j < i ==> self.children@[j] == 0,
                forall|j: int| i <= j < s - 1 ==> self.separators@[j] == w[j],
                self.separators@[s - 1] == old(self).separators@[s - 1] || i == s,
                forall|j: int| i <= j < s ==> self.children@[j] == v[j],
                forall|j: int| 0 <= j < i - m ==> right_seps@[j] == w[j + m],
                forall|j: int| 0 <= j < i - m ==> right_children@[j] == v[j + m],
                forall|j: int| i - m <= j < s ==> right_seps@[j] == 0,
                forall|j: int| i - m <= j < s ==> right_children@[j] == 0,
            decreases s - i,
        {
            if i < s - 1 {
                let k = self.separators[i];
                assert(k == w[i as int]);
                right_seps.set(i - m, k);
            } else {
                assert(w[i as int] == largest_key);
                right_seps.set(i - m, largest_key);
            }
            assert(right_seps@[i - m] == w[i as int]);
            let c = self.children[i];
            right_children.set(i - m, c);
            self.separators.set(i, 0);
            self.children.set(i, 0);
            i = i + 1;
        }
        right_children.set(m, largest_value);
        self.size = m - 1;
        assert(right_seps@ =~= w.subrange(m as int, s as int) + zeros_key(m as int));
        assert(right_children@ =~= v.subrange(m as int, s + 1) + zeros_ident(m - 1));
        assert(self.separators@ =~= w.take(m - 1) + zeros_key(m + 1));
        assert(self.children@ =~= v.take(m as int) + zeros_ident(m as int));
        (root_sep, right_seps, right_children)
    }
}


/// After the cascade inserts `key` at `u` into a window whose live prefix
/// has `size` entries followed by zeros, the live prefix has `key` inserted
/// and zeros still follow it.
proof fn lemma_cascade_live(keys: Seq<SearchKey>, end: int, u: int, key: SearchKey, size: int)
    requires
        0 <= u <= size < end <= keys.len(),
        forall|j: int| size <= j < keys.len() ==> keys[j] == 0,
    ensures
        ({
            let r = cascade(keys, end, u, key).remove(size + 1) + keys.skip(end);
            &&& r.len() == keys.len()
            &&& r.take(size + 1) == keys.take(size).insert(u, key)
            &&& forall|j: int| size + 1 <= j < r.len() ==> r[j] == 0
        }),
{
    let c = cascade(keys, end, u, key);
    let r = c.remove(size + 1) + keys.skip(end);
    assert(r.take(size + 1) =~= keys.take(size).insert(u, key));
    assert forall|j: int| size + 1 <= j < r.len() implies r[j] == 0 by {
        if j < end {
            assert(r[j] == c[j + 1]);
            assert(c[j + 1] == keys[j]);
        } else {
            assert(r[j] == keys[j]);
        }
    }
}

/// A node whose arrays have the fanout as length, whose live keys are
/// non-zero and strictly ascending with zeros after them, is valid.
proof fn lemma_valid_parts(n: NodeView, fanout: nat, leaf: bool)
    requires
        n.keys.len() == fanout,
        n.vals.len() == fanout,
        if leaf { n.size <= fanout } else { n.size < fanout },
        forall|j: int| 0 <= j < n.size ==> live_keys(n)[j] != 0,
        forall|j: int| n.size <= j < fanout ==> n.keys[j] == 0,
        strictly_sorted(live_keys(n)),
    ensures
        valid_node(n, fanout, leaf),
{
    assert forall|j: int| 0 <= j < n.size implies n.keys[j] != 0 by {
        assert(live_keys(n)[j] == n.keys[j]);
    }
}

/// Inserting `key` at position `u` of a strictly ascending sequence, between
/// the elements below it and those above it, keeps it strictly ascending.
pub proof fn lemma_insert_sorted(s: Seq<SearchKey>, u: int, key: SearchKey)
    requires
        strictly_sorted(s),
        0 <= u <= s.len(),
        forall|j: int| 0 <= j < u ==> s[j] < key,
        forall|j: int| u <= j < s.len() ==> s[j] > key,
    ensures
        strictly_sorted(s.insert(u, key)),
{
    let t = s.insert(u, key);
    assert forall|a: int, b: int| 0 <= a < b < t.len() implies t[a] < t[b] by {
        if a < u {
            if b < u {
                assert(s[a] < s[b]);
            } else if b > u {
                assert(s[a] < s[b - 1]);
            }
        } else if a == u {
            assert(s[b - 1] > key);
        } else {
            assert(s[a - 1] < s[b - 1]);
        }
    }
}

/// Any window of a strictly ascending sequence is strictly ascending.
proof fn lemma_sorted_subrange(s: Seq<SearchKey>, a: int, b: int)
    requires
        strictly_sorted(s),
        0 <= a <= b <= s.len(),
    ensures
        strictly_sorted(s.subrange(a, b)),
{
    let t = s.subrange(a, b);
    assert forall|i: int, j: int| 0 <= i < j < t.len() implies t[i] < t[j] by {
        assert(s[a + i] < s[a + j]);
    }
}

impl Node {
    /// Inserts `key` with payload `data` into the subtree of `self_id`.
    /// A zero key is refused. When the subtree's root splits, the separator
    /// and the new sibling are returned for the parent to adopt.
    pub fn insert(self_id: NodeIdent, key: SearchKey, data: NodeIdent, store: &mut FileStore) -> (r:
        InsertionResult)
        requires
            old(store).wf(),
        ensures
            final(store).wf(),
            final(store).fanout_spec() == old(store).fanout_spec(),
            final(store).cache_cap() == old(store).cache_cap(),
            final(store).ctr() >= old(store).ctr(),
            r is ZeroKey <==> key == 0,
            key == 0 ==> *final(store) == *old(store),
            r matches InsertionResult::NodeOverflow(sep, _) ==> sep != 0,
            key != 0 ==> (r, final(store).nodes(), final(store).ctr()) == insert_effect(
                old(store).nodes(),
                old(store).fanout_spec(),
                old(store).ctr(),
                self_id,
                key,
                data,
                (old(store).ctr() + 1) as nat,
            ),
            key != 0 && insert_pre(
                old(store).nodes(),
                old(store).fanout_spec(),
                old(store).shape(),
                old(store).ctr(),
                self_id,
                key,
                old(store).ctr() + 1,
            ) ==> insert_post(
                old(store).nodes(),
                old(store).shape(),
                old(store).ctr(),
                final(store).nodes(),
                final(store).shape(),
                final(store).ctr(),
                old(store).fanout_spec(),
                self_id,
                key,
                data,
                r,
            ),
    {
        if key == 0 {
            return InsertionResult::ZeroKey;
        }
        proof {
            store.lemma_wf();
        }
        let fuel = store.node_ctr() as usize + 1;
        Node::insert_at(self_id, key, data, store, fuel)
    }

    fn insert_at(self_id: NodeIdent, key: SearchKey, data: NodeIdent, store: &mut FileStore, fuel: usize) -> (r:
        InsertionResult)
        requires
            old(store).wf(),
            key != 0,
        ensures
            final(store).wf(),
            final(store).fanout_spec() == old(store).fanout_spec(),
            final(store).cache_cap() == old(store).cache_cap(),
            final(store).ctr() >= old(store).ctr(),
            !(r is ZeroKey),
            r matches InsertionResult::NodeOverflow(sep, _) ==> sep != 0,
            (r, final(store).nodes(), final(store).ctr()) == insert_effect(
                old(store).nodes(),
                old(store).fanout_spec(),
                old(store).ctr(),
                self_id,
                key,
                data,
                fuel as nat,
            ),
            insert_pre(
                old(store).nodes(),
                old(store).fanout_spec(),
                old(store).shape(),
                old(store).ctr(),
                self_id,
                key,
                fuel as int,
            ) ==> insert_post(
                old(store).nodes(),
                old(store).shape(),
                old(store).ctr(),
                final(store).nodes(),
                final(store).shape(),
                final(store).ctr(),
                old(store).fanout_spec(),
                self_id,
                key,
                data,
                r,
            ),
        decreases fuel, 1usize,
    {
        proof {
            let nodes0 = store.nodes();
            let g0 = store.shape();
            if insert_pre(nodes0, store.fanout_spec(), g0, store.ctr(), self_id, key, fuel as int) {
                assert(node_ok(nodes0, store.fanout_spec(), g0, self_id));
            }
        }
        if fuel == 0 {
            return InsertionResult::InsertError(NodeStoreError::ReadFailed);
        }
        if self_id < 0 {
            Node::insert_inner(self_id, key, data, store, fuel)
        } else {
            Node::insert_leaf(self_id, key, data, store)
        }
    }

    fn insert_leaf(self_id: NodeIdent, key: SearchKey, data: NodeIdent, store: &mut FileStore) -> (r:
        InsertionResult)
        requires
            old(store).wf(),
            key != 0,
            self_id >= 0,
        ensures
            final(store).wf(),
            final(store).fanout_spec() == old(store).fanout_spec(),
            final(store).cache_cap() == old(store).cache_cap(),
            final(store).ctr() >= old(store).ctr(),
            !(r is ZeroKey),
            r matches InsertionResult::NodeOverflow(sep, _) ==> sep != 0,
            (r, final(store).nodes(), final(store).ctr()) == insert_effect(
                old(store).nodes(),
                old(store).fanout_spec(),
                old(store).ctr(),
                self_id,
                key,
                data,
                1,
            ),
            insert_pre(
                old(store).nodes(),
                old(store).fanout_spec(),
                old(store).shape(),
                old(store).ctr(),
                self_id,
                key,
                1,
            ) ==> insert_post(
                old(store).nodes(),
                old(store).shape(),
                old(store).ctr(),
                final(store).nodes(),
                final(store).shape(),
                final(store).ctr(),
                old(store).fanout_spec(),
                self_id,
                key,
                data,
                r,
            ),
    {
        let ghost nodes0 = store.nodes();
        let ghost g0 = store.shape();
        let ghost ctr0 = store.ctr();
        let ghost f = store.fanout_spec();
        let ghost pre = insert_pre(nodes0, f, g0, ctr0, self_id, key, 1);
        proof {
            store.lemma_wf();
            if pre {
                assert(node_ok(nodes0, f, g0, self_id));
            }
        }
        let fanout = store.fanout();
        let mut node = match store.get_node(self_id) {
            Ok(n) => n,
            Err(e) => return InsertionResult::InsertError(e),
        };
        if !check_node(&node, fanout, self_id > 0) {
            return InsertionResult::InsertError(NodeStoreError::ReadFailed);
        }
        let ghost n0 = node@;
        let found = binary_search_prefix(&node.separators, node.size, key);
        proof {
            lemma_leaf_get(node@, key, found);
            if found is Ok {
                let i = found->Ok_0;
                assert(live_keys(node@)[i as int] == key);
                assert(live_keys(node@).contains(key));
            }
        }
        let u = match found {
            Ok(i) => {
                proof {
                    if pre {
                        assert(n0.keys[i as int] == key);
                        assert(g0.content.contains_key(key));
                        assert(store.nodes() == nodes0);
                        assert(store.shape() == g0);
                    }
                }
                return InsertionResult::DuplicateKey;
            },
            Err(u) => u,
        };
        proof {
            if pre && g0.content.contains_key(key) {
                assert(live_keys(n0).contains(key));
                let j = choose|j: int| 0 <= j < live_keys(n0).len() && live_keys(n0)[j] == key;
                assert(n0.keys[j] == key);
            }
        }
        match node.insert_entry(u, key, data) {
            None => {
                let ghost n1 = node@;
                store.put_node(self_id, node);
                store.set_shape(Ghost(with_entry(g0, key, data)));
                proof {
                    if pre {
                        lemma_leaf_fits(nodes0, f, g0, ctr0, self_id, key, data, n1, u as int);
                        assert(store.nodes() == nodes0.insert(block_index(self_id), n1));
                        assert(insert_post(nodes0, g0, ctr0, store.nodes(), store.shape(), store.ctr(), f, self_id, key, data, InsertionResult::Inserted));
                    }
                }
                InsertionResult::Inserted
            },
            Some((sep, right)) => {
                let ghost nl = node@;
                let ghost nr = right@;
                store.put_node(self_id, node);
                match store.store_node(right, true) {
                    Ok(rid) => {
                        store.set_shape(Ghost(split_shape(with_entry(g0, key, data), self_id, rid, sep)));
                        proof {
                            if pre {
                                lemma_leaf_split(nodes0, f, g0, ctr0, self_id, key, data, nl, nr, u as int);
                                assert(rid == (ctr0 + 1) as i32);
                                assert(store.nodes() == nodes0.insert(block_index(self_id), nl).insert(ctr0 + 1, nr));
                                assert(insert_post(nodes0, g0, ctr0, store.nodes(), store.shape(), store.ctr(), f, self_id, key, data, InsertionResult::NodeOverflow(sep, rid)));
                            }
                        }
                        InsertionResult::NodeOverflow(sep, rid)
                    },
                    Err(e) => InsertionResult::InsertError(e),
                }
            },
        }
    }

    #[verifier::rlimit(100)]
    fn insert_inner(self_id: NodeIdent, key: SearchKey, data: NodeIdent, store: &mut FileStore, fuel: usize) -> (r:
        InsertionResult)
        requires
            old(store).wf(),
            key != 0,
            self_id < 0,
            fuel >= 1,
        ensures
            final(store).wf(),
            final(store).fanout_spec() == old(store).fanout_spec(),
            final(store).cache_cap() == old(store).cache_cap(),
            final(store).ctr() >= old(store).ctr(),
            !(r is ZeroKey),
            r matches InsertionResult::NodeOverflow(sep, _) ==> sep != 0,
            (r, final(store).nodes(), final(store).ctr()) == insert_effect(
                old(store).nodes(),
                old(store).fanout_spec(),
                old(store).ctr(),
                self_id,
                key,
                data,
                fuel as nat,
            ),
            insert_pre(
                old(store).nodes(),
                old(store).fanout_spec(),
                old(store).shape(),
                old(store).ctr(),
                self_id,
                key,
                fuel as int,
            ) ==> insert_post(
                old(store).nodes(),
                old(store).shape(),
                old(store).ctr(),
                final(store).nodes(),
                final(store).shape(),
                final(store).ctr(),
                old(store).fanout_spec(),
                self_id,
                key,
                data,
                r,
            ),
        decreases fuel, 0usize,
    {
        let ghost nodes0 = store.nodes();
        let ghost g0 = store.shape();
        let ghost ctr0 = store.ctr();
        let ghost f = store.fanout_spec();
        let ghost pre = insert_pre(nodes0, f, g0, ctr0, self_id, key, fuel as int);
        proof {
            store.lemma_wf();
            if pre {
                assert(node_ok(nodes0, f, g0, self_id));
                assert(edges_ok(nodes0, f, g0, self_id));
            }
        }
        let fanout = store.fanout();
        let node = match store.get_node(self_id) {
            Ok(n) => n,
            Err(e) => return InsertionResult::InsertError(e),
        };
        if !check_node(&node, fanout, self_id > 0) {
            return InsertionResult::InsertError(NodeStoreError::ReadFailed);
        }
        let ghost first = node@;
        let found = binary_search_prefix(&node.separators, node.size, key);
        proof {
            lemma_leaf_get(node@, key, found);
            if found is Ok {
                let i = found->Ok_0;
                assert(live_keys(node@)[i as int] == key);
                assert(live_keys(node@).contains(key));
            }
        }
        let u = match found {
            Ok(i) => {
                proof {
                    if pre {
                        assert(first.keys[i as int] == key);
                        assert(g0.content.contains_key(key));
                        assert(store.nodes() == nodes0);
                    }
                }
                return InsertionResult::DuplicateKey;
            },
            Err(u) => u,
        };
        let child = node.children[u];
        proof {
            if pre {
                assert(edge_ok(nodes0, f, g0, self_id, u as int));
                if u > 0 {
                    assert(first.keys[u - 1] < key);
                }
                if u < first.size {
                    assert(first.keys[u as int] > key);
                }
                assert(insert_pre(nodes0, f, g0, ctr0, child, key, fuel - 1));
            }
        }
        let res = Node::insert_at(child, key, data, store, fuel - 1);
        let ghost nodes1 = store.nodes();
        let ghost g1 = store.shape();
        let ghost ctr1 = store.ctr();
        let (sep, right_id) = match res {
            InsertionResult::NodeOverflow(sep, right_id) => (sep, right_id),
            other => {
                proof {
                    if pre {
                        assert(edge_ok(nodes0, f, g0, self_id, u as int));
                        lemma_frame_lift(nodes0, g0, ctr0, nodes1, g1, ctr1, f, self_id, child);
                    }
                }
                return other;
            },
        };
        proof {
            store.lemma_wf();
            if pre {
                assert(edge_ok(nodes0, f, g0, self_id, u as int));
                lemma_frame_lift(nodes0, g0, ctr0, nodes1, g1, ctr1, f, self_id, child);
                lemma_inner_children(nodes0, g0, ctr0, nodes1, g1, ctr1, f, self_id, u as int, key, data, sep, right_id);
            }
        }
        let mut node = match store.get_node(self_id) {
            Ok(n) => n,
            Err(e) => return InsertionResult::InsertError(e),
        };
        if !check_node(&node, fanout, self_id > 0) {
            return InsertionResult::InsertError(NodeStoreError::ReadFailed);
        }
        let ghost n0 = node@;
        proof {
            if pre {
                assert(n0 == node_of(nodes0, f, self_id));
                assert(n0 == first);
            }
        }
        if u > node.size || (u > 0 && node.separators[u - 1] >= sep) || (u < node.size
            && node.separators[u] <= sep) {
            return InsertionResult::InsertError(NodeStoreError::ReadFailed);
        }
        proof {
            let lk = live_keys(n0);
            assert forall|j: int| 0 <= j < u implies node.separators@[j] < sep by {
                assert(lk[j] == node.separators@[j]);
                assert(lk[u - 1] == node.separators@[u - 1]);
                if j < u - 1 {
                    assert(lk[j] < lk[u - 1]);
                }
            }
            assert forall|j: int| u <= j < node.size implies node.separators@[j] > sep by {
                assert(lk[j] == node.separators@[j]);
                assert(lk[u as int] == node.separators@[u as int]);
                if j > u {
                    assert(lk[u as int] < lk[j]);
                }
            }
        }
        match node.insert_child(u, sep, right_id) {
            None => {
                let ghost n1 = node@;
                store.put_node(self_id, node);
                proof {
                    if pre {
                        lemma_inner_fits(nodes0, g0, ctr0, nodes1, g1, ctr1, f, self_id, u as int, key, data, sep, right_id, n1);
                        assert(store.nodes() == nodes1.insert(block_index(self_id), n1));
                        assert(store.shape() == g1);
                        assert(insert_post(nodes0, g0, ctr0, store.nodes(), store.shape(), store.ctr(), f, self_id, key, data, InsertionResult::Inserted));
                    }
                }
                InsertionResult::Inserted
            },
            Some((pivot, right)) => {
                let ghost nl = node@;
                let ghost nr = right@;
                store.put_node(self_id, node);
                match store.store_node(right, false) {
                    Ok(rid) => {
                        let ghost v = n0.vals.take(n0.size as int + 1).insert(u + 1, right_id);
                        let ghost m = (fanout / 2) as int;
                        store.set_shape(
                            Ghost(adopt(split_shape(g1, self_id, rid, pivot), v.subrange(m, fanout as int + 1), rid)),
                        );
                        proof {
                            if pre {
                                lemma_inner_split(nodes0, g0, ctr0, nodes1, g1, ctr1, f, self_id, u as int, key, data, sep, right_id, nl, nr);
                                assert(rid == -(ctr1 + 1) as i32);
                                assert(store.nodes() == nodes1.insert(block_index(self_id), nl).insert(ctr1 + 1, nr));
                                assert(insert_post(nodes0, g0, ctr0, store.nodes(), store.shape(), store.ctr(), f, self_id, key, data, InsertionResult::NodeOverflow(pivot, rid)));
                            }
                        }
                        InsertionResult::NodeOverflow(pivot, rid)
                    },
                    Err(e) => {
                        proof {
                            if pre {
                                assert(ctr1 < i32::MAX);
                            }
                        }
                        InsertionResult::InsertError(e)
                    },
                }
            },
        }
    }
}

} // verus!
