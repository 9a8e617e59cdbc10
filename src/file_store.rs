//! The block-addressed node store over an in-memory file image.
//!
//! Block 0 of the image holds the metadata; block `k >= 1` holds the node
//! with identifier `k` (a leaf) or `-k` (an inner node). Nodes pass through a
//! second-chance cache, which is the authoritative copy of what it holds.
use crate::codec::{
    decode_view, encodes, fits_block, lemma_decode_size, lemma_round_trip, size_is_leading,
    ByteSerialize, BLOCK_SIZE, IDENT_BYTES, KEY_BYTES,
};
use crate::node::{even_fanout, valid_node, Node, NodeIdent, NodeView};
use crate::node_store::{NodeStore, NodeStoreError};
use crate::second_chance_cache::Cache;
use crate::shape::Shape;
use crate::tree::TreeCreationError;
use vstd::bytes::*;
use vstd::prelude::*;
use vstd::slice::slice_subrange;

verus! {

/// The fanout is even, at least four, and a node of it fits in a block.
pub open spec fn valid_fanout(fanout: nat) -> bool {
    even_fanout(fanout) && 12 * fanout <= BLOCK_SIZE
}

/// The block index that an identifier names.
pub open spec fn block_index(id: NodeIdent) -> int {
    if id < 0 {
        -id
    } else {
        id as int
    }
}

/// The `k`-th block of an image.
pub open spec fn block_of(image: Seq<u8>, k: int) -> Seq<u8> {
    image.subrange(k * BLOCK_SIZE, k * BLOCK_SIZE + BLOCK_SIZE)
}

/// `after` is `before` with block `k` replaced by (or, one past the end,
/// extended with) `b`.
pub open spec fn written(before: Seq<u8>, after: Seq<u8>, k: int, b: Seq<u8>) -> bool {
    &&& after.len() == if before.len() > k * BLOCK_SIZE {
        before.len() as int
    } else {
        k * BLOCK_SIZE + BLOCK_SIZE
    }
    &&& block_of(after, k) == b
    &&& forall|j: int| 0 <= j < after.len() && !(k * BLOCK_SIZE <= j < k * BLOCK_SIZE + BLOCK_SIZE) ==> after[j] == before[j]
}

/// Parameters and root of a saved tree, held in block 0.
pub struct Metadata {
    pub fanout: usize,
    pub block_size: usize,
    pub node_ident_size: usize,
    pub search_key_size: usize,
    pub node_ctr: NodeIdent,
    pub root_node: NodeIdent,
}

/// Block 0 encodes the metadata: four little-endian 64-bit words, then the
/// node counter and the root as little-endian 32-bit identifiers, then zeros.
pub open spec fn metadata_encoded(m: Metadata, b: Seq<u8>) -> bool {
    &&& b.len() == BLOCK_SIZE
    &&& b.subrange(0, 8) == spec_u64_to_le_bytes(m.fanout as u64)
    &&& b.subrange(8, 16) == spec_u64_to_le_bytes(m.block_size as u64)
    &&& b.subrange(16, 24) == spec_u64_to_le_bytes(m.node_ident_size as u64)
    &&& b.subrange(24, 32) == spec_u64_to_le_bytes(m.search_key_size as u64)
    &&& b.subrange(32, 36) == spec_u32_to_le_bytes(m.node_ctr as u32)
    &&& b.subrange(36, 40) == spec_u32_to_le_bytes(m.root_node as u32)
    &&& forall|j: int| 40 <= j < BLOCK_SIZE ==> b[j] == 0
}

/// The 64-bit word at byte `at` of an image.
pub open spec fn word_at(image: Seq<u8>, at: int) -> u64 {
    spec_u64_from_le_bytes(image.subrange(at, at + 8))
}

/// The identifier at byte `at` of an image.
pub open spec fn ident_word_at(image: Seq<u8>, at: int) -> NodeIdent {
    spec_u32_from_le_bytes(image.subrange(at, at + 4)) as i32
}

/// A node store over an in-memory file image.
pub struct FileStore {
    image: Vec<u8>,
    node_ctr: NodeIdent,
    cache: Cache,
    fanout: usize,
    shape: Ghost<Shape>,
}

impl FileStore {
    /// The fanout of the stored nodes.
    pub closed spec fn fanout_spec(&self) -> nat {
        self.fanout as nat
    }

    /// The number of node blocks allocated so far.
    pub closed spec fn ctr(&self) -> int {
        self.node_ctr as int
    }

    /// The file image.
    pub closed spec fn image_spec(&self) -> Seq<u8> {
        self.image@
    }

    /// The nodes held by the cache, by block index.
    pub closed spec fn cached(&self) -> Map<NodeIdent, NodeView> {
        self.cache.contents()
    }

    /// Both stores have the same cache.
    pub closed spec fn same_cache(&self, other: &FileStore) -> bool {
        self.cache == other.cache
    }

    /// Ghost bookkeeping of the tree kept in this store.
    pub closed spec fn shape(&self) -> Shape {
        self.shape@
    }

    /// The number of cached nodes.
    pub closed spec fn cache_count(&self) -> nat {
        self.cache.count()
    }

    /// The capacity of the cache.
    pub closed spec fn cache_cap(&self) -> nat {
        self.cache.cap()
    }

    /// The node held in block `k`: the cached copy if there is one, else the
    /// decoded block.
    pub open spec fn node_at(&self, k: int) -> NodeView {
        if self.cached().contains_key(k as i32) {
            self.cached()[k as i32]
        } else {
            decode_view(block_of(self.image_spec(), k), self.fanout_spec())
        }
    }

    /// The nodes of blocks `1..=ctr`, by block index.
    pub open spec fn nodes(&self) -> Map<int, NodeView> {
        Map::new(|k: int| 1 <= k <= self.ctr(), |k: int| self.node_at(k))
    }

    /// What reading the node `id` gives: the node its block holds, decoded.
    pub open spec fn fetch(&self, id: NodeIdent) -> Result<NodeView, NodeStoreError> {
        raw_fetch_from(self.nodes(), self.fanout_spec(), id)
    }

    /// The store is well formed: the image holds the metadata block and one
    /// block per allocated node, and the cache holds valid nodes of allocated
    /// blocks.
    pub closed spec fn wf(&self) -> bool {
        &&& valid_fanout(self.fanout as nat)
        &&& self.node_ctr >= 0
        &&& self.image@.len() == (self.node_ctr + 1) * BLOCK_SIZE
        &&& self.cache.wf()
        &&& forall|k: NodeIdent|
            #[trigger] self.cache.contents().contains_key(k) ==> 1 <= k <= self.node_ctr
                && storable(self.cache.contents()[k], self.fanout as nat)
        &&& forall|k: int|
            1 <= k <= self.node_ctr ==> #[trigger] padded(block_of(self.image@, k), self.fanout as nat)
    }
}

/// The bytes of a node block after its `12 * fanout` bytes of entries are
/// zero.
pub open spec fn padded(b: Seq<u8>, fanout: nat) -> bool {
    forall|j: int| 12 * fanout <= j < b.len() ==> b[j] == 0
}

/// What caching `nv` for block `k` on a read did: with room in the cache it
/// joined the cache and the image stayed as it was; with a full cache one
/// cached node `v` left it and was written to its block, every other block
/// staying as it was.
pub open spec fn miss_effect(before: FileStore, after: FileStore, k: NodeIdent, nv: NodeView) -> bool {
    if before.cache_count() < before.cache_cap() {
        &&& after.cached() == before.cached().insert(k, nv)
        &&& after.image_spec() == before.image_spec()
    } else {
        exists|v: NodeIdent|
            {
                &&& before.cached().contains_key(v)
                &&& after.cached() == before.cached().remove(v).insert(k, nv)
                &&& encodes(before.cached()[v], block_of(after.image_spec(), v as int))
                &&& after.image_spec().len() == before.image_spec().len()
                &&& forall|j: int|
                    0 <= j <= before.ctr() && j != v ==> #[trigger] block_of(after.image_spec(), j)
                        == block_of(before.image_spec(), j)
            }
    }
}

/// A node as a block decodes: both arrays have `fanout` entries and the size
/// counts the leading non-zero keys.
pub open spec fn storable(n: NodeView, fanout: nat) -> bool {
    &&& n.keys.len() == fanout
    &&& n.vals.len() == fanout
    &&& size_is_leading(n)
}

/// What reading the node `id` from the nodes `nodes` gives: an invalid
/// reference when no such block exists, else the node the block holds.
pub open spec fn raw_fetch_from(nodes: Map<int, NodeView>, fanout: nat, id: NodeIdent) -> Result<
    NodeView,
    NodeStoreError,
> {
    if id == 0 || id == i32::MIN || !nodes.contains_key(block_index(id)) {
        Err(NodeStoreError::InvalidReference)
    } else {
        Ok(nodes[block_index(id)])
    }
}

/// What the node algorithms make of reading `id`: the node, when it is a
/// valid node of the kind the identifier's sign names (strictly ascending
/// non-zero live keys, zeros after them, an inner node's last separator slot
/// empty); a read failure when it is not.
pub open spec fn fetch_from(nodes: Map<int, NodeView>, fanout: nat, id: NodeIdent) -> Result<
    NodeView,
    NodeStoreError,
> {
    match raw_fetch_from(nodes, fanout, id) {
        Err(e) => Err(e),
        Ok(n) => if valid_node(n, fanout, id > 0) {
            Ok(n)
        } else {
            Err(NodeStoreError::ReadFailed)
        },
    }
}

/// A valid node is one a block can hold.
pub proof fn lemma_valid_storable(n: NodeView, fanout: nat, leaf: bool)
    requires
        valid_node(n, fanout, leaf),
    ensures
        storable(n, fanout),
        size_is_leading(n),
{
}

/// Checks that `n` is a valid node of the given kind.
pub fn check_node(n: &Node, fanout: usize, leaf: bool) -> (r: bool)
    ensures
        r == valid_node(n@, fanout as nat, leaf),
{
    if n.separators.len() != fanout || n.children.len() != fanout {
        return false;
    }
    if leaf {
        if n.size > fanout {
            return false;
        }
    } else if n.size >= fanout {
        return false;
    }
    let mut i: usize = 0;
    while i < fanout
        invariant
            n.separators@.len() == fanout,
            n.size <= fanout,
            i <= fanout,
            forall|j: int| 0 <= j < i && j < n.size ==> n.separators@[j] != 0,
            forall|j: int| n.size <= j < i ==> n.separators@[j] == 0,
            forall|a: int, b: int|
                0 <= a < b < i && b < n.size ==> n.separators@[a] < n.separators@[b],
        decreases fanout - i,
    {
        let k = n.separators[i];
        if i < n.size {
            if k == 0 {
                return false;
            }
            if i > 0 && n.separators[i - 1] >= k {
                assert(crate::node::live_keys(n@) =~= n.separators@.take(n.size as int));
                assert(!crate::node::strictly_sorted(crate::node::live_keys(n@))) by {
                    assert(crate::node::live_keys(n@)[i - 1] >= crate::node::live_keys(n@)[i as int]);
                }
                return false;
            }
        } else if k != 0 {
            return false;
        }
        i = i + 1;
    }
    assert(crate::node::live_keys(n@) =~= n.separators@.take(n.size as int));
    true
}

impl FileStore {
    /// An empty store with the given fanout and cache capacity: the image
    /// holds only a zeroed metadata block.
    pub fn new(fanout: usize, cache_size: usize) -> (r: FileStore)
        requires
            valid_fanout(fanout as nat),
            cache_size >= 1,
        ensures
            r.wf(),
            r.ctr() == 0,
            r.fanout_spec() == fanout,
            r.cache_cap() == cache_size,
            r.cached() == Map::<NodeIdent, NodeView>::empty(),
            r.image_spec() == Seq::new(BLOCK_SIZE as nat, |i: int| 0u8),
    {
        let image: Vec<u8> = vec![0u8; BLOCK_SIZE];
        let r = FileStore {
            image,
            node_ctr: 0,
            cache: Cache::with_capacity(cache_size),
            fanout,
            shape: Ghost(
                Shape {
                    root: 0,
                    ids: Set::empty(),
                    lo: Map::empty(),
                    hi: Map::empty(),
                    height: Map::empty(),
                    parent: Map::empty(),
                    content: Map::empty(),
                },
            ),
        };
        assert(r.image@ =~= Seq::new(BLOCK_SIZE as nat, |i: int| 0u8));
        r
    }

    /// What a well-formed store guarantees of its parameters.
    pub proof fn lemma_wf(&self)
        requires
            self.wf(),
        ensures
            0 <= self.ctr() <= i32::MAX,
            valid_fanout(self.fanout_spec()),
            forall|k: int| #[trigger] self.nodes().contains_key(k) <==> 1 <= k <= self.ctr(),
            self.image_spec().len() == (self.ctr() + 1) * BLOCK_SIZE,
    {
    }

    /// Every node block of a well-formed store is zero after its entries.
    pub proof fn lemma_wf_padded(&self)
        requires
            self.wf(),
        ensures
            forall|k: int|
                1 <= k <= self.ctr() ==> #[trigger] padded(
                    block_of(self.image_spec(), k),
                    self.fanout_spec(),
                ),
    {
    }

    /// Replaces the ghost bookkeeping of the tree.
    pub fn set_shape(&mut self, g: Ghost<Shape>)
        ensures
            final(self).shape() == g@,
            final(self).fanout_spec() == old(self).fanout_spec(),
            final(self).ctr() == old(self).ctr(),
            final(self).image_spec() == old(self).image_spec(),
            final(self).cached() == old(self).cached(),
            final(self).cache_cap() == old(self).cache_cap(),
            final(self).wf() == old(self).wf(),
            final(self).nodes() == old(self).nodes(),
    {
        self.shape = g;
        assert(self.nodes() =~= old(self).nodes());
    }

    /// The file image.
    pub fn image(&self) -> (r: &Vec<u8>)
        ensures
            r@ == self.image_spec(),
    {
        &self.image
    }

    /// The number of node blocks allocated so far.
    pub fn node_ctr(&self) -> (r: NodeIdent)
        ensures
            r == self.ctr(),
    {
        self.node_ctr
    }

    /// The fanout of the stored nodes.
    pub fn fanout(&self) -> (r: usize)
        ensures
            r == self.fanout_spec(),
    {
        self.fanout
    }

    /// Reads block `index` of the image.
    pub fn get_block(&self, index: usize) -> (r: Result<Vec<u8>, NodeStoreError>)
        ensures
            match r {
                Ok(b) => (index + 1) * BLOCK_SIZE <= self.image_spec().len() && b@ == block_of(
                    self.image_spec(),
                    index as int,
                ),
                Err(e) => (index + 1) * BLOCK_SIZE > self.image_spec().len() && e
                    == NodeStoreError::InvalidReference,
            },
    {
        if index >= self.image.len() / BLOCK_SIZE {
            return Err(NodeStoreError::InvalidReference);
        }
        let start = index * BLOCK_SIZE;
        let mut buf: Vec<u8> = Vec::new();
        let mut i: usize = 0;
        while i < BLOCK_SIZE
            invariant
                start == index * BLOCK_SIZE,
                start + BLOCK_SIZE <= self.image@.len(),
                i <= BLOCK_SIZE,
                buf@ == self.image@.subrange(start as int, start + i),
            decreases BLOCK_SIZE - i,
        {
            buf.push(self.image[start + i]);
            i = i + 1;
            assert(buf@ =~= self.image@.subrange(start as int, start + i));
        }
        Ok(buf)
    }

    /// Writes `block` as block `index` of the image, which may be one past the
    /// last block.
    pub fn set_block(&mut self, index: usize, block: &Vec<u8>) -> (r: Result<(), NodeStoreError>)
        requires
            block@.len() == BLOCK_SIZE,
            old(self).image_spec().len() % (BLOCK_SIZE as nat) == 0,
        ensures
            final(self).fanout_spec() == old(self).fanout_spec(),
            final(self).ctr() == old(self).ctr(),
            final(self).cached() == old(self).cached(),
            final(self).cache_cap() == old(self).cache_cap(),
            final(self).shape() == old(self).shape(),
            final(self).same_cache(old(self)),
            match r {
                Ok(_) => index * BLOCK_SIZE <= old(self).image_spec().len() && written(
                    old(self).image_spec(),
                    final(self).image_spec(),
                    index as int,
                    block@,
                ),
                Err(e) => index * BLOCK_SIZE > old(self).image_spec().len() && e
                    == NodeStoreError::WriteFailed && *final(self) == *old(self),
            },
    {
        let nblocks = self.image.len() / BLOCK_SIZE;
        if index > nblocks {
            return Err(NodeStoreError::WriteFailed);
        }
        if index == nblocks {
            let mut i: usize = 0;
            let ghost im0 = self.image@;
            while i < BLOCK_SIZE
                invariant
                    i <= BLOCK_SIZE,
                    block@.len() == BLOCK_SIZE,
                    self.image@ == im0 + block@.take(i as int),
                    im0.len() == nblocks * BLOCK_SIZE,
                    self.fanout == old(self).fanout,
                    self.node_ctr == old(self).node_ctr,
                    self.cache == old(self).cache,
                    self.shape == old(self).shape,
                    im0 == old(self).image@,
                decreases BLOCK_SIZE - i,
            {
                self.image.push(block[i]);
                i = i + 1;
                assert(self.image@ =~= im0 + block@.take(i as int));
            }
            assert(block_of(self.image@, index as int) =~= block@);
        } else {
            let start = index * BLOCK_SIZE;
            let ghost im0 = self.image@;
            let mut i: usize = 0;
            while i < BLOCK_SIZE
                invariant
                    i <= BLOCK_SIZE,
                    block@.len() == BLOCK_SIZE,
                    start == index * BLOCK_SIZE,
                    start + BLOCK_SIZE <= im0.len(),
                    self.image@.len() == im0.len(),
                    forall|j: int|
                        0 <= j < im0.len() && !(start <= j < start + i) ==> self.image@[j]
                            == im0[j],
                    forall|j: int| 0 <= j < i ==> self.image@[start + j] == block@[j],
                    self.fanout == old(self).fanout,
                    self.node_ctr == old(self).node_ctr,
                    self.cache == old(self).cache,
                    self.shape == old(self).shape,
                    im0 == old(self).image@,
                decreases BLOCK_SIZE - i,
            {
                self.image.set(start + i, block[i]);
                i = i + 1;
            }
            assert(block_of(self.image@, index as int) =~= block@);
        }
        Ok(())
    }
}

/// Block `j` of an image of `ctr + 1` blocks lies within it.
pub proof fn lemma_block_in_range(j: int, ctr: int, len: int)
    requires
        0 <= j <= ctr,
        len == (ctr + 1) * BLOCK_SIZE,
    ensures
        (j + 1) * BLOCK_SIZE <= len,
{
    assert((j + 1) * BLOCK_SIZE <= (ctr + 1) * BLOCK_SIZE) by (nonlinear_arith)
        requires
            j <= ctr,
    ;
}

proof fn lemma_other_blocks(before: Seq<u8>, after: Seq<u8>, v: int, b: Seq<u8>)
    requires
        written(before, after, v, b),
        0 <= v,
        b.len() == BLOCK_SIZE,
    ensures
        forall|k: int|
            0 <= k && k != v && (k + 1) * BLOCK_SIZE <= before.len() ==> #[trigger] block_of(
                after,
                k,
            ) == block_of(before, k),
{
    assert forall|k: int|
        0 <= k && k != v && (k + 1) * BLOCK_SIZE <= before.len() implies #[trigger] block_of(
        after,
        k,
    ) == block_of(before, k) by {
        if k < v {
            assert(k * BLOCK_SIZE + BLOCK_SIZE <= v * BLOCK_SIZE);
        } else {
            assert(k * BLOCK_SIZE >= v * BLOCK_SIZE + BLOCK_SIZE);
        }
        assert(block_of(after, k) =~= block_of(before, k));
    }
}

impl FileStore {
    /// Encodes `n` into block `k`, which is an allocated node block.
    fn write_node(&mut self, k: NodeIdent, n: &Node)
        requires
            1 <= k <= old(self).ctr(),
            old(self).ctr() >= 0,
            old(self).image_spec().len() == (old(self).ctr() + 1) * BLOCK_SIZE,
            fits_block(n@),
            size_is_leading(n@),
            n@.keys.len() == old(self).fanout_spec(),
        ensures
            final(self).fanout_spec() == old(self).fanout_spec(),
            final(self).ctr() == old(self).ctr(),
            final(self).cached() == old(self).cached(),
            final(self).cache_cap() == old(self).cache_cap(),
            final(self).shape() == old(self).shape(),
            final(self).image_spec().len() == old(self).image_spec().len(),
            final(self).same_cache(old(self)),
            decode_view(block_of(final(self).image_spec(), k as int), final(self).fanout_spec())
                == n@,
            padded(block_of(final(self).image_spec(), k as int), final(self).fanout_spec()),
            encodes(n@, block_of(final(self).image_spec(), k as int)),
            forall|j: int|
                0 <= j <= old(self).ctr() && j != k ==> #[trigger] block_of(
                    final(self).image_spec(),
                    j,
                ) == block_of(old(self).image_spec(), j),
    {
        let bytes = n.to_bytes();
        let r = self.set_block(k as usize, &bytes);
        proof {
            lemma_round_trip(n@, bytes@);
            lemma_other_blocks(old(self).image@, self.image@, k as int, bytes@);
            assert forall|j: int|
                0 <= j <= old(self).ctr() && j != k implies #[trigger] block_of(self.image@, j)
                == block_of(old(self).image@, j) by {
                lemma_block_in_range(j, old(self).ctr(), old(self).image@.len() as int);
            }
        }
    }

    /// Caches the valid node `n` read for block `k`, writing back whatever
    /// the cache evicts to make room.
    fn cache_and_write_back(&mut self, k: NodeIdent, n: Node)
        requires
            old(self).wf(),
            1 <= k <= old(self).ctr(),
            !old(self).cached().contains_key(k),
            storable(n@, old(self).fanout_spec()),
        ensures
            final(self).wf(),
            final(self).fanout_spec() == old(self).fanout_spec(),
            final(self).ctr() == old(self).ctr(),
            final(self).cache_cap() == old(self).cache_cap(),
            final(self).shape() == old(self).shape(),
            final(self).nodes() == old(self).nodes().insert(k as int, n@),
            miss_effect(*old(self), *final(self), k, n@),
    {
        let ghost n_view = n@;
        let evicted = self.cache.cache_node(k, n);
        match evicted {
            None => {
                proof {
                    assert(self.nodes() =~= old(self).nodes().insert(k as int, n_view));
                    assert(self.wf());
                }
            },
            Some((v, vn)) => {

                let ghost mid = *self;
                self.write_node(v, &vn);
                proof {
                    assert forall|j: int| 1 <= j <= self.ctr() implies self.node_at(j) == (
                    if j == k {
                        n_view
                    } else {
                        old(self).node_at(j)
                    }) by {
                        if j != v {
                            assert(block_of(self.image@, j) == block_of(old(self).image@, j));
                        }
                    }
                    assert(self.nodes() =~= old(self).nodes().insert(k as int, n_view));
                    assert(old(self).cached().contains_key(v));
                }
            },
        }
    }

    /// Reads the node `ident`, through the cache: a cached node is served
    /// from the cache; otherwise block `|ident|` is decoded and cached, the
    /// cache writing back whatever it evicts. Only an identifier that names
    /// no allocated block fails, with `InvalidReference`.
    pub fn get_node(&mut self, ident: NodeIdent) -> (r: Result<Node, NodeStoreError>)
        requires
            old(self).wf(),
        ensures
            ident != 0 && ident != i32::MIN && 1 <= block_index(ident) <= old(self).ctr()
                && !old(self).cached().contains_key(block_index(ident) as i32) ==> r is Ok
                && r->Ok_0@ == decode_view(
                block_of(old(self).image_spec(), block_index(ident)),
                old(self).fanout_spec(),
            ),
            r matches Ok(n) ==> final(self).cached().contains_key(block_index(ident) as i32)
                && final(self).cached()[block_index(ident) as i32] == n@,
            (r is Err || old(self).cached().contains_key(block_index(ident) as i32))
                ==> final(self).image_spec() == old(self).image_spec()
                && final(self).cached() == old(self).cached(),
            r is Ok && !old(self).cached().contains_key(block_index(ident) as i32) ==> miss_effect(
                *old(self),
                *final(self),
                block_index(ident) as i32,
                r->Ok_0@,
            ),
            final(self).wf(),
            final(self).fanout_spec() == old(self).fanout_spec(),
            final(self).ctr() == old(self).ctr(),
            final(self).cache_cap() == old(self).cache_cap(),
            final(self).shape() == old(self).shape(),
            final(self).nodes() == old(self).nodes(),
            match r {
                Ok(n) => old(self).fetch(ident) == Ok::<NodeView, NodeStoreError>(n@),
                Err(e) => old(self).fetch(ident) == Err::<NodeView, NodeStoreError>(e),
            },
    {
        if ident == 0 || ident == i32::MIN {
            return Err(NodeStoreError::InvalidReference);
        }
        let k: NodeIdent = if ident < 0 {
            -ident
        } else {
            ident
        };
        if k > self.node_ctr {
            return Err(NodeStoreError::InvalidReference);
        }
        match self.cache.get_node(k) {
            Some(n) => {
                proof {
                    assert(self.nodes() =~= old(self).nodes());
                }
                Ok(n)
            },
            None => {
                proof {
                    assert(self.nodes() =~= old(self).nodes());
                }
                let block = match self.get_block(k as usize) {
                    Ok(b) => b,
                    Err(e) => {
                        proof {
                            lemma_block_in_range(k as int, self.node_ctr as int, self.image@.len() as int);
                        }
                        return Err(e);
                    },
                };
                let n = Node::from_bytes(&block, self.fanout);
                proof {
                    lemma_decode_size(block@, self.fanout as nat);
                }
                let copy = n.copy();
                let ghost before = self.nodes();
                self.cache_and_write_back(k, copy);
                proof {
                    assert(self.nodes() =~= before);
                }
                Ok(n)
            },
        }
    }

    /// Replaces the node `ident`, which can be read, by `node`, through the
    /// cache.
    pub fn put_node(&mut self, ident: NodeIdent, node: Node)
        requires
            old(self).wf(),
            old(self).fetch(ident) is Ok,
            valid_node(node@, old(self).fanout_spec(), ident > 0),
        ensures
            final(self).wf(),
            final(self).fanout_spec() == old(self).fanout_spec(),
            final(self).ctr() == old(self).ctr(),
            final(self).cache_cap() == old(self).cache_cap(),
            final(self).shape() == old(self).shape(),
            final(self).nodes() == old(self).nodes().insert(block_index(ident), node@),
    {
        let k: NodeIdent = if ident < 0 {
            -ident
        } else {
            ident
        };
        let ghost nv = node@;
        proof {
            lemma_valid_storable(node@, self.fanout as nat, ident > 0);
        }
        if self.cache.has_node(k) {
            self.cache.put_node(k, node);
            proof {
                assert(self.nodes() =~= old(self).nodes().insert(block_index(ident), nv));
            }
        } else {
            self.cache_and_write_back(k, node);
        }
    }

    /// Allocates the next block for `node`, a leaf or an inner node, and
    /// writes it there. The identifier is the block index, negated for an
    /// inner node. Fails only when the identifiers are exhausted.
    pub fn store_node(&mut self, node: Node, leaf: bool) -> (r: Result<NodeIdent, NodeStoreError>)
        requires
            old(self).wf(),
            valid_node(node@, old(self).fanout_spec(), leaf),
        ensures
            final(self).wf(),
            final(self).fanout_spec() == old(self).fanout_spec(),
            final(self).cache_cap() == old(self).cache_cap(),
            final(self).shape() == old(self).shape(),
            final(self).cached() == old(self).cached(),
            forall|j: int|
                0 <= j <= old(self).ctr() ==> #[trigger] block_of(final(self).image_spec(), j)
                    == block_of(old(self).image_spec(), j),
            match r {
                Ok(id) => old(self).ctr() < i32::MAX && final(self).ctr() == old(self).ctr() + 1
                    && encodes(node@, block_of(final(self).image_spec(), old(self).ctr() + 1))
                    && !final(self).cached().contains_key((old(self).ctr() + 1) as i32)
                    && id == (if leaf {
                    old(self).ctr() + 1
                } else {
                    -(old(self).ctr() + 1)
                }) && final(self).nodes() == old(self).nodes().insert(old(self).ctr() + 1, node@),
                Err(e) => old(self).ctr() == i32::MAX && e == NodeStoreError::WriteFailed
                    && *final(self) == *old(self),
            },
    {
        if self.node_ctr == i32::MAX {
            return Err(NodeStoreError::WriteFailed);
        }
        let k = self.node_ctr + 1;
        let bytes = node.to_bytes();
        proof {
            lemma_valid_storable(node@, self.fanout as nat, leaf);
            lemma_round_trip(node@, bytes@);
            assert(self.image@.len() % (BLOCK_SIZE as nat) == 0) by (nonlinear_arith)
                requires
                    self.image@.len() == (self.node_ctr + 1) * BLOCK_SIZE,
            ;
        }
        let ghost im0 = self.image@;
        let _ = self.set_block(k as usize, &bytes);
        self.node_ctr = k;
        proof {
            assert(self.image@.len() == (self.node_ctr + 1) * BLOCK_SIZE);
            assert(self.cache.wf());
            lemma_other_blocks(im0, self.image@, k as int, bytes@);
            assert forall|j: int| 1 <= j <= self.node_ctr implies #[trigger] padded(
                block_of(self.image@, j),
                self.fanout as nat,
            ) by {
                if j != k {
                    lemma_block_in_range(j, k - 1, im0.len() as int);
                    assert(block_of(self.image@, j) == block_of(im0, j));
                }
            }
            assert(self.wf());
            lemma_other_blocks(im0, self.image@, k as int, bytes@);
            assert forall|j: int| 1 <= j <= self.ctr() implies self.node_at(j) == (if j == k {
                node@
            } else {
                old(self).node_at(j)
            }) by {
                if j != k {
                    lemma_block_in_range(j, k - 1, im0.len() as int);
                }
            }
            assert(self.nodes() =~= old(self).nodes().insert(old(self).ctr() + 1, node@));
            assert forall|j: int| 0 <= j <= old(self).ctr() implies #[trigger] block_of(
                self.image@,
                j,
            ) == block_of(im0, j) by {
                lemma_block_in_range(j, k - 1, im0.len() as int);
            }
        }
        if leaf {
            Ok(k)
        } else {
            Ok(-k)
        }
    }
}

/// Why opening `image` with the given fanout fails, if it does.
pub open spec fn load_failure(image: Seq<u8>, fanout: nat) -> Option<TreeCreationError> {
    if image.len() < BLOCK_SIZE {
        Some(TreeCreationError::IOError)
    } else if word_at(image, 0) != fanout || word_at(image, 8) != BLOCK_SIZE || word_at(image, 16)
        != IDENT_BYTES || word_at(image, 24) != KEY_BYTES {
        Some(TreeCreationError::ParameterMismatch)
    } else if ident_word_at(image, 32) < 0 || image.len() != (ident_word_at(image, 32) + 1)
        * BLOCK_SIZE {
        Some(TreeCreationError::IOError)
    } else if !(forall|k: int|
        1 <= k <= ident_word_at(image, 32) ==> #[trigger] padded(block_of(image, k), fanout)) {
        Some(TreeCreationError::IOError)
    } else {
        None
    }
}

impl FileStore {
    /// Writes every cached node back to its block and empties the cache.
    pub fn flush(&mut self)
        requires
            old(self).wf(),
        ensures
            final(self).wf(),
            final(self).fanout_spec() == old(self).fanout_spec(),
            final(self).ctr() == old(self).ctr(),
            final(self).cache_cap() == old(self).cache_cap(),
            final(self).shape() == old(self).shape(),
            final(self).nodes() == old(self).nodes(),
            final(self).cached() == Map::<NodeIdent, NodeView>::empty(),
    {
        let ghost target = self.nodes();
        let ghost c0 = self.cache.contents();
        let items = self.cache.drain();
        let mut i: usize = 0;
        while i < items.len()
            invariant
                i <= items@.len(),
                valid_fanout(self.fanout as nat),
                self.node_ctr >= 0,
                self.node_ctr == old(self).node_ctr,
                self.fanout == old(self).fanout,
                self.shape == old(self).shape,
                self.cache.cap() == old(self).cache.cap(),
                self.image@.len() == (self.node_ctr + 1) * BLOCK_SIZE,
                self.cache.wf(),
                self.cache.contents() == Map::<NodeIdent, NodeView>::empty(),
                forall|k: int|
                    1 <= k <= self.node_ctr ==> #[trigger] padded(
                        block_of(self.image@, k),
                        self.fanout as nat,
                    ),
                c0 == old(self).cache.contents(),
                target == old(self).nodes(),
                forall|k: NodeIdent|
                    #[trigger] c0.contains_key(k) ==> 1 <= k <= self.node_ctr && storable(
                        c0[k],
                        self.fanout as nat,
                    ),
                forall|a: int, b: int|
                    0 <= a < b < items@.len() ==> items@[a].ident != items@[b].ident,
                forall|a: int|
                    0 <= a < items@.len() ==> c0.contains_key(#[trigger] items@[a].ident)
                        && c0[items@[a].ident] == items@[a].node@,
                forall|k: int|
                    1 <= k <= self.node_ctr && !(exists|a: int|
                        i <= a < items@.len() && #[trigger] items@[a].ident == k) ==> self.node_at(k)
                        == target[k],
            decreases items@.len() - i,
        {
            let ident = items[i].ident;

            let ghost before = *self;
            self.write_node(ident, &items[i].node);
            proof {
                assert forall|k: int| 1 <= k <= self.node_ctr implies #[trigger] padded(
                    block_of(self.image@, k),
                    self.fanout as nat,
                ) by {
                    if k != ident {
                        assert(block_of(self.image@, k) == block_of(before.image@, k));
                    }
                }
                assert forall|k: int|
                    1 <= k <= self.node_ctr && !(exists|a: int|
                        i + 1 <= a < items@.len() && #[trigger] items@[a].ident == k) implies self.node_at(k)
                    == target[k] by {
                    if k != ident {
                        assert(block_of(self.image@, k) == block_of(before.image@, k));
                        if exists|a: int| i <= a < items@.len() && #[trigger] items@[a].ident == k {
                            let a = choose|a: int| i <= a < items@.len() && #[trigger] items@[a].ident == k;
                            assert(a != i);
                        }
                    } else {
                        assert(items@[i as int].ident == k);
                        assert(c0.contains_key(ident));
                    }
                }
            }
            i = i + 1;
        }
        proof {
            assert forall|k: int| 1 <= k <= self.node_ctr implies self.node_at(k) == target[k] by {
                if exists|a: int| i <= a < items@.len() && #[trigger] items@[a].ident == k {
                }
            }
            assert(self.nodes() =~= target);
        }
    }

    /// Writes the metadata block.
    pub fn set_metadata(&mut self, m: &Metadata)
        requires
            old(self).wf(),
        ensures
            final(self).wf(),
            final(self).fanout_spec() == old(self).fanout_spec(),
            final(self).ctr() == old(self).ctr(),
            final(self).cache_cap() == old(self).cache_cap(),
            final(self).shape() == old(self).shape(),
            final(self).cached() == old(self).cached(),
            final(self).nodes() == old(self).nodes(),
            final(self).image_spec().len() == old(self).image_spec().len(),
            metadata_encoded(*m, block_of(final(self).image_spec(), 0)),
            forall|j: int|
                1 <= j <= old(self).ctr() ==> #[trigger] block_of(final(self).image_spec(), j)
                    == block_of(old(self).image_spec(), j),
    {
        let mut bytes: Vec<u8> = Vec::new();
        let a = u64_to_le_bytes(m.fanout as u64);
        let b = u64_to_le_bytes(m.block_size as u64);
        let c = u64_to_le_bytes(m.node_ident_size as u64);
        let d = u64_to_le_bytes(m.search_key_size as u64);
        let e = u32_to_le_bytes(m.node_ctr as u32);
        let f = u32_to_le_bytes(m.root_node as u32);
        append_bytes(&mut bytes, &a);
        append_bytes(&mut bytes, &b);
        append_bytes(&mut bytes, &c);
        append_bytes(&mut bytes, &d);
        append_bytes(&mut bytes, &e);
        append_bytes(&mut bytes, &f);
        let zeros: Vec<u8> = vec![0u8; BLOCK_SIZE - 40];
        append_bytes(&mut bytes, &zeros);
        proof {
            let s = bytes@;
            assert(s.subrange(0, 8) =~= a@);
            assert(s.subrange(8, 16) =~= b@);
            assert(s.subrange(16, 24) =~= c@);
            assert(s.subrange(24, 32) =~= d@);
            assert(s.subrange(32, 36) =~= e@);
            assert(s.subrange(36, 40) =~= f@);
            assert(self.image@.len() % (BLOCK_SIZE as nat) == 0) by (nonlinear_arith)
                requires
                    self.image@.len() == (self.node_ctr + 1) * BLOCK_SIZE,
            ;
        }
        let ghost im0 = self.image@;
        let _ = self.set_block(0, &bytes);
        proof {
            lemma_other_blocks(im0, self.image@, 0, bytes@);
            assert forall|j: int| 1 <= j <= old(self).ctr() implies #[trigger] block_of(
                self.image@,
                j,
            ) == block_of(im0, j) by {
                lemma_block_in_range(j, self.node_ctr as int, im0.len() as int);
            }
            assert(self.nodes() =~= old(self).nodes());
        }
    }

    /// Opens a saved image: block 0 must hold metadata that matches the
    /// given fanout and this library's block, key and identifier sizes, and
    /// the image must hold exactly the blocks it counts. Returns the store
    /// with an empty cache, and the saved root.
    pub fn load(image: Vec<u8>, fanout: usize, cache_size: usize) -> (r: Result<
        (FileStore, NodeIdent),
        TreeCreationError,
    >)
        requires
            valid_fanout(fanout as nat),
            cache_size >= 1,
        ensures
            match r {
                Ok((st, root)) => load_failure(image@, fanout as nat) is None && st.wf()
                    && st.image_spec() == image@ && st.ctr() == ident_word_at(image@, 32) && root
                    == ident_word_at(image@, 36) && st.fanout_spec() == fanout && st.cache_cap()
                    == cache_size && st.cached() == Map::<NodeIdent, NodeView>::empty(),
                Err(e) => load_failure(image@, fanout as nat) == Some(e),
            },
    {
        if image.len() < BLOCK_SIZE {
            return Err(TreeCreationError::IOError);
        }
        let s = image.as_slice();
        let f = u64_from_le_bytes(slice_subrange(s, 0, 8));
        let bs = u64_from_le_bytes(slice_subrange(s, 8, 16));
        let isz = u64_from_le_bytes(slice_subrange(s, 16, 24));
        let ksz = u64_from_le_bytes(slice_subrange(s, 24, 32));
        if f != fanout as u64 || bs != BLOCK_SIZE as u64 || isz != IDENT_BYTES as u64 || ksz
            != KEY_BYTES as u64 {
            return Err(TreeCreationError::ParameterMismatch);
        }
        let ctr = u32_from_le_bytes(slice_subrange(s, 32, 36)) as i32;
        let root = u32_from_le_bytes(slice_subrange(s, 36, 40)) as i32;
        if ctr < 0 || image.len() / BLOCK_SIZE != ctr as usize + 1 || image.len() % BLOCK_SIZE
            != 0 {
            return Err(TreeCreationError::IOError);
        }
        let limit = ctr as usize;
        let len = image.len();
        let start = 12 * fanout;
        let mut k: usize = 1;
        while k <= limit
            invariant
                1 <= k <= limit + 1,
                limit == ctr,
                len == image@.len(),
                start == 12 * fanout,
                12 * fanout <= BLOCK_SIZE,
                image@.len() == (limit + 1) * BLOCK_SIZE,
                forall|b: int| 1 <= b < k ==> #[trigger] padded(block_of(image@, b), fanout as nat),
                word_at(image@, 0) == fanout as u64,
                word_at(image@, 8) == BLOCK_SIZE as u64,
                word_at(image@, 16) == IDENT_BYTES as u64,
                word_at(image@, 24) == KEY_BYTES as u64,
                ident_word_at(image@, 32) == ctr,
                ctr >= 0,
            decreases limit + 1 - k,
        {
            proof {
                lemma_block_in_range(k as int, limit as int, image@.len() as int);
                assert(k * BLOCK_SIZE + BLOCK_SIZE <= len);
            }
            let base = k * BLOCK_SIZE;
            let mut j: usize = start;
            while j < BLOCK_SIZE
                invariant
                    start <= j <= BLOCK_SIZE,
                    start == 12 * fanout,
                    base == k * BLOCK_SIZE,
                    base + BLOCK_SIZE <= image@.len(),
                    forall|x: int| start <= x < j ==> block_of(image@, k as int)[x] == 0,
                    image@.len() == (limit + 1) * BLOCK_SIZE,
                    limit == ctr,
                    1 <= k <= limit,
                    12 * fanout <= BLOCK_SIZE,
                    forall|b: int| 1 <= b < k ==> #[trigger] padded(block_of(image@, b), fanout as nat),
                word_at(image@, 0) == fanout as u64,
                word_at(image@, 8) == BLOCK_SIZE as u64,
                word_at(image@, 16) == IDENT_BYTES as u64,
                word_at(image@, 24) == KEY_BYTES as u64,
                ident_word_at(image@, 32) == ctr,
                ctr >= 0,
                decreases BLOCK_SIZE - j,
            {
                if image[base + j] != 0 {
                    proof {
                        assert(block_of(image@, k as int)[j as int] != 0);
                        assert(!padded(block_of(image@, k as int), fanout as nat));
                    }
                    return Err(TreeCreationError::IOError);
                }
                j = j + 1;
            }
            k = k + 1;
        }
        let st = FileStore {
            image,
            node_ctr: ctr,
            cache: Cache::with_capacity(cache_size),
            fanout,
            shape: Ghost(
                Shape {
                    root: 0,
                    ids: Set::empty(),
                    lo: Map::empty(),
                    hi: Map::empty(),
                    height: Map::empty(),
                    parent: Map::empty(),
                    content: Map::empty(),
                },
            ),
        };
        Ok((st, root))
    }
}

impl NodeStore for FileStore {
    open spec fn store_wf(&self) -> bool {
        self.wf()
    }

    open spec fn node_map(&self) -> Map<int, NodeView> {
        self.nodes()
    }

    open spec fn node_fanout(&self) -> nat {
        self.fanout_spec()
    }

    open spec fn allocated(&self) -> int {
        self.ctr()
    }

    fn get_node(&mut self, ident: NodeIdent) -> (r: Result<Node, NodeStoreError>) {
        FileStore::get_node(self, ident)
    }

    fn store_node(&mut self, node: Node, leaf: bool) -> (r: Result<NodeIdent, NodeStoreError>) {
        FileStore::store_node(self, node, leaf)
    }
}

/// Appends the bytes of `b` to `v`.
fn append_bytes(v: &mut Vec<u8>, b: &Vec<u8>)
    ensures
        final(v)@ == old(v)@ + b@,
{
    let mut i: usize = 0;
    while i < b.len()
        invariant
            i <= b@.len(),
            v@ == old(v)@ + b@.take(i as int),
        decreases b@.len() - i,
    {
        v.push(b[i]);
        i = i + 1;
        assert(v@ =~= old(v)@ + b@.take(i as int));
    }
    assert(b@.take(b@.len() as int) =~= b@);
}

} // verus!
