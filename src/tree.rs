//! The tree façade: root management, root-split promotion, save and load.
use crate::codec::{BLOCK_SIZE, IDENT_BYTES, KEY_BYTES};
use crate::file_store::{valid_fanout, FileStore, Metadata};
use crate::insert_proof::{lemma_root_promotion, promote_shape};
use crate::node::{InsertionResult, Node, NodeIdent, SearchKey};
use crate::node_store::NodeStoreError;
use crate::graphviz::{graphviz_text, prepend, render_walk};
use crate::shape::{content_get, key_end, key_min, lemma_lookup, lookup, tree_inv, Shape};
use vstd::prelude::*;

verus! {

/// A B+-tree index over a node store.
pub struct Tree {
    store: FileStore,
    root: NodeIdent,
}

/// Why a tree could not be created or opened.
#[derive(Debug, PartialEq, Eq, Structural, Clone, Copy)]
pub enum TreeCreationError {
    /// The image is too short, or its length disagrees with its node count.
    IOError,
    /// The parameters are unusable, or the image was written with others.
    ParameterMismatch,
}

/// An insertion that adds one entry, allocates at most one node more than
/// the old root's height plus one, and raises the root's height by at most
/// one keeps the node counter within its bound on the content's size.
proof fn lemma_count_bound(
    g0: Shape,
    ctr0: int,
    g1: Shape,
    ctr2: int,
    root: NodeIdent,
    h2: nat,
    key: SearchKey,
    value: NodeIdent,
)
    requires
        g0.content.dom().finite(),
        !g0.content.contains_key(key),
        g1.content == g0.content.insert(key, value),
        g0.height[root] <= g0.content.len(),
        2 * ctr0 <= 2 + g0.content.len() * g0.content.len() + 3 * g0.content.len(),
        ctr2 <= ctr0 + g0.height[root] + 2,
        h2 <= g0.height[root] + 1,
    ensures
        g1.content.dom().finite(),
        g1.content.len() == g0.content.len() + 1,
        h2 <= g1.content.len(),
        2 * ctr2 <= 2 + g1.content.len() * g1.content.len() + 3 * g1.content.len(),
{
    assert(g1.content.dom() =~= g0.content.dom().insert(key));
    let c = g0.content.len() as int;
    let h = g0.height[root] as int;
    assert(2 * ctr2 <= 2 + (c + 1) * (c + 1) + 3 * (c + 1)) by (nonlinear_arith)
        requires
            2 * ctr0 <= 2 + c * c + 3 * c,
            ctr2 <= ctr0 + h + 2,
            h <= c,
    ;
}

impl Tree {
    /// The tree is backed by a well-formed store.
    pub closed spec fn wf(&self) -> bool {
        self.store.wf()
    }

    /// A tree's store is well formed when the tree is.
    pub proof fn lemma_store_wf(&self)
        requires
            self.wf(),
        ensures
            self.store_spec().wf(),
    {
    }

    /// The identifier of the root.
    pub closed spec fn root_spec(&self) -> NodeIdent {
        self.root
    }

    /// The backing store.
    pub closed spec fn store_spec(&self) -> FileStore {
        self.store
    }

    /// The store holds a well-formed tree rooted at the root: its ghost shape
    /// describes it.
    pub open spec fn well_formed(&self) -> bool {
        &&& tree_inv(
            self.store_spec().nodes(),
            self.store_spec().fanout_spec(),
            self.store_spec().shape(),
            self.store_spec().ctr(),
        )
        &&& self.store_spec().shape().root == self.root_spec()
        &&& self.content().dom().finite()
        &&& self.store_spec().shape().height[self.root_spec()] <= self.content().len()
        &&& 2 * self.store_spec().ctr() <= 2 + self.content().len() * self.content().len() + 3
            * self.content().len()
    }

    /// The ghost shape `g` describes the tree held by the store: with it as
    /// the store's bookkeeping the tree would be well formed.
    pub open spec fn fits_shape(&self, g: Shape) -> bool {
        &&& tree_inv(
            self.store_spec().nodes(),
            self.store_spec().fanout_spec(),
            g,
            self.store_spec().ctr(),
        )
        &&& g.root == self.root_spec()
        &&& g.content.dom().finite()
        &&& g.height[self.root_spec()] <= g.content.len()
        &&& 2 * self.store_spec().ctr() <= 2 + g.content.len() * g.content.len() + 3
            * g.content.len()
    }

    /// The key-value content of a well-formed tree.
    pub open spec fn content(&self) -> Map<SearchKey, NodeIdent> {
        self.store_spec().shape().content
    }

    /// Too many blocks are allocated for an insertion to be sure of room for
    /// the nodes its splits create.
    pub open spec fn full(&self) -> bool {
        2 * self.store_spec().ctr() + 3 > i32::MAX
    }

    /// The inner root that takes the split old root and its new sibling
    /// `rid` as its two children, with `sep` between them.
    pub open spec fn root_view(fanout: nat, sep: SearchKey, old_root: NodeIdent, rid: NodeIdent) -> crate::node::NodeView {
        crate::node::NodeView {
            keys: crate::node::zeros_key(fanout as int).update(0, sep),
            vals: crate::node::zeros_ident(fanout as int).update(0, old_root).update(1, rid),
            size: 1,
        }
    }

    /// The result of inserting `key` with `value` into the tree rooted at
    /// `root`, with the nodes, the node counter and the root afterwards. A
    /// zero key is refused; so is any key once too many blocks are allocated
    /// to be sure of room for the splits. When the root splits, the next
    /// block holds a new inner root over the old root and its new sibling.
    pub open spec fn insert_effect(
        nodes: Map<int, crate::node::NodeView>,
        fanout: nat,
        ctr: int,
        root: NodeIdent,
        key: SearchKey,
        value: NodeIdent,
    ) -> (InsertionResult, Map<int, crate::node::NodeView>, int, NodeIdent) {
        if key == 0 {
            (InsertionResult::ZeroKey, nodes, ctr, root)
        } else if ctr > (i32::MAX - 3) / 2 {
            (InsertionResult::InsertError(NodeStoreError::WriteFailed), nodes, ctr, root)
        } else {
            let below = crate::node::insert_effect(nodes, fanout, ctr, root, key, value, (ctr + 1) as nat);
            match below.0 {
                InsertionResult::NodeOverflow(sep, rid) => if below.2 == i32::MAX {
                    (InsertionResult::InsertError(NodeStoreError::WriteFailed), below.1, below.2, root)
                } else {
                    (
                        InsertionResult::Inserted,
                        below.1.insert(below.2 + 1, Tree::root_view(fanout, sep, root, rid)),
                        below.2 + 1,
                        -(below.2 + 1) as i32,
                    )
                },
                _ => (below.0, below.1, below.2, root),
            }
        }
    }

    /// What inserting `key` with `value` into a well-formed tree reports and
    /// leaves: a present key is a duplicate and the content stays; an
    /// absent one joins the content; a refusal for want of identifiers comes
    /// only for a content of tens of thousands of entries. The tree stays well
    /// formed.
    pub open spec fn insert_outcome(before: Tree, after: Tree, key: SearchKey, value: NodeIdent, r: InsertionResult) -> bool {
        before.well_formed() && key != 0 ==> match r {
            InsertionResult::DuplicateKey => before.content().contains_key(key)
                && after.well_formed() && after.content() == before.content(),
            InsertionResult::Inserted => !before.content().contains_key(key)
                && after.well_formed()
                && after.content() == before.content().insert(key, value),
            InsertionResult::InsertError(e) => e == NodeStoreError::WriteFailed
                && before.full() && after.well_formed()
                && before.content().len() * before.content().len() + 3 * before.content().len()
                + 5 > i32::MAX
                && after.content() == before.content(),
            _ => false,
        }
    }

    /// What a search for `key` finds in the tree.
    pub open spec fn lookup_key(&self, key: SearchKey) -> Result<Option<NodeIdent>, NodeStoreError> {
        lookup(
            self.store_spec().nodes(),
            self.store_spec().fanout_spec(),
            self.root_spec(),
            key,
            self.store_spec().ctr() as nat,
        )
    }

    /// A tree of one empty leaf, with the given fanout and cache capacity.
    /// The fanout must be even, at least four, and small enough for a node
    /// to fit in a block; the cache must hold at least one node.
    pub fn new(fanout: usize, cache_size: usize) -> (r: Result<Tree, TreeCreationError>)
        ensures
            match r {
                Ok(t) => valid_fanout(fanout as nat) && cache_size >= 1 && t.wf()
                    && t.store_spec().fanout_spec() == fanout && t.store_spec().cache_cap()
                    == cache_size && t.store_spec().ctr() == 1 && t.root_spec() == 1
                    && t.store_spec().nodes()[1] == (crate::node::NodeView {
                    keys: crate::node::zeros_key(fanout as int),
                    vals: crate::node::zeros_ident(fanout as int),
                    size: 0,
                }) && t.store_spec().cached() == Map::<NodeIdent, crate::node::NodeView>::empty()
                    && t.well_formed() && t.content() == Map::<SearchKey, NodeIdent>::empty(),
                Err(e) => !(valid_fanout(fanout as nat) && cache_size >= 1) && e
                    == TreeCreationError::ParameterMismatch,
            },
    {
        if fanout < 4 || fanout % 2 != 0 || fanout > BLOCK_SIZE / 12 || cache_size < 1 {
            return Err(TreeCreationError::ParameterMismatch);
        }
        let mut store = FileStore::new(fanout, cache_size);
        let leaf = Node { separators: vec![0; fanout], children: vec![0; fanout], size: 0 };
        proof {
            assert(crate::node::live_keys(leaf@) =~= Seq::<SearchKey>::empty());
        }
        let ghost lv = leaf@;
        let root = match store.store_node(leaf, true) {
            Ok(id) => id,
            Err(_) => return Err(TreeCreationError::IOError),
        };
        let ghost g = Shape {
            root: 1,
            ids: set![1i32],
            lo: map![1i32 => key_min()],
            hi: map![1i32 => key_end()],
            height: map![1i32 => 0nat],
            parent: Map::empty(),
            content: Map::empty(),
        };
        store.set_shape(Ghost(g));
        let t = Tree { store, root };
        proof {
            t.store.lemma_wf();
            let nodes = t.store.nodes();
            let f = t.store.fanout_spec();
            assert(nodes[1] == lv);
            assert(lv.keys =~= crate::node::zeros_key(fanout as int));
            assert(lv.vals =~= crate::node::zeros_ident(fanout as int));
            assert(crate::node::live_keys(lv) =~= Seq::<SearchKey>::empty());
            assert(crate::shape::node_ok(nodes, f, g, 1));
            assert forall|x: NodeIdent| #[trigger] g.ids.contains(x) implies x == 1 by {
            }
            assert(tree_inv(nodes, f, g, 1));
            assert(g.content.dom() =~= Set::<SearchKey>::empty());
        }
        Ok(t)
    }

    /// Inserts `key` with payload `value`. A zero key is refused, and so is a
    /// key already present. When the root splits, a new inner root takes the
    /// old root and its new sibling as its two children.
    pub fn insert(&mut self, key: SearchKey, value: NodeIdent) -> (r: InsertionResult)
        requires
            old(self).wf(),
        ensures
            final(self).wf(),
            final(self).store_spec().fanout_spec() == old(self).store_spec().fanout_spec(),
            final(self).store_spec().cache_cap() == old(self).store_spec().cache_cap(),
            r is ZeroKey <==> key == 0,
            key == 0 ==> *final(self) == *old(self),
            !(r is NodeOverflow),
            (r, final(self).store_spec().nodes(), final(self).store_spec().ctr(), final(self).root_spec())
                == Tree::insert_effect(
                old(self).store_spec().nodes(),
                old(self).store_spec().fanout_spec(),
                old(self).store_spec().ctr(),
                old(self).root_spec(),
                key,
                value,
            ),
            Tree::insert_outcome(*old(self), *final(self), key, value, r),
    {
        if key == 0 {
            return InsertionResult::ZeroKey;
        }
        proof {
            self.store.lemma_wf();
        }
        if self.store.node_ctr() > (i32::MAX - 3) / 2 {
            return InsertionResult::InsertError(NodeStoreError::WriteFailed);
        }
        let ghost nodes0 = self.store.nodes();
        let ghost g0 = self.store.shape();
        let ghost ctr0 = self.store.ctr();
        let ghost f = self.store.fanout_spec();
        let ghost pre = old(self).well_formed();
        proof {
            if pre {
                assert(crate::shape::node_ok(nodes0, f, g0, self.root));
            }
        }
        let res = Node::insert(self.root, key, value, &mut self.store);
        let ghost nodes1 = self.store.nodes();
        let ghost g1 = self.store.shape();
        let ghost ctr1 = self.store.ctr();
        match res {
            InsertionResult::NodeOverflow(separator, ident) => {
                proof {
                    self.store.lemma_wf();
                }
                let fanout = self.store.fanout();
                let mut separators: Vec<SearchKey> = vec![0; fanout];
                let mut children: Vec<NodeIdent> = vec![0; fanout];
                separators.set(0, separator);
                children.set(0, self.root);
                children.set(1, ident);
                let new_root = Node { separators, children, size: 1 };
                proof {
                    assert(crate::node::live_keys(new_root@) =~= seq![separator]);
                    assert(new_root@.keys =~= Tree::root_view(f, separator, self.root, ident).keys);
                    assert(new_root@.vals =~= Tree::root_view(f, separator, self.root, ident).vals);
                }
                let ghost nr = new_root@;
                let old_root = self.root;
                match self.store.store_node(new_root, false) {
                    Ok(id) => {
                        self.store.set_shape(Ghost(promote_shape(g1, old_root, ident, id)));
                        self.root = id;
                        proof {
                            if pre {
                                lemma_root_promotion(nodes0, g0, ctr0, nodes1, g1, ctr1, f, separator, ident, nr);
                                assert(self.store.nodes() == nodes1.insert(ctr1 + 1, nr));
                                lemma_count_bound(g0, ctr0, g1, ctr1 + 1, old_root, g1.height[old_root] + 1, key, value);
                            }
                        }
                        InsertionResult::Inserted
                    },
                    Err(e) => InsertionResult::InsertError(e),
                }
            },
            other => {
                proof {
                    if pre && other is Inserted {
                        lemma_count_bound(g0, ctr0, g1, ctr1, self.root, g1.height[self.root], key, value);
                    }
                }
                other
            },
        }
    }

    /// Searches for `key`: the payload stored with it, or `None`.
    pub fn search(&mut self, key: SearchKey) -> (r: Result<Option<NodeIdent>, NodeStoreError>)
        requires
            old(self).wf(),
        ensures
            final(self).wf(),
            final(self).root_spec() == old(self).root_spec(),
            final(self).store_spec().nodes() == old(self).store_spec().nodes(),
            final(self).store_spec().ctr() == old(self).store_spec().ctr(),
            final(self).store_spec().fanout_spec() == old(self).store_spec().fanout_spec(),
            final(self).store_spec().cache_cap() == old(self).store_spec().cache_cap(),
            final(self).store_spec().shape() == old(self).store_spec().shape(),
            r == old(self).lookup_key(key),
            old(self).well_formed() ==> r == Ok::<Option<NodeIdent>, NodeStoreError>(
                content_get(old(self).store_spec().shape(), key),
            ),
    {
        proof {
            if old(self).well_formed() {
                let g = self.store.shape();
                assert(crate::shape::node_ok(self.store.nodes(), self.store.fanout_spec(), g, self.root));
                lemma_lookup(
                    self.store.nodes(),
                    self.store.fanout_spec(),
                    g,
                    self.store.ctr(),
                    self.root,
                    key,
                    self.store.ctr() as nat,
                );
            }
        }
        Node::search(self.root, key, &mut self.store)
    }

    /// Writes every cached node back and records the parameters, node count
    /// and root in the metadata block, after which the image can be reopened.
    pub fn save(&mut self)
        requires
            old(self).wf(),
        ensures
            final(self).wf(),
            final(self).root_spec() == old(self).root_spec(),
            final(self).store_spec().nodes() == old(self).store_spec().nodes(),
            final(self).store_spec().ctr() == old(self).store_spec().ctr(),
            final(self).store_spec().fanout_spec() == old(self).store_spec().fanout_spec(),
            final(self).store_spec().cache_cap() == old(self).store_spec().cache_cap(),
            final(self).store_spec().shape() == old(self).store_spec().shape(),
            final(self).store_spec().cached() == Map::<NodeIdent, crate::node::NodeView>::empty(),
            crate::file_store::metadata_encoded(
                Metadata {
                    fanout: old(self).store_spec().fanout_spec() as usize,
                    block_size: BLOCK_SIZE,
                    node_ident_size: IDENT_BYTES,
                    search_key_size: KEY_BYTES,
                    node_ctr: old(self).store_spec().ctr() as i32,
                    root_node: old(self).root_spec(),
                },
                crate::file_store::block_of(final(self).store_spec().image_spec(), 0),
            ),
    {
        self.store.flush();
        let node_ctr = self.store.node_ctr();
        let fanout = self.store.fanout();
        let m = Metadata {
            fanout,
            root_node: self.root,
            block_size: BLOCK_SIZE,
            node_ctr,
            node_ident_size: IDENT_BYTES,
            search_key_size: KEY_BYTES,
        };
        self.store.set_metadata(&m);
    }

    /// Opens a saved image with the given fanout and cache capacity.
    pub fn load(image: Vec<u8>, fanout: usize, cache_size: usize) -> (r: Result<Tree, TreeCreationError>)
        ensures
            match r {
                Ok(t) => valid_fanout(fanout as nat) && cache_size >= 1
                    && crate::file_store::load_failure(image@, fanout as nat) is None && t.wf()
                    && t.store_spec().image_spec() == image@ && t.store_spec().ctr()
                    == crate::file_store::ident_word_at(image@, 32) && t.root_spec()
                    == crate::file_store::ident_word_at(image@, 36) && t.store_spec().fanout_spec()
                    == fanout && t.store_spec().cache_cap() == cache_size
                    && t.store_spec().cached() == Map::<NodeIdent, crate::node::NodeView>::empty(),
                Err(e) => if valid_fanout(fanout as nat) && cache_size >= 1 {
                    crate::file_store::load_failure(image@, fanout as nat) == Some(e)
                } else {
                    e == TreeCreationError::ParameterMismatch
                },
            },
    {
        if fanout < 4 || fanout % 2 != 0 || fanout > BLOCK_SIZE / 12 || cache_size < 1 {
            return Err(TreeCreationError::ParameterMismatch);
        }
        match FileStore::load(image, fanout, cache_size) {
            Ok((store, root)) => Ok(Tree { store, root }),
            Err(e) => Err(e),
        }
    }

    /// The file image, complete after [`Tree::save`].
    pub fn image(&self) -> (r: &Vec<u8>)
        ensures
            r@ == self.store_spec().image_spec(),
    {
        self.store.image()
    }

    /// Takes `g` as the ghost bookkeeping of the tree, for instance the
    /// shape of the tree this one was saved from, after which the tree is
    /// well formed and holds `g`'s content.
    pub fn restore_shape(&mut self, g: Ghost<Shape>)
        requires
            old(self).wf(),
            old(self).fits_shape(g@),
        ensures
            final(self).wf(),
            final(self).well_formed(),
            final(self).content() == g@.content,
            final(self).root_spec() == old(self).root_spec(),
            final(self).store_spec().nodes() == old(self).store_spec().nodes(),
            final(self).store_spec().ctr() == old(self).store_spec().ctr(),
            final(self).store_spec().fanout_spec() == old(self).store_spec().fanout_spec(),
            final(self).store_spec().cache_cap() == old(self).store_spec().cache_cap(),
    {
        self.store.set_shape(g);
    }

    /// A copy of the node `ident`, read through the cache.
    pub fn read_node(&mut self, ident: NodeIdent) -> (r: Result<Node, NodeStoreError>)
        requires
            old(self).wf(),
        ensures
            final(self).wf(),
            final(self).root_spec() == old(self).root_spec(),
            final(self).store_spec().nodes() == old(self).store_spec().nodes(),
            final(self).store_spec().ctr() == old(self).store_spec().ctr(),
            final(self).store_spec().fanout_spec() == old(self).store_spec().fanout_spec(),
            final(self).store_spec().cache_cap() == old(self).store_spec().cache_cap(),
            final(self).store_spec().shape() == old(self).store_spec().shape(),
            match r {
                Ok(n) => old(self).store_spec().fetch(ident) == Ok::<crate::node::NodeView, NodeStoreError>(n@),
                Err(e) => old(self).store_spec().fetch(ident) == Err::<crate::node::NodeView, NodeStoreError>(e),
            },
    {
        self.store.get_node(ident)
    }

    /// Renders the tree as a Graphviz digraph: one record per node reached
    /// from the root, breadth first, with an edge from each separator slot of
    /// an inner node to its child. Visits at most as many nodes as blocks
    /// are allocated.
    #[verifier::rlimit(100)]
    pub fn graphviz(&mut self) -> (r: Result<String, NodeStoreError>)
        requires
            old(self).wf(),
        ensures
            final(self).wf(),
            final(self).root_spec() == old(self).root_spec(),
            final(self).store_spec().nodes() == old(self).store_spec().nodes(),
            final(self).store_spec().ctr() == old(self).store_spec().ctr(),
            final(self).store_spec().fanout_spec() == old(self).store_spec().fanout_spec(),
            final(self).store_spec().cache_cap() == old(self).store_spec().cache_cap(),
            final(self).store_spec().shape() == old(self).store_spec().shape(),
            match r {
                Ok(s) => graphviz_text(
                    old(self).store_spec().nodes(),
                    old(self).store_spec().fanout_spec(),
                    old(self).root_spec(),
                    old(self).store_spec().ctr(),
                ) == Ok::<Seq<char>, NodeStoreError>(s@),
                Err(e) => graphviz_text(
                    old(self).store_spec().nodes(),
                    old(self).store_spec().fanout_spec(),
                    old(self).root_spec(),
                    old(self).store_spec().ctr(),
                ) == Err::<Seq<char>, NodeStoreError>(e),
            },
            old(self).well_formed() ==> r is Ok,
    {
        proof {
            self.store.lemma_wf();
        }
        let ghost nodes = self.store.nodes();
        let ghost f = self.store.fanout_spec();
        let ghost g = self.store.shape();
        let ghost wfd = old(self).well_formed();
        let limit = self.store.node_ctr() as usize;
        let mut out = String::from_str("digraph G {\n");
        let mut queue: Vec<NodeIdent> = vec![self.root];
        let mut head: usize = 0;
        let ghost whole = render_walk(nodes, f, seq![self.root], 0, limit as int);
        proof {
            assert(queue@ == seq![self.root]);
            assert(prepend(Seq::empty(), whole) == whole) by {
                if whole is Ok {
                    assert(Seq::<char>::empty() + whole->Ok_0 =~= whole->Ok_0);
                }
            }
        }
        while head < queue.len() && head < limit
            invariant
                nodes == old(self).store.nodes(),
                f == old(self).store.fanout_spec(),
                g == old(self).store.shape(),
                limit == old(self).store.ctr(),
                whole == render_walk(nodes, f, seq![old(self).root], 0, limit as int),
                "digraph G {\n"@.len() <= out@.len(),
                out@.take("digraph G {\n"@.len() as int) == "digraph G {\n"@,
                whole == prepend(out@.skip("digraph G {\n"@.len() as int), render_walk(nodes, f, queue@, head as int, limit as int)),
                wfd ==> crate::shape::tree_inv(nodes, f, g, limit as int) && forall|j: int| 0 <= j < queue@.len() ==> #[trigger] g.ids.contains(queue@[j]),
                wfd == old(self).well_formed(),
                self.store.wf(),
                self.root == old(self).root,
                self.store.nodes() == old(self).store.nodes(),
                self.store.ctr() == old(self).store.ctr(),
                self.store.fanout_spec() == old(self).store.fanout_spec(),
                self.store.cache_cap() == old(self).store.cache_cap(),
                self.store.shape() == old(self).store.shape(),
                crate::file_store::valid_fanout(self.store.fanout_spec()),
            decreases limit - head,
        {
            let id = queue[head];
            proof {
                if wfd {
                    assert(g.ids.contains(queue@[head as int]));
                    assert(crate::shape::node_ok(nodes, f, g, id));
                }
            }
            let node = match self.store.get_node(id) {
                Ok(n) => n,
                Err(e) => {
                    return Err(e);
                },
            };
            if !crate::file_store::check_node(&node, self.store.fanout(), id > 0) {
                return Err(NodeStoreError::ReadFailed);
            }
            proof {
                assert(crate::node::valid_node(node@, self.store.fanout_spec(), id > 0));
            }
            let ghost q0 = queue@;
            let ghost o0 = out@;
            let line = node.to_graphviz(&id);
            out.append(line.as_str());
            out.append("\n");
            if id < 0 {
                let mut i: usize = 0;
                while i <= node.size
                    invariant
                        i <= node.size + 1,
                        node.size < node.children@.len(),
                        node.children@.len() <= 10,
                        queue@ == q0 + node.children@.take(i as int),
                    decreases node.size + 1 - i,
                {
                    queue.push(node.children[i]);
                    i = i + 1;
                    assert(queue@ =~= q0 + node.children@.take(i as int));
                }
                proof {
                    if wfd {
                        assert(crate::shape::edges_ok(nodes, f, g, id));
                        assert forall|j: int| 0 <= j < queue@.len() implies #[trigger] g.ids.contains(queue@[j]) by {
                            if j >= q0.len() {
                                assert(crate::shape::edge_ok(nodes, f, g, id, j - q0.len()));
                                assert(queue@[j] == node.children@[j - q0.len()]);
                            } else {
                                assert(queue@[j] == q0[j]);
                            }
                        }
                    }
                }
            }
            proof {
                let hl = "digraph G {\n"@.len() as int;
                let piece = crate::graphviz::graphviz_of(node@.keys, node@.vals, node@.size as int, id) + "\n"@;
                assert(out@ == o0 + piece);
                assert(out@.take(hl) =~= o0.take(hl));
                assert(out@.skip(hl) =~= o0.skip(hl) + piece);
                let rest = render_walk(nodes, f, queue@, head + 1, limit as int);
                assert(render_walk(nodes, f, q0, head as int, limit as int) == prepend(piece, rest));
                if rest is Ok {
                    assert(o0.skip(hl) + (piece + rest->Ok_0) =~= (o0.skip(hl) + piece) + rest->Ok_0);
                }
            }
            head = head + 1;
        }
        proof {
            assert(render_walk(nodes, f, queue@, head as int, limit as int) == Ok::<Seq<char>, NodeStoreError>(Seq::empty()));
            let hl = "digraph G {\n"@.len() as int;
            assert(out@.skip(hl) + Seq::<char>::empty() =~= out@.skip(hl));
            assert(out@ =~= "digraph G {\n"@ + out@.skip(hl));
        }
        let ghost before = out@;
        out.append("}");
        proof {
            let hl = "digraph G {\n"@.len() as int;
            assert(out@ =~= "digraph G {\n"@ + before.skip(hl) + "}"@);
        }
        Ok(out)
    }

    /// The identifier of the root.
    pub fn root(&self) -> (r: NodeIdent)
        ensures
            r == self.root_spec(),
    {
        self.root
    }
}

} // verus!
