//! A fixed-capacity node cache with second-chance (clock) eviction.
use crate::node::{Node, NodeIdent, NodeView};
use vstd::prelude::*;

verus! {

/// Capacity of a cache made by [`Cache::new`].
pub const CACHE_SIZE: usize = 4;

/// The most chances an entry can hold.
pub const CHANCE_MAX: u8 = 8;

/// A cached node with its remaining chances.
pub struct CacheItem {
    pub ident: NodeIdent,
    pub node: Node,
    pub chances: u8,
}

/// A cache of up to `capacity` nodes keyed by their identifiers. Entries are
/// kept in insertion order, which is the order the eviction sweep visits.
pub struct Cache {
    nodes: Vec<CacheItem>,
    capacity: usize,
}

/// The sum of the chances of `items`.
spec fn total_chances(items: Seq<CacheItem>) -> int
    decreases items.len(),
{
    if items.len() == 0 {
        0
    } else {
        total_chances(items.drop_last()) + items.last().chances as int
    }
}

proof fn lemma_total_chances_nonneg(items: Seq<CacheItem>)
    ensures
        total_chances(items) >= 0,
    decreases items.len(),
{
    if items.len() > 0 {
        lemma_total_chances_nonneg(items.drop_last());
    }
}

proof fn lemma_total_chances_update(items: Seq<CacheItem>, i: int, item: CacheItem)
    requires
        0 <= i < items.len(),
    ensures
        total_chances(items.update(i, item)) == total_chances(items) - items[i].chances
            + item.chances,
    decreases items.len(),
{
    let u = items.update(i, item);
    if i == items.len() - 1 {
        assert(u.drop_last() =~= items.drop_last());
    } else {
        lemma_total_chances_update(items.drop_last(), i, item);
        assert(u.drop_last() =~= items.drop_last().update(i, item));
    }
}

/// One step of the clock sweep over the chances `cs` from position `i`: an
/// entry with no chance left is the victim; otherwise it loses one chance and
/// the sweep moves to the next position, wrapping to the first. Returns the
/// chances when the victim is found, and its position. `fuel` bounds the
/// steps; `sweep_fuel` of the length is always enough.
pub open spec fn sweep(cs: Seq<u8>, i: int, fuel: nat) -> (Seq<u8>, int)
    decreases fuel,
{
    if fuel == 0 || cs[i] == 0 {
        (cs, i)
    } else {
        sweep(
            cs.update(i, (cs[i] - 1) as u8),
            if i + 1 == cs.len() {
                0
            } else {
                i + 1
            },
            (fuel - 1) as nat,
        )
    }
}

/// Steps enough for a sweep over `n` entries to find its victim.
pub open spec fn sweep_fuel(n: nat) -> nat {
    n * (CHANCE_MAX as nat + 1)
}

/// The entries `(ident, chances)` in sweep order, with the chances `cs`.
pub open spec fn with_chances(entries: Seq<(NodeIdent, u8)>, cs: Seq<u8>) -> Seq<(NodeIdent, u8)> {
    Seq::new(entries.len(), |j: int| (entries[j].0, cs[j]))
}

/// The chances of entries in sweep order.
pub open spec fn chances_of(entries: Seq<(NodeIdent, u8)>) -> Seq<u8> {
    Seq::new(entries.len(), |j: int| entries[j].1)
}

proof fn lemma_total_chances_ge(items: Seq<CacheItem>, i: int)
    requires
        0 <= i < items.len(),
    ensures
        total_chances(items) >= items[i].chances,
    decreases items.len(),
{
    lemma_total_chances_nonneg(items.drop_last());
    if i < items.len() - 1 {
        lemma_total_chances_ge(items.drop_last(), i);
    }
}

proof fn lemma_total_chances_bound(items: Seq<CacheItem>)
    requires
        forall|i: int| 0 <= i < items.len() ==> items[i].chances <= CHANCE_MAX,
    ensures
        total_chances(items) <= items.len() * CHANCE_MAX,
    decreases items.len(),
{
    if items.len() > 0 {
        lemma_total_chances_bound(items.drop_last());
    }
}

impl Cache {
    /// The position of `ident` among the entries.
    pub closed spec fn slot(&self, ident: NodeIdent) -> int {
        choose|i: int| 0 <= i < self.nodes@.len() && self.nodes@[i].ident == ident
    }

    /// The entries in sweep order: identifier and remaining chances.
    pub closed spec fn entries(&self) -> Seq<(NodeIdent, u8)> {
        Seq::new(self.nodes@.len(), |j: int| (self.nodes@[j].ident, self.nodes@[j].chances))
    }

    /// Whether `ident` is cached.
    pub closed spec fn has(&self, ident: NodeIdent) -> bool {
        exists|i: int| 0 <= i < self.nodes@.len() && self.nodes@[i].ident == ident
    }

    /// The cached nodes by identifier.
    pub closed spec fn contents(&self) -> Map<NodeIdent, NodeView> {
        Map::new(|id: NodeIdent| self.has(id), |id: NodeIdent| self.nodes@[self.slot(id)].node@)
    }

    /// The number of cached entries.
    pub closed spec fn count(&self) -> nat {
        self.nodes@.len()
    }

    /// The most entries the cache holds.
    pub closed spec fn cap(&self) -> nat {
        self.capacity as nat
    }

    /// Entries have distinct identifiers, their chances stay within bounds,
    /// and there are no more of them than the capacity.
    pub closed spec fn wf(&self) -> bool {
        &&& self.capacity >= 1
        &&& self.nodes@.len() <= self.capacity
        &&& forall|i: int, j: int|
            0 <= i < j < self.nodes@.len() ==> self.nodes@[i].ident != self.nodes@[j].ident
        &&& forall|i: int| 0 <= i < self.nodes@.len() ==> self.nodes@[i].chances <= CHANCE_MAX
    }

    proof fn lemma_slot(&self, i: int)
        requires
            self.wf(),
            0 <= i < self.nodes@.len(),
        ensures
            self.has(self.nodes@[i].ident),
            self.slot(self.nodes@[i].ident) == i,
            self.contents()[self.nodes@[i].ident] == self.nodes@[i].node@,
    {
    }

    proof fn lemma_same_entries(a: &Cache, b: &Cache)
        requires
            a.wf(),
            b.wf(),
            a.nodes@.len() == b.nodes@.len(),
            forall|j: int|
                0 <= j < a.nodes@.len() ==> a.nodes@[j].ident == b.nodes@[j].ident
                    && a.nodes@[j].node == b.nodes@[j].node,
        ensures
            a.contents() == b.contents(),
    {
        assert forall|id: NodeIdent| #[trigger] a.has(id) == b.has(id) by {
            if a.has(id) {
                let k = a.slot(id);
                assert(b.nodes@[k].ident == id);
            }
            if b.has(id) {
                let k = b.slot(id);
                assert(a.nodes@[k].ident == id);
            }
        }
        assert forall|id: NodeIdent| #[trigger] a.has(id) implies a.contents()[id]
            == b.contents()[id] by {
            let k = a.slot(id);
            b.lemma_slot(k);
        }
        assert(a.contents() =~= b.contents());
    }

    fn find(&self, ident: NodeIdent) -> (r: Option<usize>)
        requires
            self.wf(),
        ensures
            match r {
                Some(i) => i < self.nodes@.len() && self.nodes@[i as int].ident == ident,
                None => !self.has(ident),
            },
    {
        let mut i: usize = 0;
        while i < self.nodes.len()
            invariant
                i <= self.nodes@.len(),
                forall|j: int| 0 <= j < i ==> self.nodes@[j].ident != ident,
            decreases self.nodes@.len() - i,
        {
            if self.nodes[i].ident == ident {
                return Some(i);
            }
            i = i + 1;
        }
        None
    }

    /// Whether `node` is cached.
    pub fn has_node(&mut self, node: NodeIdent) -> (r: bool)
        requires
            old(self).wf(),
        ensures
            r == old(self).contents().contains_key(node),
            *final(self) == *old(self),
    {
        self.find(node).is_some()
    }

    /// Gets a copy of a cached node and gives its entry one more chance, up
    /// to the maximum.
    pub fn get_node(&mut self, node: NodeIdent) -> (r: Option<Node>)
        requires
            old(self).wf(),
        ensures
            final(self).wf(),
            final(self).contents() == old(self).contents(),
            final(self).count() == old(self).count(),
            final(self).cap() == old(self).cap(),
            match r {
                Some(n) => old(self).contents().contains_key(node) && n@ == old(
                    self,
                ).contents()[node] && exists|i: int|
                    0 <= i < old(self).entries().len() && old(self).entries()[i].0 == node
                        && final(self).entries() == old(self).entries().update(
                        i,
                        (node, if old(self).entries()[i].1 < CHANCE_MAX {
                            (old(self).entries()[i].1 + 1) as u8
                        } else {
                            CHANCE_MAX
                        }),
                    ),
                None => !old(self).contents().contains_key(node) && *final(self) == *old(self),
            },
    {
        match self.find(node) {
            None => None,
            Some(i) => {
                proof {
                    self.lemma_slot(i as int);
                }
                let ghost before = self.contents();
                let chances = self.nodes[i].chances;
                let bumped = if chances < CHANCE_MAX {
                    chances + 1
                } else {
                    chances
                };
                let n = self.nodes[i].node.copy();
                let ident = self.nodes[i].ident;
                let old_item = self.nodes.remove(i);
                self.nodes.insert(i, CacheItem { ident, node: old_item.node, chances: bumped });
                proof {
                    assert(self.entries() =~= old(self).entries().update(i as int, (node, bumped)));
                    assert(old(self).entries()[i as int].0 == node);
                    assert(0 <= i < old(self).entries().len());
                    assert forall|id: NodeIdent| #[trigger] self.has(id) == before.contains_key(
                        id,
                    ) by {
                        if before.contains_key(id) {
                            let k = old(self).slot(id);
                            assert(self.nodes@[k].ident == id);
                        }
                        if self.has(id) {
                            let k = self.slot(id);
                            assert(old(self).nodes@[k].ident == id);
                        }
                    }
                    assert forall|id: NodeIdent| #[trigger] self.has(id) implies self.contents()[id]
                        == before[id] by {
                        let k = self.slot(id);
                        old(self).lemma_slot(k);
                    }
                    assert(self.contents() =~= before);
                }
                Some(n)
            },
        }
    }

    /// Caches `node` under `ident` with one chance. When the cache is full, an
    /// entry is evicted first and returned: the sweep visits the entries in
    /// order, takes a chance from each that has one, and evicts the first
    /// that has none left. An `ident` already cached needs no room: its entry
    /// takes the new node and starts again with one chance, and nothing is
    /// evicted.
    pub fn cache_node(&mut self, ident: NodeIdent, node: Node) -> (r: Option<(NodeIdent, Node)>)
        requires
            old(self).wf(),
        ensures
            final(self).wf(),
            final(self).cap() == old(self).cap(),
            old(self).contents().contains_key(ident) ==> r is None && final(self).count() == old(
                self,
            ).count() && final(self).contents() == old(self).contents().insert(ident, node@)
                && exists|i: int|
                0 <= i < old(self).entries().len() && old(self).entries()[i].0 == ident
                    && final(self).entries() == old(self).entries().update(i, (ident, 1u8)),
            !old(self).contents().contains_key(ident) ==> match r {
                None => old(self).count() < old(self).cap() && final(self).count() == old(
                    self,
                ).count() + 1 && final(self).contents() == old(self).contents().insert(
                    ident,
                    node@,
                ),
                Some((v, n)) => old(self).count() == old(self).cap() && final(self).count() == old(
                    self,
                ).count() && old(self).contents().contains_key(v) && n@ == old(self).contents()[v]
                    && final(self).contents() == old(self).contents().remove(v).insert(
                    ident,
                    node@,
                ) && ({
                    let sw = sweep(
                        chances_of(old(self).entries()),
                        0,
                        sweep_fuel(old(self).entries().len()),
                    );
                    &&& 0 <= sw.1 < old(self).entries().len()
                    &&& sw.0[sw.1] == 0
                    &&& v == old(self).entries()[sw.1].0
                    &&& final(self).entries() == with_chances(old(self).entries(), sw.0).remove(
                        sw.1,
                    ).push((ident, 1u8))
                }),
            },
            !old(self).contents().contains_key(ident) && r is None ==> final(self).entries() == old(
                self,
            ).entries().push((ident, 1u8)),
    {
        let ghost c0 = self.contents();
        match self.find(ident) {
            Some(i) => {
                let ghost before = self.nodes@;
                let old_item = self.nodes.remove(i);
                self.nodes.insert(i, CacheItem { ident, node, chances: 1 });
                proof {
                    self.lemma_slot(i as int);
                    old(self).lemma_slot(i as int);
                    assert forall|id: NodeIdent| #[trigger] self.has(id) == c0.contains_key(id) by {
                        if c0.contains_key(id) {
                            let k = old(self).slot(id);
                            assert(self.nodes@[k].ident == id);
                        }
                        if self.has(id) {
                            let k = self.slot(id);
                            assert(before[k].ident == id);
                        }
                    }
                    assert forall|id: NodeIdent| #[trigger] self.has(id) && id != ident implies self.contents()[id]
                        == c0[id] by {
                        let k = self.slot(id);
                        old(self).lemma_slot(k);
                    }
                    assert(self.contents() =~= c0.insert(ident, node@));
                    assert(self.entries() =~= old(self).entries().update(i as int, (ident, 1u8)));
                }
                return None;
            },
            None => {},
        }
        let mut ret: Option<(NodeIdent, Node)> = None;
        if self.nodes.len() == self.capacity {
            let len = self.nodes.len();
            let mut i: usize = 0;
            let ghost fuel0 = sweep_fuel(len as nat);
            let ghost whole = sweep(chances_of(old(self).entries()), 0, fuel0);
            let ghost total0 = total_chances(self.nodes@);
            let ghost mut steps: int = 0;
            proof {
                lemma_total_chances_nonneg(self.nodes@);
                lemma_total_chances_bound(self.nodes@);
                assert(chances_of(self.entries()) =~= chances_of(old(self).entries()));
            }
            loop
                invariant
                    self.wf(),
                    fuel0 == sweep_fuel(len as nat),
                    whole == sweep(chances_of(old(self).entries()), 0, fuel0),
                    0 <= steps,
                    steps + total_chances(self.nodes@) == total0,
                    total0 <= len * CHANCE_MAX,
                    whole == sweep(chances_of(self.entries()), i as int, (fuel0 - steps) as nat),
                    len == self.nodes@.len(),
                    len == old(self).nodes@.len(),
                    len >= 1,
                    i < len,
                    self.capacity == old(self).capacity,
                    self.contents() == c0,
                    old(self).wf(),
                    c0 == old(self).contents(),
                    !c0.contains_key(ident),
                    forall|j: int|
                        0 <= j < len ==> self.nodes@[j].ident == old(self).nodes@[j].ident
                            && self.nodes@[j].node == old(self).nodes@[j].node,
                    total_chances(self.nodes@) >= 0,
                ensures
                    i < len,
                    self.nodes@.len() == len,
                    self.nodes@[i as int].chances == 0,
                    whole == sweep(chances_of(self.entries()), i as int, (fuel0 - steps) as nat),
                    fuel0 - steps > 0,
                decreases total_chances(self.nodes@),
            {
                let chances = self.nodes[i].chances;
                if chances == 0 {
                    proof {
                        lemma_total_chances_bound(self.nodes@);
                        lemma_total_chances_nonneg(self.nodes@);
                        assert(fuel0 - steps > 0) by (nonlinear_arith)
                            requires
                                fuel0 == len * (CHANCE_MAX as nat + 1),
                                steps + total_chances(self.nodes@) == total0,
                                total0 <= len * CHANCE_MAX,
                                total_chances(self.nodes@) >= 0,
                                len >= 1,
                        ;
                    }
                    break ;
                }
                let ghost before = self.nodes@;
                let ghost before_entries = self.entries();
                proof {
                    lemma_total_chances_ge(self.nodes@, i as int);
                    assert(fuel0 - steps > 0) by (nonlinear_arith)
                        requires
                            fuel0 == len * (CHANCE_MAX as nat + 1),
                            steps + total_chances(self.nodes@) == total0,
                            total0 <= len * CHANCE_MAX,
                            total_chances(self.nodes@) >= chances,
                            chances > 0,
                            len >= 1,
                    ;
                }
                let item = self.nodes.remove(i);
                self.nodes.insert(
                    i,
                    CacheItem { ident: item.ident, node: item.node, chances: chances - 1 },
                );
                proof {
                    assert(self.nodes@ =~= before.update(
                        i as int,
                        CacheItem { ident: item.ident, node: item.node, chances: (chances - 1) as u8 },
                    ));
                    lemma_total_chances_update(
                        before,
                        i as int,
                        CacheItem { ident: item.ident, node: item.node, chances: (chances - 1) as u8 },
                    );
                    lemma_total_chances_nonneg(self.nodes@);
                    Cache::lemma_same_entries(self, old(self));
                    assert(chances_of(self.entries()) =~= chances_of(before_entries).update(
                        i as int,
                        (chances - 1) as u8,
                    ));
                    steps = steps + 1;
                }
                i = if i + 1 == len {
                    0
                } else {
                    i + 1
                };
            }
            proof {
                self.lemma_slot(i as int);
            }
            let ghost before = self.nodes@;
            let ghost swept = self.entries();
            proof {
                assert(chances_of(self.entries())[i as int] == 0);
                assert(whole == (chances_of(self.entries()), i as int));
                assert(swept =~= with_chances(old(self).entries(), whole.0));
                assert(old(self).entries()[i as int].0 == self.nodes@[i as int].ident);
            }
            let victim = self.nodes.remove(i);
            proof {
                assert(self.entries() =~= swept.remove(i as int));
            }
            proof {
                assert(self.contents() =~= c0.remove(victim.ident)) by {
                    assert forall|id: NodeIdent| #[trigger]
                        self.has(id) == c0.remove(victim.ident).contains_key(id) by {
                        if self.has(id) {
                            let k = self.slot(id);
                            if k < i {
                                assert(before[k].ident == id);
                            } else {
                                assert(before[k + 1].ident == id);
                            }
                        }
                        if c0.remove(victim.ident).contains_key(id) {
                            let k = choose|k: int| 0 <= k < before.len() && before[k].ident == id;
                            if k < i {
                                assert(self.nodes@[k].ident == id);
                            } else {
                                assert(self.nodes@[k - 1].ident == id);
                            }
                        }
                    }
                    assert forall|id: NodeIdent| #[trigger] self.has(id) implies self.contents()[id]
                        == c0[id] by {
                        let k = self.slot(id);
                        if k < i {
                            assert(before[k].ident == id);
                            assert(c0[id] == before[k].node@) by {
                                let k2 = choose|k2: int| 0 <= k2 < before.len() && before[k2].ident == id;
                                assert(k2 == k);
                            }
                        } else {
                            assert(before[k + 1].ident == id);
                            assert(c0[id] == before[k + 1].node@) by {
                                let k2 = choose|k2: int| 0 <= k2 < before.len() && before[k2].ident == id;
                                assert(k2 == k + 1);
                            }
                        }
                    }
                }
            }
            ret = Some((victim.ident, victim.node));
        }
        let ghost before = self.nodes@;
        let ghost e1 = self.entries();
        let ghost c1 = self.contents();
        self.nodes.push(CacheItem { ident, node, chances: 1 });
        proof {
            assert(self.entries() =~= e1.push((ident, 1u8)));
            assert(self.nodes@ == before.push(CacheItem { ident, node, chances: 1 }));
            let cn = self.nodes@.len() - 1;
            assert forall|i: int, j: int|
                0 <= i < j < self.nodes@.len() implies self.nodes@[i].ident != self.nodes@[j].ident by {
                if j == cn && self.nodes@[i].ident == ident {
                    assert(before[i].ident == ident);
                    assert(c1.contains_key(ident));
                }
            }
            self.lemma_slot(cn);
            assert forall|id: NodeIdent| #[trigger]
                self.has(id) == c1.insert(ident, node@).contains_key(id) by {
                if self.has(id) && id != ident {
                    let k = self.slot(id);
                    assert(before[k].ident == id);
                }
                if c1.contains_key(id) {
                    let k = choose|k: int| 0 <= k < before.len() && before[k].ident == id;
                    assert(self.nodes@[k].ident == id);
                }
            }
            assert forall|id: NodeIdent| #[trigger] self.has(id) && id != ident implies self.contents()[id]
                == c1[id] by {
                let k = self.slot(id);
                assert(before[k].ident == id);
                let k2 = choose|k2: int| 0 <= k2 < before.len() && before[k2].ident == id;
                assert(self.nodes@[k2].ident == id);
            }
            assert(self.contents() =~= c1.insert(ident, node@));
        }
        ret
    }

    /// Replaces the node cached under `ident`.
    pub fn put_node(&mut self, ident: NodeIdent, node: Node)
        requires
            old(self).wf(),
            old(self).contents().contains_key(ident),
        ensures
            final(self).wf(),
            final(self).count() == old(self).count(),
            final(self).cap() == old(self).cap(),
            final(self).contents() == old(self).contents().insert(ident, node@),
    {
        let ghost c0 = self.contents();
        match self.find(ident) {
            None => {},
            Some(i) => {
                let ghost before = self.nodes@;
                let old_item = self.nodes.remove(i);
                self.nodes.insert(i, CacheItem { ident, node, chances: old_item.chances });
                proof {
                    self.lemma_slot(i as int);
                    assert forall|id: NodeIdent| #[trigger] self.has(id) == c0.contains_key(id) by {
                        if c0.contains_key(id) {
                            let k = old(self).slot(id);
                            assert(self.nodes@[k].ident == id);
                        }
                        if self.has(id) {
                            let k = self.slot(id);
                            assert(before[k].ident == id);
                        }
                    }
                    assert forall|id: NodeIdent| #[trigger] self.has(id) && id != ident implies self.contents()[id]
                        == c0[id] by {
                        let k = self.slot(id);
                        old(self).lemma_slot(k);
                    }
                    assert(self.contents() =~= c0.insert(ident, node@));
                }
            },
        }
    }

    /// Empties the cache and returns every entry it held.
    pub fn drain(&mut self) -> (r: Vec<CacheItem>)
        requires
            old(self).wf(),
        ensures
            final(self).wf(),
            final(self).count() == 0,
            final(self).contents() == Map::<NodeIdent, NodeView>::empty(),
            final(self).cap() == old(self).cap(),
            forall|i: int, j: int| 0 <= i < j < r@.len() ==> r@[i].ident != r@[j].ident,
            forall|i: int|
                0 <= i < r@.len() ==> old(self).contents().contains_key(#[trigger] r@[i].ident)
                    && old(self).contents()[r@[i].ident] == r@[i].node@,
            forall|id: NodeIdent|
                old(self).contents().contains_key(id) ==> exists|i: int|
                    0 <= i < r@.len() && #[trigger] r@[i].ident == id,
    {
        let mut r: Vec<CacheItem> = Vec::new();
        core::mem::swap(&mut r, &mut self.nodes);
        proof {
            assert forall|i: int| 0 <= i < r@.len() implies old(self).contents().contains_key(
                #[trigger] r@[i].ident,
            ) && old(self).contents()[r@[i].ident] == r@[i].node@ by {
                old(self).lemma_slot(i);
            }
            assert(self.contents() =~= Map::<NodeIdent, NodeView>::empty());
        }
        r
    }

    /// The number of cached entries.
    pub fn len(&self) -> (r: usize)
        ensures
            r == self.count(),
    {
        self.nodes.len()
    }

    /// An empty cache of capacity [`CACHE_SIZE`].
    pub fn new() -> (r: Cache)
        ensures
            r.wf(),
            r.count() == 0,
            r.cap() == CACHE_SIZE,
            r.contents() == Map::<NodeIdent, NodeView>::empty(),
    {
        Cache::with_capacity(CACHE_SIZE)
    }

    /// An empty cache that holds up to `capacity` nodes.
    pub fn with_capacity(capacity: usize) -> (r: Cache)
        requires
            capacity >= 1,
        ensures
            r.wf(),
            r.count() == 0,
            r.cap() == capacity,
            r.contents() == Map::<NodeIdent, NodeView>::empty(),
    {
        let r = Cache { nodes: Vec::new(), capacity };
        assert(r.contents() =~= Map::<NodeIdent, NodeView>::empty());
        r
    }
}

} // verus!
