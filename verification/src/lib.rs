//! An ordered key-value container backed by a skip list whose forward edges
//! carry rank spans, giving expected-logarithmic search, insertion, removal
//! and positional access.
//!
//! Nodes live in an arena of stable integer slots; every structural claim
//! (sorted level-0 order, span bookkeeping, per-level chains) is stated over
//! a ghost sequence of slot indices in ascending key order and proved for
//! each operation.

use vstd::prelude::*;

mod checks;
mod insert;
mod iter;
mod laws;
mod lemmas;
mod position;
mod remove;
mod search;
mod traverse;

pub use iter::{SkipListIntoIter, SkipListIter};
pub use laws::{
    chain_span_sum, lemma_ascending_order, lemma_chain_span_sum_from,
    lemma_level_spans_sum_to_len, lemma_update_leaves_others,
};
pub use lemmas::{lemma_key_index_unique, lemma_rank_below_split};

verus! {

use vstd::pervasive::unreached;

/// Pseudo-index standing for the tail sentinel: it terminates every level's
/// chain and owns no storage. Arena indices are always below the arena's
/// length, so no slot can collide with it.
pub const TAIL: usize = usize::MAX;

/// Ceiling on the level a node can be assigned.
pub const MAX_LEVEL: usize = 32;

/// A forward edge: the arena slot of the destination node (or [`TAIL`]) and
/// the number of level-0 steps the edge covers.
#[derive(Clone, Copy, PartialEq, Eq, Structural)]
pub struct Edge {
    pub dst: usize,
    pub span: usize,
}

/// Either the head sentinel or the node stored in an arena slot; the places
/// a traversal can stand, and what search records per level as the point to
/// patch on insertion or removal.
#[derive(Clone, Copy, PartialEq, Eq, Structural)]
pub enum Handle {
    Head,
    At(usize),
}

/// One element of the list: a key, a value, and one forward edge for each
/// level the node takes part in (`level + 1` of them).
pub struct Node<V> {
    pub(crate) key: i64,
    pub(crate) value: V,
    pub(crate) forward: Vec<Edge>,
    pub(crate) level: usize,
}

/// An ordered map from `i64` keys to values of type `V`, with
/// expected-logarithmic search and positional access.
///
/// `nodes` is an arena of slots; a slot is `None` when it is on the free
/// list. `head_forward` holds the head sentinel's edges, one per active
/// level. `order` is the ghost sequence of the occupied slots in ascending
/// key order; the node at `order[i]` has rank `i + 1` (the head sentinel has
/// rank 0 and the tail sentinel rank `len + 1`).
pub struct SkipList<V> {
    pub(crate) nodes: Vec<Option<Node<V>>>,
    pub(crate) head_forward: Vec<Edge>,
    pub(crate) free: Vec<usize>,
    pub(crate) level: usize,
    pub(crate) len: usize,
    pub(crate) order: Ghost<Seq<usize>>,
}

// ---------------------------------------------------------------------------
// The spec-level model.
//
// The predicates below are parameterized by the arena (`ns`), the head
// sentinel's edges (`hf`) and the rank order (`g`) rather than by a
// `SkipList`, so that the middle of a mutation can be described with the new
// order on the levels already patched and the old order on the rest.
// ---------------------------------------------------------------------------

/// The node of rank `r` (`1 <= r <= g.len()`).
pub open(crate) spec fn node_at<V>(ns: Seq<Option<Node<V>>>, g: Seq<usize>, r: int) -> Node<V> {
    ns[g[r - 1] as int].unwrap()
}

/// The key at rank `r`.
pub open(crate) spec fn key_at<V>(ns: Seq<Option<Node<V>>>, g: Seq<usize>, r: int) -> i64 {
    node_at(ns, g, r).key
}

/// The value at rank `r`.
pub open(crate) spec fn val_at<V>(ns: Seq<Option<Node<V>>>, g: Seq<usize>, r: int) -> V {
    node_at(ns, g, r).value
}

/// The forward edges of the occupant of rank `r`; rank 0 is the head.
pub open(crate) spec fn edges_at<V>(
    ns: Seq<Option<Node<V>>>,
    hf: Seq<Edge>,
    g: Seq<usize>,
    r: int,
) -> Seq<Edge> {
    if r == 0 {
        hf
    } else {
        node_at(ns, g, r).forward@
    }
}

/// Every rank's slot index is in range and occupied, and indices fit below
/// [`TAIL`].
pub open(crate) spec fn arena_ok<V>(ns: Seq<Option<Node<V>>>, g: Seq<usize>) -> bool {
    &&& ns.len() <= usize::MAX
    &&& forall|i: int|
        0 <= i < g.len() ==> (#[trigger] g[i]) < ns.len() && ns[g[i] as int] is Some
}

/// Keys strictly increase with rank.
pub open(crate) spec fn sorted_ok<V>(ns: Seq<Option<Node<V>>>, g: Seq<usize>) -> bool {
    forall|r1: int, r2: int|
        1 <= r1 < r2 <= g.len() ==> #[trigger] key_at(ns, g, r1) < #[trigger] key_at(ns, g, r2)
}

/// Each node carries `level + 1` edges, never more than the head does.
pub open(crate) spec fn node_levels_ok<V>(
    ns: Seq<Option<Node<V>>>,
    hf: Seq<Edge>,
    g: Seq<usize>,
) -> bool {
    forall|r: int|
        1 <= r <= g.len() ==> {
            let n = #[trigger] node_at(ns, g, r);
            n.forward@.len() == n.level + 1 && n.forward@.len() <= hf.len()
        }
}

/// The edge of rank `r` at level `lvl` is sound: its span is the exact rank
/// distance to its destination, the destination is the slot of that rank (or
/// the tail when the distance reaches `g.len() + 1`), the destination itself
/// takes part in `lvl`, and no rank strictly in between does — edges at a
/// level connect consecutive participants of that level.
pub open(crate) spec fn edge_ok<V>(
    ns: Seq<Option<Node<V>>>,
    hf: Seq<Edge>,
    g: Seq<usize>,
    r: int,
    lvl: int,
) -> bool {
    let e = edges_at(ns, hf, g, r)[lvl];
    let r2 = r + e.span;
    &&& e.span >= 1
    &&& r2 <= g.len() + 1
    &&& (r2 == g.len() + 1 ==> e.dst == TAIL)
    &&& (r2 <= g.len() ==> e.dst == g[r2 - 1] && edges_at(ns, hf, g, r2).len() > lvl)
    &&& forall|q: int|
        r < q < r2 && 1 <= q <= g.len() ==> (#[trigger] edges_at(ns, hf, g, q).len()) <= lvl
}

/// Every rank that takes part in level `lvl` has a sound edge there.
pub open(crate) spec fn level_ok<V>(
    ns: Seq<Option<Node<V>>>,
    hf: Seq<Edge>,
    g: Seq<usize>,
    lvl: int,
) -> bool {
    forall|r: int|
        0 <= r <= g.len() && lvl < (#[trigger] edges_at(ns, hf, g, r)).len() ==> edge_ok(
            ns,
            hf,
            g,
            r,
            lvl,
        )
}

/// All levels are sound chains.
pub open(crate) spec fn links_ok<V>(
    ns: Seq<Option<Node<V>>>,
    hf: Seq<Edge>,
    g: Seq<usize>,
) -> bool {
    forall|lvl: int| 0 <= lvl < hf.len() ==> #[trigger] level_ok(ns, hf, g, lvl)
}

/// The whole structural story for one configuration.
pub open(crate) spec fn wf_parts<V>(
    ns: Seq<Option<Node<V>>>,
    hf: Seq<Edge>,
    g: Seq<usize>,
) -> bool {
    &&& arena_ok(ns, g)
    &&& g.no_duplicates()
    &&& sorted_ok(ns, g)
    &&& node_levels_ok(ns, hf, g)
    &&& links_ok(ns, hf, g)
}

/// Free-list entries name in-range, unoccupied slots.
pub open(crate) spec fn free_ok<V>(ns: Seq<Option<Node<V>>>, free: Seq<usize>) -> bool {
    forall|i: int|
        0 <= i < free.len() ==> (#[trigger] free[i]) < ns.len() && ns[free[i] as int] is None
}

impl<V> SkipList<V> {
    /// The container's invariant: the configuration given by the arena, the
    /// head's edges and the ghost rank order is well formed, the caches
    /// (`len`, `level`) agree with it, and the free list is sound.
    pub open(crate) spec fn wf(&self) -> bool {
        &&& wf_parts(self.nodes@, self.head_forward@, self.order@)
        &&& self.len == self.order@.len()
        &&& self.head_forward@.len() == self.level + 1
        &&& self.level <= MAX_LEVEL
        &&& free_ok(self.nodes@, self.free@)
        &&& self.free@.no_duplicates()
        &&& self.nodes@.len() == self.order@.len() + self.free@.len()
    }

    /// What the container holds: its (key, value) pairs in ascending key
    /// order.
    pub open(crate) spec fn entries(&self) -> Seq<(i64, V)> {
        Seq::new(
            self.order@.len(),
            |i: int| (key_at(self.nodes@, self.order@, i + 1), val_at(self.nodes@, self.order@, i + 1)),
        )
    }
}

impl<V> View for SkipList<V> {
    type V = Seq<(i64, V)>;

    open spec fn view(&self) -> Seq<(i64, V)> {
        self.entries()
    }
}

// ---------------------------------------------------------------------------
// Spec helpers over the abstract view.
// ---------------------------------------------------------------------------

/// Whether some entry of `s` carries the key `k`.
pub open spec fn has_key<V>(s: Seq<(i64, V)>, k: i64) -> bool {
    exists|i: int| 0 <= i < s.len() && (#[trigger] s[i]).0 == k
}

/// The position of the entry carrying `k` (meaningful when `has_key`).
pub open spec fn key_index<V>(s: Seq<(i64, V)>, k: i64) -> int {
    choose|i: int| 0 <= i < s.len() && (#[trigger] s[i]).0 == k
}

/// How many entries of `s` carry a key below `k`; in a sorted sequence, the
/// position at which `k` belongs.
pub open spec fn rank_below<V>(s: Seq<(i64, V)>, k: i64) -> int
    decreases s.len(),
{
    if s.len() == 0 {
        0
    } else {
        rank_below(s.drop_last(), k) + if s.last().0 < k {
            1int
        } else {
            0int
        }
    }
}

/// Entries are in strictly ascending key order.
pub open spec fn entries_sorted<V>(s: Seq<(i64, V)>) -> bool {
    forall|i: int, j: int| 0 <= i < j < s.len() ==> (#[trigger] s[i]).0 < (#[trigger] s[j]).0
}

impl<V> Node<V> {
    /// The node's key, as the specifications speak of it.
    pub open(crate) spec fn spec_key(&self) -> i64 {
        self.key
    }

    /// The node's value, as the specifications speak of it.
    pub open(crate) spec fn spec_value(&self) -> V {
        self.value
    }

    /// The node's edges and assigned level, as the specifications speak of
    /// them.
    pub open(crate) spec fn spec_shape(&self) -> (Seq<Edge>, int) {
        (self.forward@, self.level as int)
    }

    /// The node's key.
    pub fn key(&self) -> (k: &i64)
        ensures
            *k == self.spec_key(),
    {
        &self.key
    }

    /// The node's key, exclusively borrowed.
    pub fn key_mut(&mut self) -> (k: &mut i64)
        ensures
            *k == old(self).spec_key(),
            final(self).spec_key() == *final(k),
            final(self).spec_value() == old(self).spec_value(),
            final(self).spec_shape() == old(self).spec_shape(),
    {
        &mut self.key
    }

    /// The node's value.
    pub fn value(&self) -> (v: &V)
        ensures
            *v == self.spec_value(),
    {
        &self.value
    }

    /// The node's value, exclusively borrowed.
    pub fn value_mut(&mut self) -> (v: &mut V)
        ensures
            *v == old(self).spec_value(),
            final(self).spec_value() == *final(v),
            final(self).spec_key() == old(self).spec_key(),
            final(self).spec_shape() == old(self).spec_shape(),
    {
        &mut self.value
    }
}

// ---------------------------------------------------------------------------
// Handles: where a traversal can stand, and raw access through one.
// ---------------------------------------------------------------------------

/// A handle names the head or an occupied arena slot.
pub open(crate) spec fn handle_ok<V>(ns: Seq<Option<Node<V>>>, h: Handle) -> bool {
    match h {
        Handle::Head => true,
        Handle::At(a) => a < ns.len() && ns[a as int] is Some,
    }
}

/// The forward edges of the occupant a handle names.
pub open(crate) spec fn handle_edges<V>(
    ns: Seq<Option<Node<V>>>,
    hf: Seq<Edge>,
    h: Handle,
) -> Seq<Edge> {
    match h {
        Handle::Head => hf,
        Handle::At(a) => ns[a as int].unwrap().forward@,
    }
}

/// The handle stands at rank `r` of the order `g`.
pub open(crate) spec fn handle_at_rank(g: Seq<usize>, h: Handle, r: int) -> bool {
    match h {
        Handle::Head => r == 0,
        Handle::At(a) => 1 <= r <= g.len() && g[r - 1] == a,
    }
}

impl<V> SkipList<V> {
    /// Shorthand: the ghost rank order.
    pub open(crate) spec fn g(&self) -> Seq<usize> {
        self.order@
    }

    /// The number of active levels: the head sentinel's edge count.
    pub open(crate) spec fn spec_levels(&self) -> int {
        self.head_forward@.len() as int
    }

    /// Shorthand: the edges of the occupant of rank `r` in `self`.
    pub open(crate) spec fn rank_edges(&self, r: int) -> Seq<Edge> {
        edges_at(self.nodes@, self.head_forward@, self.order@, r)
    }

    /// Shorthand: the key at rank `r` in `self`.
    pub open(crate) spec fn rank_key(&self, r: int) -> i64 {
        key_at(self.nodes@, self.order@, r)
    }

    /// Shorthand: the value at rank `r` in `self`.
    pub open(crate) spec fn rank_val(&self, r: int) -> V {
        val_at(self.nodes@, self.order@, r)
    }

    /// Read the edge of the occupant of `h` at level `lvl`.
    pub(crate) fn get_edge(&self, h: Handle, lvl: usize) -> (e: Edge)
        requires
            handle_ok(self.nodes@, h),
            lvl < handle_edges(self.nodes@, self.head_forward@, h).len(),
        ensures
            e == handle_edges(self.nodes@, self.head_forward@, h)[lvl as int],
    {
        match h {
            Handle::Head => self.head_forward[lvl],
            Handle::At(a) => {
                match &self.nodes[a] {
                    Some(n) => n.forward[lvl],
                    None => unreached(),
                }
            },
        }
    }

    /// Replace the edge of the occupant of `h` at level `lvl`; nothing else
    /// of the container changes.
    pub(crate) fn set_edge(&mut self, h: Handle, lvl: usize, e: Edge)
        requires
            handle_ok(old(self).nodes@, h),
            lvl < handle_edges(old(self).nodes@, old(self).head_forward@, h).len(),
        ensures
            final(self).nodes@.len() == old(self).nodes@.len(),
            final(self).free == old(self).free,
            final(self).len == old(self).len,
            final(self).level == old(self).level,
            final(self).order == old(self).order,
            handle_edges(final(self).nodes@, final(self).head_forward@, h)
                == handle_edges(old(self).nodes@, old(self).head_forward@, h).update(lvl as int, e),
            match h {
                Handle::Head => {
                    &&& final(self).nodes@ == old(self).nodes@
                    &&& final(self).head_forward@ == old(self).head_forward@.update(lvl as int, e)
                },
                Handle::At(a) => {
                    &&& final(self).head_forward@ == old(self).head_forward@
                    &&& forall|j: int|
                        0 <= j < old(self).nodes@.len() && j != a ==> final(self).nodes@[j]
                            == old(self).nodes@[j]
                    &&& final(self).nodes@[a as int] is Some
                    &&& {
                        let n0 = old(self).nodes@[a as int].unwrap();
                        let n1 = final(self).nodes@[a as int].unwrap();
                        &&& n1.key == n0.key
                        &&& n1.value == n0.value
                        &&& n1.level == n0.level
                        &&& n1.forward@ == n0.forward@.update(lvl as int, e)
                    }
                },
            },
    {
        match h {
            Handle::Head => {
                self.head_forward[lvl] = e;
            },
            Handle::At(a) => {
                let slot = &mut self.nodes[a];
                match slot {
                    Some(n) => {
                        n.forward[lvl] = e;
                    },
                    None => {},
                }
            },
        }
    }

    /// Read the key of the node in slot `a`.
    pub(crate) fn key_of(&self, a: usize) -> (k: i64)
        requires
            handle_ok(self.nodes@, Handle::At(a)),
        ensures
            k == self.nodes@[a as int].unwrap().key,
    {
        match &self.nodes[a] {
            Some(n) => n.key,
            None => unreached(),
        }
    }

    /// Read the assigned level of the node in slot `a`.
    pub(crate) fn level_of(&self, a: usize) -> (l: usize)
        requires
            handle_ok(self.nodes@, Handle::At(a)),
        ensures
            l == self.nodes@[a as int].unwrap().level,
    {
        match &self.nodes[a] {
            Some(n) => n.level,
            None => unreached(),
        }
    }
}

// ---------------------------------------------------------------------------
// Structural consequences of the invariant.
// ---------------------------------------------------------------------------

/// Every node takes part in level 0, so a level-0 edge always covers exactly
/// one step: its destination is the next rank.
pub(crate) proof fn lemma_level0_step<V>(ns: Seq<Option<Node<V>>>, hf: Seq<Edge>, g: Seq<usize>, r: int)
    requires
        wf_parts(ns, hf, g),
        hf.len() >= 1,
        0 <= r <= g.len(),
        edges_at(ns, hf, g, r).len() >= 1,
    ensures
        edge_ok(ns, hf, g, r, 0),
        edges_at(ns, hf, g, r)[0].span == 1,
        r < g.len() ==> edges_at(ns, hf, g, r)[0].dst == g[r as int],
        r == g.len() ==> edges_at(ns, hf, g, r)[0].dst == TAIL,
{
    assert(level_ok(ns, hf, g, 0));
    assert(edge_ok(ns, hf, g, r, 0));
    let e = edges_at(ns, hf, g, r)[0];
    if e.span >= 2 {
        assert(node_at(ns, g, r + 1).forward@.len() >= 1);
        assert(edges_at(ns, hf, g, r + 1).len() <= 0);
    }
}

impl<V> SkipList<V> {
    /// An empty container: the head's single level-0 edge covers the one
    /// step to the tail.
    pub fn new() -> (r: Self)
        ensures
            r.wf(),
            r@ == Seq::<(i64, V)>::empty(),
            r@.len() == 0,
    {
        let r = SkipList {
            nodes: Vec::new(),
            head_forward: vec![Edge { dst: TAIL, span: 1 }],
            free: Vec::new(),
            level: 0,
            len: 0,
            order: Ghost(Seq::empty()),
        };
        proof {
            assert(r.entries() =~= Seq::<(i64, V)>::empty());
        }
        r
    }

    /// How many keys the container holds.
    pub fn len(&self) -> (r: usize)
        requires
            self.wf(),
        ensures
            r == self@.len(),
    {
        self.len
    }

    /// Whether the container holds no keys.
    pub fn is_empty(&self) -> (r: bool)
        requires
            self.wf(),
        ensures
            r == (self@.len() == 0),
    {
        self.len == 0
    }
}

} // verus!
