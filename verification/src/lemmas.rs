//! Consequences of the invariant that the operations' proofs lean on:
//! the view is sorted, a key occupies at most one position, the rank
//! reached by the descent counts exactly the keys below the target, and a
//! write that touches only one node's value leaves the structure sound.

use vstd::prelude::*;

use crate::{
    arena_ok, edge_ok, edges_at, entries_sorted, free_ok, has_key, key_at, key_index, level_ok,
    links_ok, node_at, node_levels_ok, rank_below, sorted_ok, val_at, wf_parts, Edge, Handle, Node,
    SkipList, TAIL,
};

verus! {

/// The two arenas hold the same slots with the same keys, values, levels
/// and edge counts; only the edges themselves may differ.
pub open(crate) spec fn same_shape<V>(
    ns1: Seq<Option<Node<V>>>,
    ns2: Seq<Option<Node<V>>>,
) -> bool {
    &&& ns1.len() == ns2.len()
    &&& forall|j: int| 0 <= j < ns2.len() ==> ((#[trigger] ns1[j]) is Some <==> ns2[j] is Some)
    &&& forall|j: int|
        0 <= j < ns2.len() && ns2[j] is Some ==> {
            let n1 = (#[trigger] ns1[j]).unwrap();
            let n2 = ns2[j].unwrap();
            &&& n1.key == n2.key
            &&& n1.value == n2.value
            &&& n1.level == n2.level
            &&& n1.forward@.len() == n2.forward@.len()
        }
}

/// Below level `i` nothing has been rewired yet: every slot's edges and the
/// head's agree between the two states.
pub open(crate) spec fn low_edges_eq<V>(
    ns1: Seq<Option<Node<V>>>,
    hf1: Seq<Edge>,
    ns2: Seq<Option<Node<V>>>,
    hf2: Seq<Edge>,
    i: int,
) -> bool {
    &&& hf1.len() == hf2.len()
    &&& forall|lvl: int| 0 <= lvl < i && lvl < hf2.len() ==> hf1[lvl] == hf2[lvl]
    &&& forall|j: int, lvl: int|
        0 <= j < ns2.len() && ns2[j] is Some && 0 <= lvl < i && lvl < ns2[j].unwrap().forward@.len()
            ==> (#[trigger] ns1[j].unwrap().forward@[lvl]) == ns2[j].unwrap().forward@[lvl]
}

impl<V> SkipList<V> {
    /// The view lists the keys in strictly ascending order.
    pub(crate) proof fn lemma_entries_sorted(&self)
        requires
            self.wf(),
        ensures
            entries_sorted(self@),
            self@.len() == self.g().len(),
            forall|i: int|
                0 <= i < self@.len() ==> (#[trigger] self@[i]) == (
                    self.rank_key(i + 1),
                    self.rank_val(i + 1),
                ),
    {
    }
}

/// In a sorted sequence a key occupies at most one position, so whatever
/// position witnesses `has_key` is the one `key_index` picks.
pub proof fn lemma_key_index_unique<V>(s: Seq<(i64, V)>, k: i64)
    requires
        entries_sorted(s),
        has_key(s, k),
    ensures
        0 <= key_index(s, k) < s.len(),
        s[key_index(s, k)].0 == k,
        forall|i: int| 0 <= i < s.len() && (#[trigger] s[i]).0 == k ==> i == key_index(s, k),
{
    let ki = key_index(s, k);
    assert(0 <= ki < s.len() && s[ki].0 == k);
    assert forall|i: int| 0 <= i < s.len() && (#[trigger] s[i]).0 == k implies i == ki by {
        if i < ki {
            assert(s[i].0 < s[ki].0);
        } else if i > ki {
            assert(s[ki].0 < s[i].0);
        }
    };
}

/// When the first `m` entries sit below `k` and the rest at or above it,
/// `rank_below` is exactly `m`.
pub proof fn lemma_rank_below_split<V>(s: Seq<(i64, V)>, k: i64, m: int)
    requires
        0 <= m <= s.len(),
        forall|i: int| 0 <= i < m ==> (#[trigger] s[i]).0 < k,
        forall|i: int| m <= i < s.len() ==> (#[trigger] s[i]).0 >= k,
    ensures
        rank_below(s, k) == m,
    decreases s.len(),
{
    if s.len() == 0 {
    } else {
        let d = s.drop_last();
        assert(forall|i: int| 0 <= i < d.len() ==> (#[trigger] d[i]) == s[i]);
        if m == s.len() {
            lemma_rank_below_split(d, k, m - 1);
        } else {
            lemma_rank_below_split(d, k, m);
            assert(s.last().0 >= k);
        }
    }
}

/// A write that changes only the value stored in slot `a` — key, level and
/// edges untouched — preserves the whole structural story, for any order
/// and free list that were sound before.
pub(crate) proof fn lemma_value_write_wf<V>(
    ns0: Seq<Option<Node<V>>>,
    ns1: Seq<Option<Node<V>>>,
    hf: Seq<Edge>,
    g: Seq<usize>,
    free: Seq<usize>,
    a: int,
)
    requires
        wf_parts(ns0, hf, g),
        free_ok(ns0, free),
        ns1.len() == ns0.len(),
        forall|j: int| 0 <= j < ns0.len() && j != a ==> ns1[j] == ns0[j],
        0 <= a < ns0.len(),
        ns0[a] is Some,
        ns1[a] is Some,
        ns1[a].unwrap().key == ns0[a].unwrap().key,
        ns1[a].unwrap().forward@ == ns0[a].unwrap().forward@,
        ns1[a].unwrap().level == ns0[a].unwrap().level,
    ensures
        wf_parts(ns1, hf, g),
        free_ok(ns1, free),
        forall|r: int| 1 <= r <= g.len() ==> key_at(ns1, g, r) == key_at(ns0, g, r),
        forall|r: int|
            0 <= r <= g.len() ==> edges_at(ns1, hf, g, r) == edges_at(ns0, hf, g, r),
{
    assert forall|r: int| 1 <= r <= g.len() implies key_at(ns1, g, r) == key_at(ns0, g, r)
        && node_at(ns1, g, r).forward@ == node_at(ns0, g, r).forward@ && node_at(
        ns1,
        g,
        r,
    ).level == node_at(ns0, g, r).level by {
        if g[r - 1] == a {
        } else {
            assert(ns1[g[r - 1] as int] == ns0[g[r - 1] as int]);
        }
    };
    assert forall|r: int| 0 <= r <= g.len() implies edges_at(ns1, hf, g, r) == edges_at(
        ns0,
        hf,
        g,
        r,
    ) by {
        if r > 0 {
            assert(node_at(ns1, g, r).forward@ == node_at(ns0, g, r).forward@);
        }
    };
    assert(arena_ok(ns1, g));
    assert(sorted_ok(ns1, g));
    assert forall|r: int| 1 <= r <= g.len() implies {
        let n = #[trigger] node_at(ns1, g, r);
        n.forward@.len() == n.level + 1 && n.forward@.len() <= hf.len()
    } by {
        assert(key_at(ns1, g, r) == key_at(ns0, g, r));
        let n0 = node_at(ns0, g, r);
        assert(n0.forward@.len() == n0.level + 1 && n0.forward@.len() <= hf.len());
    };
    assert(node_levels_ok(ns1, hf, g));
    assert forall|lvl: int| 0 <= lvl < hf.len() implies #[trigger] level_ok(ns1, hf, g, lvl) by {
        assert(level_ok(ns0, hf, g, lvl));
        assert forall|r: int|
            0 <= r <= g.len() && lvl < (#[trigger] edges_at(ns1, hf, g, r)).len() implies edge_ok(
            ns1,
            hf,
            g,
            r,
            lvl,
        ) by {
            assert(edges_at(ns1, hf, g, r) == edges_at(ns0, hf, g, r));
            assert(edge_ok(ns0, hf, g, r, lvl));
        };
    };
    assert forall|i: int| 0 <= i < free.len() implies (#[trigger] free[i]) < ns1.len()
        && ns1[free[i] as int] is None by {
        assert(free[i] < ns0.len() && ns0[free[i] as int] is None);
        if free[i] != a {
            assert(ns1[free[i] as int] == ns0[free[i] as int]);
        }
    };
}

/// Two states of the same shape carry the same keys and values at every
/// rank, and soundness of the arena, the order and the free list carries
/// over.
pub(crate) proof fn lemma_same_shape_props<V>(
    ns1: Seq<Option<Node<V>>>,
    hf1: Seq<Edge>,
    ns2: Seq<Option<Node<V>>>,
    hf2: Seq<Edge>,
    g: Seq<usize>,
    free: Seq<usize>,
)
    requires
        same_shape(ns1, ns2),
        hf1.len() == hf2.len(),
        arena_ok(ns2, g),
        sorted_ok(ns2, g),
        node_levels_ok(ns2, hf2, g),
        free_ok(ns2, free),
    ensures
        arena_ok(ns1, g),
        sorted_ok(ns1, g),
        node_levels_ok(ns1, hf1, g),
        free_ok(ns1, free),
        forall|r: int|
            1 <= r <= g.len() ==> #[trigger] key_at(ns1, g, r) == key_at(ns2, g, r) && val_at(
                ns1,
                g,
                r,
            ) == val_at(ns2, g, r),
{
    assert forall|r: int| 1 <= r <= g.len() implies #[trigger] key_at(ns1, g, r) == key_at(
        ns2,
        g,
        r,
    ) && val_at(ns1, g, r) == val_at(ns2, g, r) by {
        assert(g[r - 1] < ns2.len() && ns2[g[r - 1] as int] is Some);
    };
    assert forall|i: int| 0 <= i < g.len() implies (#[trigger] g[i]) < ns1.len() && ns1[g[i] as int]
        is Some by {
        assert(g[i] < ns2.len() && ns2[g[i] as int] is Some);
    };
    assert forall|r1: int, r2: int| 1 <= r1 < r2 <= g.len() implies #[trigger] key_at(ns1, g, r1)
        < #[trigger] key_at(ns1, g, r2) by {
        assert(key_at(ns2, g, r1) < key_at(ns2, g, r2));
    };
    assert forall|r: int| 1 <= r <= g.len() implies {
        let n = #[trigger] node_at(ns1, g, r);
        n.forward@.len() == n.level + 1 && n.forward@.len() <= hf1.len()
    } by {
        assert(g[r - 1] < ns2.len() && ns2[g[r - 1] as int] is Some);
        let n2 = node_at(ns2, g, r);
        assert(n2.forward@.len() == n2.level + 1 && n2.forward@.len() <= hf2.len());
    };
    assert forall|i: int| 0 <= i < free.len() implies (#[trigger] free[i]) < ns1.len()
        && ns1[free[i] as int] is None by {
        assert(free[i] < ns2.len() && ns2[free[i] as int] is None);
    };
}

/// Raising the head by one level whose edge runs straight to the tail,
/// spanning the whole list, keeps the configuration well formed: no node
/// takes part in the new level.
pub(crate) proof fn lemma_grow_head<V>(
    ns: Seq<Option<Node<V>>>,
    hf: Seq<Edge>,
    g: Seq<usize>,
    e: Edge,
)
    requires
        wf_parts(ns, hf, g),
        hf.len() >= 1,
        e.dst == TAIL,
        e.span == g.len() + 1,
    ensures
        wf_parts(ns, hf.push(e), g),
{
    let hf1 = hf.push(e);
    assert(forall|lvl: int| 0 <= lvl < hf.len() ==> hf1[lvl] == hf[lvl]);
    assert forall|r: int| 0 <= r <= g.len() implies edges_at(ns, hf1, g, r)
        == if r == 0 { hf1 } else { edges_at(ns, hf, g, r) } by {};
    assert forall|lvl: int| 0 <= lvl < hf1.len() implies #[trigger] level_ok(ns, hf1, g, lvl) by {
        if lvl < hf.len() {
            assert(level_ok(ns, hf, g, lvl));
            assert forall|r: int|
                0 <= r <= g.len() && lvl < (#[trigger] edges_at(ns, hf1, g, r)).len() implies
                edge_ok(ns, hf1, g, r, lvl) by {
                assert(edge_ok(ns, hf, g, r, lvl));
                assert(edges_at(ns, hf1, g, r)[lvl] == edges_at(ns, hf, g, r)[lvl]);
            };
        } else {
            assert forall|r: int|
                0 <= r <= g.len() && lvl < (#[trigger] edges_at(ns, hf1, g, r)).len() implies
                edge_ok(ns, hf1, g, r, lvl) by {
                if r > 0 {
                    let n = node_at(ns, g, r);
                    assert(n.forward@.len() <= hf.len());
                }
                assert(r == 0);
                assert(edges_at(ns, hf1, g, 0)[lvl] == e);
                assert forall|q: int| 0 < q < g.len() + 1 && 1 <= q <= g.len() implies (
                #[trigger] edges_at(ns, hf1, g, q).len()) <= lvl by {
                    assert(node_at(ns, g, q).forward@.len() <= hf.len());
                };
            };
        }
    };
}

/// When the head's topmost edge runs straight to the tail, no node takes
/// part in that level, and dropping it keeps the configuration well formed.
pub(crate) proof fn lemma_shrink_head<V>(ns: Seq<Option<Node<V>>>, hf: Seq<Edge>, g: Seq<usize>)
    requires
        wf_parts(ns, hf, g),
        hf.len() >= 2,
        hf[hf.len() - 1].dst == TAIL,
    ensures
        wf_parts(ns, hf.drop_last(), g),
{
    let top = hf.len() - 1;
    assert(level_ok(ns, hf, g, top));
    assert(edge_ok(ns, hf, g, 0, top));
    let e = hf[top];
    assert(0 + e.span == g.len() + 1) by {
        if 0 + e.span <= g.len() {
            assert(e.dst == g[e.span - 1]);
            assert(g[e.span - 1] < ns.len() <= usize::MAX);
        }
    };
    assert forall|q: int| 1 <= q <= g.len() implies (#[trigger] edges_at(ns, hf, g, q)).len()
        <= top by {};
    let hf1 = hf.drop_last();
    assert(forall|lvl: int| 0 <= lvl < hf1.len() ==> hf1[lvl] == hf[lvl]);
    assert forall|r: int| 1 <= r <= g.len() implies {
        let n = #[trigger] node_at(ns, g, r);
        n.forward@.len() == n.level + 1 && n.forward@.len() <= hf1.len()
    } by {
        assert(edges_at(ns, hf, g, r).len() <= top);
    };
    assert forall|lvl: int| 0 <= lvl < hf1.len() implies #[trigger] level_ok(ns, hf1, g, lvl) by {
        assert(level_ok(ns, hf, g, lvl));
        assert forall|r: int|
            0 <= r <= g.len() && lvl < (#[trigger] edges_at(ns, hf1, g, r)).len() implies edge_ok(
            ns,
            hf1,
            g,
            r,
            lvl,
        ) by {
            assert(forall|q: int|
                1 <= q <= g.len() ==> (#[trigger] edges_at(ns, hf1, g, q)) == edges_at(
                    ns,
                    hf,
                    g,
                    q,
                ));
            assert(edges_at(ns, hf1, g, r)[lvl] == edges_at(ns, hf, g, r)[lvl]);
            assert(edge_ok(ns, hf, g, r, lvl));
        };
    };
}

/// A write to a slot that no rank of the order names — and that the free
/// list under consideration does not name either — leaves every structural
/// claim standing.
pub(crate) proof fn lemma_untracked_write_wf<V>(
    ns0: Seq<Option<Node<V>>>,
    ns1: Seq<Option<Node<V>>>,
    hf: Seq<Edge>,
    g: Seq<usize>,
    a: int,
)
    requires
        wf_parts(ns0, hf, g),
        ns1.len() == ns0.len(),
        forall|j: int| 0 <= j < ns0.len() && j != a ==> ns1[j] == ns0[j],
        forall|i: int| 0 <= i < g.len() ==> (#[trigger] g[i]) != a,
    ensures
        wf_parts(ns1, hf, g),
        forall|r: int| 1 <= r <= g.len() ==> key_at(ns1, g, r) == key_at(ns0, g, r) && val_at(
            ns1,
            g,
            r,
        ) == val_at(ns0, g, r),
        forall|r: int| 0 <= r <= g.len() ==> edges_at(ns1, hf, g, r) == edges_at(ns0, hf, g, r),
{
    assert forall|r: int| 1 <= r <= g.len() implies node_at(ns1, g, r) == node_at(ns0, g, r) by {
        assert(g[r - 1] != a);
        assert(ns1[g[r - 1] as int] == ns0[g[r - 1] as int]);
    };
    assert forall|r: int| 0 <= r <= g.len() implies edges_at(ns1, hf, g, r) == edges_at(
        ns0,
        hf,
        g,
        r,
    ) by {
        if r > 0 {
            assert(node_at(ns1, g, r) == node_at(ns0, g, r));
        }
    };
    assert forall|r: int| 1 <= r <= g.len() implies #[trigger] key_at(ns1, g, r) == key_at(
        ns0,
        g,
        r,
    ) && val_at(ns1, g, r) == val_at(ns0, g, r) by {
        assert(node_at(ns1, g, r) == node_at(ns0, g, r));
    };
    assert(arena_ok(ns1, g));
    assert(sorted_ok(ns1, g));
    assert forall|r: int| 1 <= r <= g.len() implies {
        let n = #[trigger] node_at(ns1, g, r);
        n.forward@.len() == n.level + 1 && n.forward@.len() <= hf.len()
    } by {
        assert(node_at(ns1, g, r) == node_at(ns0, g, r));
        let n0 = node_at(ns0, g, r);
        assert(n0.forward@.len() == n0.level + 1 && n0.forward@.len() <= hf.len());
    };
    assert forall|lvl: int| 0 <= lvl < hf.len() implies #[trigger] level_ok(ns1, hf, g, lvl) by {
        assert(level_ok(ns0, hf, g, lvl));
        assert forall|r: int|
            0 <= r <= g.len() && lvl < (#[trigger] edges_at(ns1, hf, g, r)).len() implies edge_ok(
            ns1,
            hf,
            g,
            r,
            lvl,
        ) by {
            assert(edges_at(ns1, hf, g, r) == edges_at(ns0, hf, g, r));
            assert(edge_ok(ns0, hf, g, r, lvl));
        };
    };
}

/// A rewiring that keeps every occupant's edge count, and the edges at one
/// particular level, preserves that level's soundness.
pub(crate) proof fn lemma_level_frame<V>(
    ns0: Seq<Option<Node<V>>>,
    hf0: Seq<Edge>,
    ns1: Seq<Option<Node<V>>>,
    hf1: Seq<Edge>,
    g: Seq<usize>,
    lvl: int,
)
    requires
        level_ok(ns0, hf0, g, lvl),
        forall|r: int|
            0 <= r <= g.len() ==> (#[trigger] edges_at(ns1, hf1, g, r)).len() == edges_at(
                ns0,
                hf0,
                g,
                r,
            ).len(),
        forall|r: int|
            0 <= r <= g.len() && lvl < edges_at(ns0, hf0, g, r).len() ==> (#[trigger] edges_at(
                ns1,
                hf1,
                g,
                r,
            ))[lvl] == edges_at(ns0, hf0, g, r)[lvl],
    ensures
        level_ok(ns1, hf1, g, lvl),
{
    assert forall|r: int|
        0 <= r <= g.len() && lvl < (#[trigger] edges_at(ns1, hf1, g, r)).len() implies edge_ok(
        ns1,
        hf1,
        g,
        r,
        lvl,
    ) by {
        assert(edges_at(ns1, hf1, g, r).len() == edges_at(ns0, hf0, g, r).len());
        assert(edge_ok(ns0, hf0, g, r, lvl));
        assert(edges_at(ns1, hf1, g, r)[lvl] == edges_at(ns0, hf0, g, r)[lvl]);
        let e = edges_at(ns0, hf0, g, r)[lvl];
        let r2 = r + e.span;
        if r2 <= g.len() {
            assert(edges_at(ns1, hf1, g, r2).len() == edges_at(ns0, hf0, g, r2).len());
        }
        assert forall|q: int| r < q < r2 && 1 <= q <= g.len() implies (#[trigger] edges_at(
            ns1,
            hf1,
            g,
            q,
        ).len()) <= lvl by {
            assert(edges_at(ns1, hf1, g, q).len() == edges_at(ns0, hf0, g, q).len());
            assert(edges_at(ns0, hf0, g, q).len() <= lvl);
        };
    };
}

impl<V> SkipList<V> {
    /// What the level-0 update point says about the whole order: every rank
    /// at or below it carries a key below the target, every rank past its
    /// successor a key above it; presence of the target is equivalent to
    /// the successor carrying it, and the update rank is where the target
    /// belongs in the view.
    pub(crate) proof fn lemma_frontier(
        &self,
        key: i64,
        update: Seq<Handle>,
        steps: Seq<usize>,
    )
        requires
            self.wf(),
            self.update_post(key, update, steps, 0),
        ensures
            steps[0] <= self.g().len(),
            forall|r: int| 1 <= r <= steps[0] ==> self.rank_key(r) < key,
            forall|r: int| steps[0] + 1 < r <= self.g().len() ==> self.rank_key(r) > key,
            steps[0] < self.g().len() ==> self.rank_key(steps[0] + 1) >= key,
            has_key(self@, key) <==> (steps[0] < self.g().len() && self.rank_key(steps[0] + 1)
                == key),
            has_key(self@, key) ==> key_index(self@, key) == steps[0] as int,
            rank_below(self@, key) == steps[0] as int,
    {
        let s0 = steps[0] as int;
        crate::lemma_level0_step(self.nodes@, self.head_forward@, self.g(), s0);
        let e = self.rank_edges(s0)[0];
        assert(e.span == 1);
        let r2 = s0 + 1;
        assert(r2 == self.g().len() + 1 || self.rank_key(r2) >= key);
        self.lemma_entries_sorted();
        assert forall|r: int| 1 <= r <= s0 implies self.rank_key(r) < key by {
            if r < s0 {
                assert(key_at(self.nodes@, self.g(), r) < key_at(self.nodes@, self.g(), s0));
            }
        };
        assert forall|r: int| s0 + 1 < r <= self.g().len() implies self.rank_key(r) > key by {
            assert(key_at(self.nodes@, self.g(), r2) < key_at(self.nodes@, self.g(), r));
        };
        if s0 < self.g().len() && self.rank_key(s0 + 1) == key {
            assert(self@[s0].0 == key);
            assert(has_key(self@, key));
            lemma_key_index_unique(self@, key);
        }
        if has_key(self@, key) {
            let ki = key_index(self@, key);
            assert(self@[ki].0 == key);
            assert(self.rank_key(ki + 1) == key);
            assert(ki + 1 == s0 + 1) by {
                if ki + 1 <= s0 {
                    assert(self.rank_key(ki + 1) < key);
                }
                if ki + 1 > s0 + 1 {
                    assert(self.rank_key(ki + 1) > key);
                }
            };
        }
        assert forall|i: int| 0 <= i < s0 implies (#[trigger] self@[i]).0 < key by {
            assert(self.rank_key(i + 1) < key);
        };
        assert forall|i: int| s0 <= i < self@.len() implies (#[trigger] self@[i]).0 >= key by {
            if i == s0 {
                assert(self.rank_key(s0 + 1) >= key);
            } else {
                assert(self.rank_key(i + 1) > key);
            }
        };
        lemma_rank_below_split(self@, key, s0);
    }
}

} // verus!
