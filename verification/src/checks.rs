//! Observing the level structure: read one level's chain of edges out for
//! rendering, and the span-consistency diagnostic, which indexes every
//! node's level-0 position and then re-walks every level comparing each
//! edge's span against the positions of its two ends. On a well-formed
//! container the diagnostic always comes back clean; it exists so that
//! unverified callers and tests can observe the bookkeeping directly.

use vstd::prelude::*;

use crate::{handle_at_rank, handle_edges, handle_ok, Handle, SkipList, TAIL};

verus! {

impl<V> SkipList<V> {
    /// The number of active levels: how many forward edges the head
    /// sentinel currently carries.
    pub fn level_count(&self) -> (r: usize)
        requires
            self.wf(),
        ensures
            r == self.spec_levels(),
            r >= 1,
    {
        self.level + 1
    }

    /// One level's chain, read off for rendering or inspection: each pair
    /// gives the rank of an edge's source (0 is the head sentinel) and the
    /// edge's span. The chain starts at the head, each edge hands over to
    /// the rank its span reaches, and the last one reaches the tail, one
    /// past the highest rank.
    pub fn level_chain(&self, lvl: usize) -> (r: Vec<(usize, usize)>)
        requires
            self.wf(),
            lvl < self.spec_levels(),
        ensures
            r@.len() >= 1,
            r@[0].0 == 0,
            forall|k: int|
                0 <= k < r@.len() ==> {
                    let (src, sp) = #[trigger] r@[k];
                    &&& src <= self@.len()
                    &&& lvl < self.rank_edges(src as int).len()
                    &&& sp == self.rank_edges(src as int)[lvl as int].span
                },
            forall|k: int|
                0 <= k < r@.len() - 1 ==> (#[trigger] r@[k + 1]).0 == r@[k].0 + r@[k].1,
            r@[r@.len() - 1].0 + r@[r@.len() - 1].1 == self@.len() + 1,
    {
        let mut out: Vec<(usize, usize)> = Vec::new();
        let mut cur: Handle = Handle::Head;
        let mut rank: usize = 0;
        proof {
            self.lemma_entries_sorted();
        }
        loop
            invariant_except_break
                rank == 0 <==> out@.len() == 0,
                out@.len() >= 1 ==> out@[0].0 == 0 && out@[out@.len() - 1].0 + out@[out@.len()
                    - 1].1 == rank,
            invariant
                self.wf(),
                lvl < self.spec_levels(),
                rank <= self.g().len(),
                handle_at_rank(self.g(), cur, rank as int),
                handle_ok(self.nodes@, cur),
                self.rank_edges(rank as int).len() > lvl,
                self@.len() == self.g().len(),
                forall|k: int|
                    0 <= k < out@.len() ==> {
                        let (src, sp) = #[trigger] out@[k];
                        &&& src <= self@.len()
                        &&& lvl < self.rank_edges(src as int).len()
                        &&& sp == self.rank_edges(src as int)[lvl as int].span
                    },
                forall|k: int|
                    0 <= k < out@.len() - 1 ==> (#[trigger] out@[k + 1]).0 == out@[k].0
                        + out@[k].1,
            ensures
                out@.len() >= 1,
                out@[0].0 == 0,
                forall|k: int|
                    0 <= k < out@.len() ==> {
                        let (src, sp) = #[trigger] out@[k];
                        &&& src <= self@.len()
                        &&& lvl < self.rank_edges(src as int).len()
                        &&& sp == self.rank_edges(src as int)[lvl as int].span
                    },
                forall|k: int|
                    0 <= k < out@.len() - 1 ==> (#[trigger] out@[k + 1]).0 == out@[k].0
                        + out@[k].1,
                out@[out@.len() - 1].0 + out@[out@.len() - 1].1 == self@.len() + 1,
            decreases self.g().len() - rank,
        {
            proof {
                assert(crate::level_ok(self.nodes@, self.head_forward@, self.g(), lvl as int));
                assert(crate::edge_ok(
                    self.nodes@,
                    self.head_forward@,
                    self.g(),
                    rank as int,
                    lvl as int,
                ));
                assert(self.rank_edges(rank as int) == handle_edges(
                    self.nodes@,
                    self.head_forward@,
                    cur,
                ));
            }
            let e = self.get_edge(cur, lvl);
            out.push((rank, e.span));
            if e.dst == TAIL {
                proof {
                    let r2 = rank as int + e.span;
                    if r2 <= self.g().len() {
                        assert(self.g()[r2 - 1] < self.nodes@.len());
                    }
                    assert(r2 == self.g().len() + 1);
                }
                break;
            }
            rank = rank + e.span;
            cur = Handle::At(e.dst);
        }
        out
    }

    /// Check that, at every level, each edge's span equals the number of
    /// level-0 steps between its two ends, and that each level's spans sum
    /// to one past the number of entries.
    #[verifier::rlimit(50)]
    pub fn verify_spans(&self) -> (r: bool)
        requires
            self.wf(),
        ensures
            r,
    {
        // Index each occupied slot by its level-0 position.
        let mut pos: Vec<usize> = vec![0usize; self.nodes.len()];
        let mut cur: Handle = Handle::Head;
        let mut rank: usize = 0;
        loop
            invariant
                self.wf(),
                pos@.len() == self.nodes@.len(),
                rank <= self.g().len(),
                handle_at_rank(self.g(), cur, rank as int),
                handle_ok(self.nodes@, cur),
                self.rank_edges(rank as int).len() >= 1,
                forall|t: int| 1 <= t <= rank ==> pos@[(#[trigger] self.g()[t - 1]) as int] == t,
            ensures
                rank == self.g().len(),
                pos@.len() == self.nodes@.len(),
                forall|t: int| 1 <= t <= rank ==> pos@[(#[trigger] self.g()[t - 1]) as int] == t,
            decreases self.g().len() - rank,
        {
            proof {
                crate::lemma_level0_step(self.nodes@, self.head_forward@, self.g(), rank as int);
                assert(self.rank_edges(rank as int) == handle_edges(
                    self.nodes@,
                    self.head_forward@,
                    cur,
                ));
            }
            let e = self.get_edge(cur, 0);
            if e.dst == TAIL {
                proof {
                    if (rank as int) < self.g().len() {
                        assert(self.g()[rank as int] < self.nodes@.len());
                    }
                }
                break;
            }
            let ghost rank0 = rank as int;
            rank = rank + 1;
            pos[e.dst] = rank;
            cur = Handle::At(e.dst);
            proof {
                assert(e.dst == self.g()[rank0]);
                assert forall|t: int| 1 <= t <= rank implies pos@[(#[trigger] self.g()[t - 1])
                    as int] == t by {
                    if t <= rank0 {
                        assert(self.g()[t - 1] != self.g()[rank0]);
                    }
                };
            }
        }

        // Re-walk every level and hold each span against the positions.
        let mut lvl: usize = 0;
        while lvl <= self.level
            invariant
                self.wf(),
                lvl <= self.level + 1,
                pos@.len() == self.nodes@.len(),
                forall|t: int| 1 <= t <= self.g().len() ==> pos@[(#[trigger] self.g()[t - 1]) as int] == t,
            decreases self.level + 1 - lvl,
        {
            let mut cur: Handle = Handle::Head;
            let mut prev: usize = 0;
            loop
                invariant
                    self.wf(),
                    lvl <= self.level,
                    pos@.len() == self.nodes@.len(),
                    forall|t: int|
                        1 <= t <= self.g().len() ==> pos@[(#[trigger] self.g()[t - 1]) as int] == t,
                    prev <= self.g().len(),
                    handle_at_rank(self.g(), cur, prev as int),
                    handle_ok(self.nodes@, cur),
                    self.rank_edges(prev as int).len() > lvl,
                decreases self.g().len() - prev,
            {
                proof {
                    assert(crate::level_ok(
                        self.nodes@,
                        self.head_forward@,
                        self.g(),
                        lvl as int,
                    ));
                    assert(crate::edge_ok(
                        self.nodes@,
                        self.head_forward@,
                        self.g(),
                        prev as int,
                        lvl as int,
                    ));
                    assert(self.rank_edges(prev as int) == handle_edges(
                        self.nodes@,
                        self.head_forward@,
                        cur,
                    ));
                }
                let e = self.get_edge(cur, lvl);
                if e.dst == TAIL {
                    proof {
                        let r2 = prev as int + e.span;
                        if r2 <= self.g().len() {
                            assert(self.g()[r2 - 1] < self.nodes@.len());
                        }
                    }
                    if e.span - 1 != self.len - prev {
                        return false;
                    }
                    break;
                }
                let dpos = pos[e.dst];
                proof {
                    let r2 = prev as int + e.span;
                    assert(r2 <= self.g().len());
                    assert(e.dst == self.g()[r2 - 1]);
                    assert(pos@[e.dst as int] == r2);
                }
                if dpos < prev || e.span != dpos - prev {
                    return false;
                }
                prev = dpos;
                cur = Handle::At(e.dst);
            }
            lvl = lvl + 1;
        }
        true
    }
}

} // verus!
