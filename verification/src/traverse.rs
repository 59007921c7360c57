//! The shared multi-level descent: from the head and the top level down,
//! advance while the next node's key is below the target, and record per
//! level where the descent left that level together with the rank reached.
//! Insertion and removal patch edges exactly at those recorded places.

use vstd::prelude::*;

use crate::{
    edges_at, handle_at_rank, handle_edges, handle_ok, key_at, Handle, SkipList, TAIL,
};

verus! {

impl<V> SkipList<V> {
    /// What the descent guarantees about the update point of level `j`:
    /// it stands at rank `steps[j]`, its key is below `key` (or it is the
    /// head), it takes part in level `j`, and its level-`j` successor is the
    /// tail or carries a key at or above `key`.
    pub open(crate) spec fn update_post(
        &self,
        key: i64,
        update: Seq<Handle>,
        steps: Seq<usize>,
        j: int,
    ) -> bool {
        let r = steps[j] as int;
        &&& 0 <= r <= self.g().len()
        &&& handle_at_rank(self.g(), update[j], r)
        &&& (r == 0 || self.rank_key(r) < key)
        &&& self.rank_edges(r).len() > j
        &&& {
            let r2 = r + self.rank_edges(r)[j].span;
            r2 == self.g().len() + 1 || self.rank_key(r2) >= key
        }
    }

    /// Locate `key`: for every active level, the node from which the search
    /// departs toward the key's position, and the rank of that node.
    pub(crate) fn find_update(&self, key: i64) -> (res: (Vec<Handle>, Vec<usize>))
        requires
            self.wf(),
        ensures
            res.0@.len() == self.level + 1,
            res.1@.len() == self.level + 1,
            forall|j: int|
                0 <= j <= self.level ==> self.update_post(key, res.0@, res.1@, j),
    {
        let lv1 = self.level + 1;
        let mut update: Vec<Handle> = vec![Handle::Head; lv1];
        let mut steps: Vec<usize> = vec![0usize; lv1];

        let mut cur: Handle = Handle::Head;
        let mut rank: usize = 0;
        let mut i: usize = lv1;

        while i > 0
            invariant
                self.wf(),
                lv1 == self.level + 1,
                i <= lv1,
                update@.len() == lv1,
                steps@.len() == lv1,
                rank <= self.g().len(),
                handle_at_rank(self.g(), cur, rank as int),
                handle_ok(self.nodes@, cur),
                rank == 0 || self.rank_key(rank as int) < key,
                self.rank_edges(rank as int).len() >= i,
                forall|j: int| i <= j < lv1 ==> self.update_post(key, update@, steps@, j),
            decreases i,
        {
            i = i - 1;
            proof {
                assert(self.rank_edges(rank as int) == handle_edges(
                    self.nodes@,
                    self.head_forward@,
                    cur,
                ));
            }
            loop
                invariant
                    self.wf(),
                    i < lv1 == self.level + 1,
                    rank <= self.g().len(),
                    handle_at_rank(self.g(), cur, rank as int),
                    handle_ok(self.nodes@, cur),
                    rank == 0 || self.rank_key(rank as int) < key,
                    self.rank_edges(rank as int).len() > i,
                    self.rank_edges(rank as int) == handle_edges(
                        self.nodes@,
                        self.head_forward@,
                        cur,
                    ),
                ensures
                    ({
                        let r2 = rank + self.rank_edges(rank as int)[i as int].span;
                        r2 == self.g().len() + 1 || self.rank_key(r2 as int) >= key
                    }),
                decreases self.g().len() - rank,
            {
                let e = self.get_edge(cur, i);
                proof {
                    assert(crate::level_ok(self.nodes@, self.head_forward@, self.g(), i as int));
                    assert(crate::edge_ok(self.nodes@, self.head_forward@, self.g(), rank as int, i as int));
                }
                if e.dst == TAIL {
                    proof {
                        let r2 = rank + self.rank_edges(rank as int)[i as int].span;
                        if r2 <= self.g().len() {
                            assert(self.g()[r2 - 1] < self.nodes@.len());
                        }
                    }
                    break;
                }
                let nk = self.key_of(e.dst);
                proof {
                    let r2 = rank + self.rank_edges(rank as int)[i as int].span;
                    assert(r2 <= self.g().len());
                    assert(e.dst == self.g()[r2 - 1]);
                    assert(nk == self.rank_key(r2));
                }
                if nk < key {
                    rank = rank + e.span;
                    cur = Handle::At(e.dst);
                } else {
                    break;
                }
            }
            let ghost up0 = update@;
            let ghost st0 = steps@;
            update[i] = cur;
            steps[i] = rank;
            proof {
                assert(self.update_post(key, update@, steps@, i as int));
                assert forall|j: int| i < j < lv1 implies self.update_post(
                    key,
                    update@,
                    steps@,
                    j,
                ) by {
                    assert(update@[j] == up0[j]);
                    assert(steps@[j] == st0[j]);
                    assert(self.update_post(key, up0, st0, j));
                };
            }
        }
        (update, steps)
    }
}

} // verus!
