//! Positional access: descend by rank rather than by key, following an
//! edge only while its span does not overshoot the target rank, and read
//! the entry at a 0-based position in expected-logarithmic time.

use vstd::prelude::*;
use vstd::pervasive::unreached;

use crate::lemmas::lemma_value_write_wf;
use crate::{handle_at_rank, handle_edges, handle_ok, Handle, SkipList, TAIL};

verus! {

impl<V> SkipList<V> {
    /// Find the arena slot of the entry at `position`, if it is in range.
    pub(crate) fn locate_rank(&self, position: usize) -> (r: Option<usize>)
        requires
            self.wf(),
        ensures
            match r {
                Some(a) => {
                    &&& position < self@.len()
                    &&& a == self.g()[position as int]
                    &&& a < self.nodes@.len()
                    &&& self.nodes@[a as int] is Some
                    &&& self.nodes@[a as int].unwrap().key == self@[position as int].0
                    &&& self.nodes@[a as int].unwrap().value == self@[position as int].1
                },
                None => position >= self@.len(),
            },
    {
        if position >= self.len {
            return None;
        }
        let target = position + 1;
        let mut cur: Handle = Handle::Head;
        let mut rank: usize = 0;
        let mut i: usize = self.level + 1;

        while i > 0
            invariant
                self.wf(),
                i <= self.level + 1,
                1 <= target <= self.g().len(),
                target == position + 1,
                rank <= target,
                handle_at_rank(self.g(), cur, rank as int),
                handle_ok(self.nodes@, cur),
                self.rank_edges(rank as int).len() >= i,
                i == 0 ==> rank == target,
            decreases i,
        {
            i = i - 1;
            proof {
                assert(self.rank_edges(rank as int) == handle_edges(
                    self.nodes@,
                    self.head_forward@,
                    cur,
                ));
            }
            loop
                invariant
                    self.wf(),
                    i < self.level + 1,
                    1 <= target <= self.g().len(),
                    rank <= target,
                    handle_at_rank(self.g(), cur, rank as int),
                    handle_ok(self.nodes@, cur),
                    self.rank_edges(rank as int).len() > i,
                    self.rank_edges(rank as int) == handle_edges(
                        self.nodes@,
                        self.head_forward@,
                        cur,
                    ),
                ensures
                    rank == target || self.rank_edges(rank as int)[i as int].span > target - rank,
                decreases self.g().len() - rank,
            {
                if rank >= target {
                    break;
                }
                let e = self.get_edge(cur, i);
                proof {
                    assert(crate::level_ok(self.nodes@, self.head_forward@, self.g(), i as int));
                    assert(crate::edge_ok(
                        self.nodes@,
                        self.head_forward@,
                        self.g(),
                        rank as int,
                        i as int,
                    ));
                }
                if e.span > target - rank {
                    break;
                }
                if e.dst == TAIL {
                    proof {
                        assert(rank + e.span <= target <= self.g().len());
                        assert(self.g()[rank + e.span - 1] < self.nodes@.len());
                    }
                    break;
                }
                rank = rank + e.span;
                cur = Handle::At(e.dst);
            }
            proof {
                if i == 0 {
                    crate::lemma_level0_step(
                        self.nodes@,
                        self.head_forward@,
                        self.g(),
                        rank as int,
                    );
                    assert(rank == target);
                }
            }
        }
        match cur {
            Handle::At(a) => {
                proof {
                    self.lemma_entries_sorted();
                    assert(self@[position as int] == (
                        self.rank_key(target as int),
                        self.rank_val(target as int),
                    ));
                }
                Some(a)
            },
            Handle::Head => unreached(),
        }
    }

    /// The entry at a 0-based position in ascending key order, or the
    /// absent result when the position is out of range.
    pub fn index(&self, position: usize) -> (r: Option<(&i64, &V)>)
        requires
            self.wf(),
        ensures
            match r {
                Some(kv) => {
                    &&& position < self@.len()
                    &&& *kv.0 == self@[position as int].0
                    &&& *kv.1 == self@[position as int].1
                },
                None => position >= self@.len(),
            },
    {
        match self.locate_rank(position) {
            None => None,
            Some(a) => {
                match &self.nodes[a] {
                    Some(n) => Some((&n.key, &n.value)),
                    None => unreached(),
                }
            },
        }
    }

    /// The entry at a 0-based position, with the value borrowed exclusively:
    /// whatever the caller writes through it is what the entry then holds,
    /// and nothing else of the container moves.
    pub fn index_mut(&mut self, position: usize) -> (r: Option<(&i64, &mut V)>)
        requires
            old(self).wf(),
        ensures
            r is None ==> position >= old(self)@.len() && *final(self) == *old(self),
            r is Some ==> {
                &&& position < old(self)@.len()
                &&& *r.unwrap().0 == old(self)@[position as int].0
                &&& *r.unwrap().1 == old(self)@[position as int].1
                &&& final(self).wf()
                &&& final(self)@ == old(self)@.update(
                    position as int,
                    (old(self)@[position as int].0, *final(r.unwrap().1)),
                )
            },
    {
        let ghost s0 = *self;
        match self.locate_rank(position) {
            None => None,
            Some(a) => {
                proof {
                    s0.lemma_entries_sorted();
                }
                let slot = &mut self.nodes[a];
                match slot {
                    Some(n) => {
                        let kr = &n.key;
                        let vr = &mut n.value;
                        proof {
                            lemma_value_write_wf(
                                s0.nodes@,
                                after_borrow(self).nodes@,
                                s0.head_forward@,
                                s0.g(),
                                s0.free@,
                                a as int,
                            );
                            assert(after_borrow(self)@ =~= s0@.update(
                                position as int,
                                (s0@[position as int].0, *final(vr)),
                            ));
                        }
                        Some((kr, vr))
                    },
                    None => unreached(),
                }
            },
        }
    }
}

} // verus!
