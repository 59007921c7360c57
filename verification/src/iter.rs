//! Iteration: a borrowing cursor that walks the level-0 chain and yields
//! the entries in ascending key order, and a consuming walker that owns
//! the arena, disassembles each node it passes, and hands the entries out
//! by value. Slots the consuming walker has not reached stay owned by its
//! arena, so dropping it early releases every remaining node exactly once,
//! with no bespoke cleanup.

use vstd::prelude::*;
use vstd::pervasive::unreached;

use crate::{Node, SkipList, TAIL};

verus! {

/// A non-destructive walk over a borrowed container, from the lowest key
/// upward.
pub struct SkipListIter<'a, V> {
    pub(crate) list: &'a SkipList<V>,
    pub(crate) cursor: usize,
    pub(crate) pos: Ghost<int>,
}

impl<'a, V> SkipListIter<'a, V> {
    /// The cursor stands on the slot of the next entry to yield — the one
    /// `pos` entries into the ascending order — or on the tail once every
    /// entry has been yielded.
    pub open(crate) spec fn inv(&self) -> bool {
        &&& self.list.wf()
        &&& 0 <= self.pos@ <= self.list@.len()
        &&& (self.pos@ == self.list@.len() ==> self.cursor == TAIL)
        &&& (self.pos@ < self.list@.len() ==> self.cursor == self.list.g()[self.pos@])
    }

    /// How many entries have been yielded so far.
    pub open(crate) spec fn spec_pos(&self) -> int {
        self.pos@
    }

    /// The container being walked.
    pub open(crate) spec fn spec_list(&self) -> SkipList<V> {
        *self.list
    }

    /// The next entry in ascending key order, or the absent result once
    /// the walk has passed the highest key. The container itself never
    /// changes.
    pub fn next(&mut self) -> (r: Option<(&'a i64, &'a V)>)
        requires
            old(self).inv(),
        ensures
            final(self).inv(),
            final(self).spec_list() == old(self).spec_list(),
            old(self).spec_pos() < old(self).spec_list()@.len() ==> {
                &&& r is Some
                &&& *r.unwrap().0 == old(self).spec_list()@[old(self).spec_pos()].0
                &&& *r.unwrap().1 == old(self).spec_list()@[old(self).spec_pos()].1
                &&& final(self).spec_pos() == old(self).spec_pos() + 1
            },
            old(self).spec_pos() >= old(self).spec_list()@.len() ==> {
                &&& r is None
                &&& final(self).spec_pos() == old(self).spec_pos()
            },
    {
        let l = self.list;
        if self.cursor == TAIL {
            proof {
                if self.pos@ < l@.len() {
                    assert(l.g()[self.pos@] < l.nodes@.len());
                }
            }
            return None;
        }
        let a = self.cursor;
        proof {
            assert(self.pos@ < l@.len());
            assert(a == l.g()[self.pos@]);
            assert(a < l.nodes@.len() && l.nodes@[a as int] is Some);
            l.lemma_entries_sorted();
            crate::lemma_level0_step(l.nodes@, l.head_forward@, l.g(), self.pos@ + 1);
            assert(crate::node_at(l.nodes@, l.g(), self.pos@ + 1) == l.nodes@[a as int].unwrap());
        }
        match &l.nodes[a] {
            Some(n) => {
                let e = n.forward[0];
                self.cursor = e.dst;
                proof {
                    self.pos@ = self.pos@ + 1;
                    if self.pos@ < l@.len() {
                        assert(e.dst == l.g()[self.pos@]);
                    }
                }
                Some((&n.key, &n.value))
            },
            None => unreached(),
        }
    }
}

/// A destructive walk that has taken over the container's storage; each
/// step disassembles the node it stands on. Whatever it has not yielded
/// it still owns, so it can be dropped at any point without leaking a
/// node or freeing one twice.
pub struct SkipListIntoIter<V> {
    pub(crate) nodes: Vec<Option<Node<V>>>,
    pub(crate) cursor: usize,
    pub(crate) rest: Ghost<Seq<usize>>,
}

impl<V> SkipListIntoIter<V> {
    /// `rest` lists the slots still to visit in ascending key order; the
    /// cursor stands on the first of them, each one's level-0 edge leads
    /// to the next, and the last one's to the tail.
    pub open(crate) spec fn inv(&self) -> bool {
        &&& self.nodes@.len() <= usize::MAX
        &&& forall|j: int|
            0 <= j < self.rest@.len() ==> (#[trigger] self.rest@[j]) < self.nodes@.len()
                && self.nodes@[self.rest@[j] as int] is Some
        &&& self.rest@.no_duplicates()
        &&& self.cursor == (if self.rest@.len() == 0 {
            TAIL
        } else {
            self.rest@[0]
        })
        &&& forall|j: int|
            0 <= j < self.rest@.len() ==> {
                let fwd = (#[trigger] self.nodes@[self.rest@[j] as int]).unwrap().forward@;
                &&& fwd.len() >= 1
                &&& fwd[0].dst == (if j + 1 < self.rest@.len() {
                    self.rest@[j + 1]
                } else {
                    TAIL
                })
            }
        &&& forall|j1: int, j2: int|
            0 <= j1 < j2 < self.rest@.len() ==> (#[trigger] self.nodes@[self.rest@[j1] as int]).unwrap().key
                < (#[trigger] self.nodes@[self.rest@[j2] as int]).unwrap().key
    }
}

impl<V> SkipListIntoIter<V> {
    /// The entries still to be yielded, in ascending key order.
    pub open(crate) spec fn remaining(&self) -> Seq<(i64, V)> {
        Seq::new(
            self.rest@.len(),
            |j: int|
                (
                    self.nodes@[self.rest@[j] as int].unwrap().key,
                    self.nodes@[self.rest@[j] as int].unwrap().value,
                ),
        )
    }
}

impl<V> View for SkipListIntoIter<V> {
    type V = Seq<(i64, V)>;

    open spec fn view(&self) -> Seq<(i64, V)> {
        self.remaining()
    }
}

impl<V> SkipListIntoIter<V> {
    /// The next entry in ascending key order, yielded by value, or the
    /// absent result once nothing remains.
    pub fn next(&mut self) -> (r: Option<(i64, V)>)
        requires
            old(self).inv(),
        ensures
            final(self).inv(),
            old(self)@.len() > 0 ==> {
                &&& r == Some(old(self)@[0])
                &&& final(self)@ == old(self)@.drop_first()
            },
            old(self)@.len() == 0 ==> r is None && final(self)@ == old(self)@,
    {
        if self.cursor == TAIL {
            proof {
                if self.rest@.len() > 0 {
                    assert(self.rest@[0] < self.nodes@.len());
                }
            }
            return None;
        }
        let a = self.cursor;
        let ghost rest0 = self.rest@;
        proof {
            assert(rest0.len() > 0);
            assert(a == rest0[0]);
        }
        let slot = &mut self.nodes[a];
        let taken = slot.take();
        match taken {
            Some(n) => {
                let e = n.forward[0];
                self.cursor = e.dst;
                proof {
                    self.rest@ = rest0.drop_first();
                    assert(forall|j: int|
                        0 <= j < self.rest@.len() ==> (#[trigger] self.rest@[j]) == rest0[j + 1]);
                    assert forall|j: int| 0 <= j < self.rest@.len() implies (
                    #[trigger] self.rest@[j]) < self.nodes@.len() && self.nodes@[self.rest@[j]
                        as int] is Some by {
                        assert(rest0[j + 1] != rest0[0]);
                    };
                    assert forall|j: int| 0 <= j < self.rest@.len() implies {
                        let fwd = (#[trigger] self.nodes@[self.rest@[j] as int]).unwrap().forward@;
                        &&& fwd.len() >= 1
                        &&& fwd[0].dst == (if j + 1 < self.rest@.len() {
                            self.rest@[j + 1]
                        } else {
                            TAIL
                        })
                    } by {
                        assert(rest0[j + 1] != rest0[0]);
                        assert(self.nodes@[rest0[j + 1] as int] == old(self).nodes@[rest0[j + 1]
                            as int]);
                    };
                    assert forall|j1: int, j2: int|
                        0 <= j1 < j2 < self.rest@.len() implies (#[trigger] self.nodes@[self.rest@[j1]
                        as int]).unwrap().key < (#[trigger] self.nodes@[self.rest@[j2]
                        as int]).unwrap().key by {
                        assert(rest0[j1 + 1] != rest0[0] && rest0[j2 + 1] != rest0[0]);
                        assert(old(self).nodes@[rest0[j1 + 1] as int].unwrap().key < old(
                            self,
                        ).nodes@[rest0[j2 + 1] as int].unwrap().key);
                    };
                    assert forall|j: int| 0 <= j < self@.len() implies #[trigger] self@[j] == old(
                        self,
                    )@.drop_first()[j] by {
                        assert(rest0[j + 1] != rest0[0]);
                        assert(self.nodes@[rest0[j + 1] as int] == old(self).nodes@[rest0[j + 1]
                            as int]);
                        assert(old(self)@[j + 1] == (
                            old(self).nodes@[rest0[j + 1] as int].unwrap().key,
                            old(self).nodes@[rest0[j + 1] as int].unwrap().value,
                        ));
                    };
                    assert(self@ =~= old(self)@.drop_first());
                }
                Some((n.key, n.value))
            },
            None => unreached(),
        }
    }
}

impl<V> SkipList<V> {
    /// A borrowing walk over the entries in ascending key order; the
    /// container stays fully usable afterwards.
    pub fn iter<'a>(&'a self) -> (it: SkipListIter<'a, V>)
        requires
            self.wf(),
        ensures
            it.inv(),
            it.spec_list() == *self,
            it.spec_pos() == 0,
    {
        proof {
            crate::lemma_level0_step(self.nodes@, self.head_forward@, self.g(), 0);
        }
        let first = self.head_forward[0].dst;
        SkipListIter { list: self, cursor: first, pos: Ghost(0) }
    }

    /// Consume the container and walk its entries by value, in ascending
    /// key order.
    pub fn into_iter(self) -> (it: SkipListIntoIter<V>)
        requires
            self.wf(),
        ensures
            it.inv(),
            it@ == self@,
    {
        proof {
            crate::lemma_level0_step(self.nodes@, self.head_forward@, self.g(), 0);
            self.lemma_entries_sorted();
            assert forall|j: int| 0 <= j < self.g().len() implies {
                let fwd = (#[trigger] self.nodes@[self.g()[j] as int]).unwrap().forward@;
                &&& fwd.len() >= 1
                &&& fwd[0].dst == (if j + 1 < self.g().len() {
                    self.g()[j + 1]
                } else {
                    TAIL
                })
            } by {
                crate::lemma_level0_step(self.nodes@, self.head_forward@, self.g(), j + 1);
                assert(crate::node_at(self.nodes@, self.g(), j + 1) == self.nodes@[self.g()[j]
                    as int].unwrap());
                assert(crate::edges_at(self.nodes@, self.head_forward@, self.g(), j + 1).len()
                    >= 1);
            };
        }
        proof {
            assert forall|j1: int, j2: int| 0 <= j1 < j2 < self.g().len() implies (
            #[trigger] self.nodes@[self.g()[j1] as int]).unwrap().key < (
            #[trigger] self.nodes@[self.g()[j2] as int]).unwrap().key by {
                assert(crate::key_at(self.nodes@, self.g(), j1 + 1) < crate::key_at(
                    self.nodes@,
                    self.g(),
                    j2 + 1,
                ));
            };
        }
        let first = self.head_forward[0].dst;
        let it = SkipListIntoIter { nodes: self.nodes, cursor: first, rest: Ghost(self.order@) };
        proof {
            assert(it.inv());
            assert(it@ =~= self@);
        }
        it
    }
}

} // verus!
