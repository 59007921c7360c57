//! Single-key lookup: a descent that follows an edge while the next key is
//! strictly below the target, answers as soon as the next key equals it,
//! and otherwise drops a level; at the bottom the target is provably
//! absent.

use vstd::prelude::*;
use vstd::pervasive::unreached;

use crate::lemmas::{lemma_key_index_unique, lemma_value_write_wf};
use crate::{
    handle_at_rank, handle_edges, handle_ok, has_key, key_index, Handle, SkipList, TAIL,
};

verus! {

impl<V> SkipList<V> {
    /// Find the arena slot holding `key`, if any.
    pub(crate) fn locate(&self, key: i64) -> (r: Option<usize>)
        requires
            self.wf(),
        ensures
            match r {
                Some(a) => {
                    let ki = key_index(self@, key);
                    &&& has_key(self@, key)
                    &&& 0 <= ki < self@.len()
                    &&& a == self.g()[ki]
                    &&& a < self.nodes@.len()
                    &&& self.nodes@[a as int] is Some
                    &&& self.nodes@[a as int].unwrap().key == key
                    &&& self.nodes@[a as int].unwrap().value == self@[ki].1
                },
                None => !has_key(self@, key),
            },
    {
        let mut cur: Handle = Handle::Head;
        let mut rank: usize = 0;
        let mut i: usize = self.level + 1;

        while i > 0
            invariant
                self.wf(),
                i <= self.level + 1,
                rank <= self.g().len(),
                handle_at_rank(self.g(), cur, rank as int),
                handle_ok(self.nodes@, cur),
                rank == 0 || self.rank_key(rank as int) < key,
                self.rank_edges(rank as int).len() >= i,
                i == 0 ==> rank == self.g().len() || self.rank_key(rank + 1) > key,
            decreases i,
        {
            i = i - 1;
            proof {
                assert(self.rank_edges(rank as int) == handle_edges(
                    self.nodes@,
                    self.head_forward@,
                    cur,
                ));
            }
            loop
                invariant
                    self.wf(),
                    i < self.level + 1,
                    rank <= self.g().len(),
                    handle_at_rank(self.g(), cur, rank as int),
                    handle_ok(self.nodes@, cur),
                    rank == 0 || self.rank_key(rank as int) < key,
                    self.rank_edges(rank as int).len() > i,
                    self.rank_edges(rank as int) == handle_edges(
                        self.nodes@,
                        self.head_forward@,
                        cur,
                    ),
                ensures
                    ({
                        let r2 = rank + self.rank_edges(rank as int)[i as int].span;
                        r2 == self.g().len() + 1 || self.rank_key(r2 as int) > key
                    }),
                decreases self.g().len() - rank,
            {
                let e = self.get_edge(cur, i);
                proof {
                    assert(crate::level_ok(self.nodes@, self.head_forward@, self.g(), i as int));
                    assert(crate::edge_ok(
                        self.nodes@,
                        self.head_forward@,
                        self.g(),
                        rank as int,
                        i as int,
                    ));
                }
                if e.dst == TAIL {
                    proof {
                        let r2 = rank + self.rank_edges(rank as int)[i as int].span;
                        if r2 <= self.g().len() {
                            assert(self.g()[r2 - 1] < self.nodes@.len());
                        }
                    }
                    break;
                }
                let nk = self.key_of(e.dst);
                proof {
                    let r2 = rank + self.rank_edges(rank as int)[i as int].span;
                    assert(r2 <= self.g().len());
                    assert(e.dst == self.g()[r2 - 1]);
                    assert(nk == self.rank_key(r2));
                }
                if nk == key {
                    proof {
                        let r2 = rank as int + self.rank_edges(rank as int)[i as int].span;
                        self.lemma_entries_sorted();
                        assert(self@[r2 - 1].0 == key);
                        assert(has_key(self@, key));
                        lemma_key_index_unique(self@, key);
                        assert(key_index(self@, key) == r2 - 1);
                    }
                    return Some(e.dst);
                }
                if nk < key {
                    rank = rank + e.span;
                    cur = Handle::At(e.dst);
                } else {
                    break;
                }
            }
            proof {
                if i == 0 {
                    crate::lemma_level0_step(
                        self.nodes@,
                        self.head_forward@,
                        self.g(),
                        rank as int,
                    );
                }
            }
        }
        proof {
            self.lemma_entries_sorted();
            assert forall|j: int| 0 <= j < self@.len() implies (#[trigger] self@[j]).0 != key by {
                let r = j + 1;
                if r <= rank {
                    if r < rank {
                        assert(self.rank_key(r) < self.rank_key(rank as int));
                    }
                    assert(self.rank_key(r) < key);
                } else {
                    if r > rank + 1 {
                        assert(self.rank_key(rank + 1) < self.rank_key(r));
                    }
                    assert(self.rank_key(r) > key);
                }
            };
        }
        None
    }

    /// Look the key up and hand back a shared reference to its value, or
    /// the absent result when no entry carries it.
    pub fn get(&self, key: &i64) -> (r: Option<&V>)
        requires
            self.wf(),
        ensures
            match r {
                Some(v) => {
                    &&& has_key(self@, *key)
                    &&& *v == self@[key_index(self@, *key)].1
                },
                None => !has_key(self@, *key),
            },
    {
        match self.locate(*key) {
            None => None,
            Some(a) => {
                match &self.nodes[a] {
                    Some(n) => Some(&n.value),
                    None => unreached(),
                }
            },
        }
    }

    /// Look the key up and hand back an exclusive reference to its value;
    /// whatever the caller writes through it is what the entry then holds,
    /// and nothing else of the container moves.
    pub fn get_mut(&mut self, key: &i64) -> (r: Option<&mut V>)
        requires
            old(self).wf(),
        ensures
            r is None ==> !has_key(old(self)@, *key) && *final(self) == *old(self),
            r is Some ==> {
                let ki = key_index(old(self)@, *key);
                &&& has_key(old(self)@, *key)
                &&& 0 <= ki < old(self)@.len()
                &&& *r.unwrap() == old(self)@[ki].1
                &&& final(self).wf()
                &&& final(self)@ == old(self)@.update(ki, (*key, *final(r.unwrap())))
            },
    {
        let ghost s0 = *self;
        match self.locate(*key) {
            None => None,
            Some(a) => {
                proof {
                    s0.lemma_entries_sorted();
                }
                let slot = &mut self.nodes[a];
                match slot {
                    Some(n) => {
                        let v = &mut n.value;
                        proof {
                            let ghost ki = key_index(s0@, *key);
                            lemma_value_write_wf(
                                s0.nodes@,
                                after_borrow(self).nodes@,
                                s0.head_forward@,
                                s0.g(),
                                s0.free@,
                                a as int,
                            );
                            assert(after_borrow(self)@ =~= s0@.update(
                                ki,
                                (*key, *final(v)),
                            ));
                        }
                        Some(v)
                    },
                    None => unreached(),
                }
            },
        }
    }
}

} // verus!
