//! Removal: locate the key, splice the carrying node out of every level it
//! takes part in, shorten the spans of the levels it does not, collapse
//! head levels that run straight to the tail, and free the node's slot.

use vstd::prelude::*;
use vstd::pervasive::unreached;

use crate::lemmas::{
    lemma_level_frame, lemma_same_shape_props, lemma_shrink_head, lemma_untracked_write_wf,
    low_edges_eq, same_shape,
};
use crate::{
    edge_ok, edges_at, handle_at_rank, handle_edges, handle_ok, has_key, key_at, key_index,
    level_ok, val_at, Edge, Handle, SkipList, TAIL,
};

verus! {

/// The rewired configuration is sound at level `i` once this iteration's
/// write is in place: where the removed rank `p` took part in the level,
/// the update node inherits its edge with the two spans merged; above the
/// removed node's levels the update node keeps its target with one step
/// less of span; and every other edge of the level is untouched and merely
/// shifts rank.
proof fn lemma_remove_fix_level<V>(
    s1: SkipList<V>,
    ns: Seq<Option<crate::Node<V>>>,
    hf: Seq<Edge>,
    g1: Seq<usize>,
    p: int,
    tlevel: int,
    i: int,
    ru: int,
)
    requires
        s1.wf(),
        1 <= p <= s1.order@.len(),
        g1 == s1.order@.remove(p - 1),
        s1.rank_edges(p).len() == tlevel + 1,
        0 <= i <= s1.level,
        0 <= ru < p,
        i < s1.rank_edges(ru).len(),
        i <= tlevel ==> ru + s1.rank_edges(ru)[i].span == p,
        i > tlevel ==> ru + s1.rank_edges(ru)[i].span > p,
        hf.len() == s1.head_forward@.len(),
        forall|q: int|
            1 <= q <= g1.len() ==> (#[trigger] edges_at(ns, hf, g1, q)).len() == s1.rank_edges(
                if q < p {
                    q
                } else {
                    q + 1
                },
            ).len(),
        i <= tlevel ==> {
            &&& edges_at(ns, hf, g1, ru)[i].dst == s1.rank_edges(p)[i].dst
            &&& edges_at(ns, hf, g1, ru)[i].span == s1.rank_edges(ru)[i].span + s1.rank_edges(
                p,
            )[i].span - 1
        },
        i > tlevel ==> {
            &&& edges_at(ns, hf, g1, ru)[i].dst == s1.rank_edges(ru)[i].dst
            &&& edges_at(ns, hf, g1, ru)[i].span == s1.rank_edges(ru)[i].span - 1
        },
        forall|r: int|
            0 <= r <= g1.len() && r != ru && i < (#[trigger] edges_at(ns, hf, g1, r)).len()
                ==> edges_at(ns, hf, g1, r)[i] == s1.rank_edges(
                if r < p {
                    r
                } else {
                    r + 1
                },
            )[i],
    ensures
        level_ok(ns, hf, g1, i),
{
    let g0 = s1.order@;
    let ns0 = s1.nodes@;
    let hf0 = s1.head_forward@;
    let n0 = g0.len() as int;
    g0.remove_ensures(p - 1);
    assert(g1.len() == n0 - 1);
    assert(level_ok(ns0, hf0, g0, i));
    assert(i < edges_at(ns0, hf0, g0, ru).len());
    assert(edge_ok(ns0, hf0, g0, ru, i));
    let eu = s1.rank_edges(ru)[i];
    let r2u = ru + eu.span;
    assert(r2u <= n0 + 1);
    if i <= tlevel {
        assert(i < edges_at(ns0, hf0, g0, p).len());
        assert(edge_ok(ns0, hf0, g0, p, i));
    }

    // Lengths of the old configuration agree with the new one off `p`.
    assert forall|q: int| 0 <= q <= n0 && q != p implies (#[trigger] s1.rank_edges(q)).len()
        == edges_at(ns, hf, g1, if q < p { q } else { q - 1 }).len() by {
        if q == 0 {
        } else if q < p {
            assert(edges_at(ns, hf, g1, q).len() == s1.rank_edges(q).len());
        } else {
            assert(edges_at(ns, hf, g1, q - 1).len() == s1.rank_edges(q).len());
        }
    };

    assert forall|r: int|
        0 <= r <= g1.len() && i < (#[trigger] edges_at(ns, hf, g1, r)).len() implies edge_ok(
        ns,
        hf,
        g1,
        r,
        i,
    ) by {
        let e = edges_at(ns, hf, g1, r)[i];
        if r == ru && i <= tlevel {
            // The update node inherits the removed node's edge.
            let et = s1.rank_edges(p)[i];
            let r2t = p + et.span;
            assert(r2t <= n0 + 1);
            assert(e.dst == et.dst && e.span == eu.span + et.span - 1);
            assert(e.span >= 1);
            let r2 = ru + e.span;
            assert(r2 == r2t - 1);
            assert(r2 <= g1.len() + 1);
            if r2t == n0 + 1 {
                assert(e.dst == TAIL);
            } else {
                assert(e.dst == g0[r2t - 1]);
                assert(g1[r2t - 2] == g0[r2t - 1]);
                assert(i < s1.rank_edges(r2t).len());
                assert(edges_at(ns, hf, g1, r2t - 1).len() == s1.rank_edges(r2t).len());
            }
            assert forall|q: int| ru < q < r2 && 1 <= q <= g1.len() implies (#[trigger] edges_at(
                ns,
                hf,
                g1,
                q,
            ).len()) <= i by {
                if q < p {
                    assert(ru < q < r2u);
                    assert(s1.rank_edges(q).len() <= i);
                    assert(edges_at(ns, hf, g1, q).len() == s1.rank_edges(q).len());
                } else {
                    assert(p < q + 1 < r2t);
                    assert(s1.rank_edges(q + 1).len() <= i);
                    assert(edges_at(ns, hf, g1, q).len() == s1.rank_edges(q + 1).len());
                }
            };
        } else if r == ru {
            // Above the removed node's levels: one step less of span.
            assert(e.dst == eu.dst && e.span == eu.span - 1);
            assert(r2u > p);
            assert(e.span >= 1);
            let r2 = ru + e.span;
            assert(r2 == r2u - 1);
            if r2u == n0 + 1 {
                assert(e.dst == TAIL);
            } else {
                assert(e.dst == g0[r2u - 1]);
                assert(g1[r2u - 2] == g0[r2u - 1]);
                assert(i < s1.rank_edges(r2u).len());
                assert(edges_at(ns, hf, g1, r2u - 1).len() == s1.rank_edges(r2u).len());
            }
            assert forall|q: int| ru < q < r2 && 1 <= q <= g1.len() implies (#[trigger] edges_at(
                ns,
                hf,
                g1,
                q,
            ).len()) <= i by {
                if q < p {
                    assert(ru < q < r2u);
                    assert(s1.rank_edges(q).len() <= i);
                    assert(edges_at(ns, hf, g1, q).len() == s1.rank_edges(q).len());
                } else {
                    assert(ru < q + 1 < r2u);
                    assert(s1.rank_edges(q + 1).len() <= i);
                    assert(edges_at(ns, hf, g1, q).len() == s1.rank_edges(q + 1).len());
                }
            };
        } else {
            // Any other participant of the level: untouched, possibly
            // shifted one rank down; its edge cannot reach past the removed
            // rank, because the update node is the unique participant whose
            // successor lies at or past it.
            let ro = if r < p {
                r
            } else {
                r + 1
            };
            assert(e == s1.rank_edges(ro)[i]);
            assert(i < s1.rank_edges(ro).len());
            assert(edge_ok(ns0, hf0, g0, ro, i));
            let r2o = ro + e.span;
            assert(r2o <= n0 + 1);
            assert(ro != ru && ro != p);
            if ro < p && r2o == p {
                assert(i < s1.rank_edges(p).len());
                assert(i <= tlevel);
                assert(r2u == p);
                if ro < ru {
                    assert(ro < ru < r2o);
                    assert(s1.rank_edges(ru).len() <= i);
                } else {
                    assert(ru < ro < r2u);
                    assert(s1.rank_edges(ro).len() <= i);
                }
                assert(false);
            }
            if ro < p && p < r2o {
                if i <= tlevel {
                    assert(ro < p < r2o);
                    assert(s1.rank_edges(p).len() <= i);
                    assert(false);
                } else {
                    assert(r2u > p);
                    if ro < ru {
                        assert(ro < ru < r2o);
                        assert(s1.rank_edges(ru).len() <= i);
                    } else {
                        assert(ru < ro < r2u);
                        assert(s1.rank_edges(ro).len() <= i);
                    }
                    assert(false);
                }
            }
            if r2o < p {
                // entirely before the removed rank
                assert(r == ro);
                assert(e.span >= 1);
                assert(r + e.span == r2o <= g1.len());
                assert(e.dst == g0[r2o - 1]);
                assert(g1[r2o - 1] == g0[r2o - 1]);
                assert(i < s1.rank_edges(r2o).len());
                assert(edges_at(ns, hf, g1, r2o).len() == s1.rank_edges(r2o).len());
                assert forall|q: int| r < q < r2o && 1 <= q <= g1.len() implies (
                #[trigger] edges_at(ns, hf, g1, q).len()) <= i by {
                    assert(ro < q < r2o);
                    assert(edges_at(ns, hf, g1, q).len() == s1.rank_edges(q).len());
                };
            } else {
                // entirely past it: both ends shift one rank down
                assert(ro > p);
                assert(r == ro - 1);
                let r2 = r + e.span;
                assert(r2 == r2o - 1);
                if r2o == n0 + 1 {
                    assert(e.dst == TAIL);
                } else {
                    assert(e.dst == g0[r2o - 1]);
                    assert(g1[r2o - 2] == g0[r2o - 1]);
                    assert(i < s1.rank_edges(r2o).len());
                    assert(edges_at(ns, hf, g1, r2o - 1).len() == s1.rank_edges(r2o).len());
                }
                assert forall|q: int| r < q < r2 && 1 <= q <= g1.len() implies (
                #[trigger] edges_at(ns, hf, g1, q).len()) <= i by {
                    assert(ro < q + 1 < r2o);
                    assert(edges_at(ns, hf, g1, q).len() == s1.rank_edges(q + 1).len());
                };
            }
        }
    };
}

impl<V> SkipList<V> {
    /// Take a key's entry out. The carrying node is spliced out of every
    /// level, head levels that then run straight to the tail are dropped,
    /// the node's slot returns to the free list, and its value is handed
    /// back; an absent key leaves the container exactly as it was.
    #[verifier::rlimit(100)]
    pub fn remove(&mut self, key: &i64) -> (r: Option<V>)
        requires
            old(self).wf(),
        ensures
            final(self).wf(),
            has_key(old(self)@, *key) ==> {
                let ki = key_index(old(self)@, *key);
                &&& r == Some(old(self)@[ki].1)
                &&& final(self)@ == old(self)@.remove(ki)
                &&& final(self)@.len() == old(self)@.len() - 1
            },
            !has_key(old(self)@, *key) ==> r is None && *final(self) == *old(self),
    {
        let ghost s1 = *self;
        let (update, steps) = self.find_update(*key);
        let step = steps[0];
        proof {
            s1.lemma_frontier(*key, update@, steps@);
            assert(s1.update_post(*key, update@, steps@, 0));
            assert(handle_edges(s1.nodes@, s1.head_forward@, update@[0]) == s1.rank_edges(
                step as int,
            ));
            crate::lemma_level0_step(s1.nodes@, s1.head_forward@, s1.order@, step as int);
        }
        let u0 = update[0];
        let e0 = self.get_edge(u0, 0);
        if e0.dst == TAIL {
            proof {
                assert(step == s1.g().len());
                assert(!has_key(s1@, *key));
            }
            return None;
        }
        let a_t = e0.dst;
        proof {
            assert(e0 == s1.rank_edges(step as int)[0]);
            assert(a_t == s1.order@[step as int]);
        }
        let nk = self.key_of(a_t);
        if nk != *key {
            proof {
                assert(nk == s1.rank_key(step + 1));
                assert(!has_key(s1@, *key));
            }
            return None;
        }
        let tlevel = self.level_of(a_t);
        let ghost g0 = s1.order@;
        let ghost p: int = step as int + 1;
        proof {
            assert(has_key(s1@, *key));
            assert(key_index(s1@, *key) == step as int);
            assert(crate::node_at(s1.nodes@, g0, p) == s1.nodes@[a_t as int].unwrap());
            assert(s1.rank_edges(p).len() == tlevel + 1);
            assert(tlevel < s1.head_forward@.len());
        }
        self.order = Ghost(g0.remove(step as int));
        let ghost g1 = self.order@;

        proof {
            g0.remove_ensures(step as int);
            assert forall|j: int| 0 <= j < g1.len() implies (#[trigger] g1[j]) == (if j < p - 1 {
                g0[j]
            } else {
                g0[j + 1]
            }) by {};
            assert(g1.no_duplicates()) by {
                assert forall|x: int, y: int| 0 <= x < y < g1.len() implies g1[x] != g1[y] by {
                    let xo = if x < p - 1 {
                        x
                    } else {
                        x + 1
                    };
                    let yo = if y < p - 1 {
                        y
                    } else {
                        y + 1
                    };
                    assert(g1[x] == g0[xo] && g1[y] == g0[yo]);
                    assert(xo < yo);
                };
            };
            assert(crate::arena_ok(self.nodes@, g1)) by {
                assert forall|j: int| 0 <= j < g1.len() implies (#[trigger] g1[j])
                    < self.nodes@.len() && self.nodes@[g1[j] as int] is Some by {
                    let jo = if j < p - 1 {
                        j
                    } else {
                        j + 1
                    };
                    assert(g1[j] == g0[jo]);
                    assert(g0[jo] < s1.nodes@.len() && s1.nodes@[g0[jo] as int] is Some);
                };
            };
            assert(same_shape(self.nodes@, s1.nodes@));
            assert(low_edges_eq(
                self.nodes@,
                self.head_forward@,
                s1.nodes@,
                s1.head_forward@,
                s1.level + 1,
            ));
        }

        // Splice the node out of the levels, from the top down.
        let lv1 = self.level + 1;
        let mut i: usize = lv1;
        while i > 0
            invariant
                s1.wf(),
                i <= lv1,
                lv1 == s1.level + 1,
                step < s1.order@.len(),
                g0 == s1.order@,
                p == step as int + 1,
                g1 == g0.remove(step as int),
                s1.order@[step as int] == a_t,
                s1.nodes@[a_t as int].unwrap().level == tlevel,
                s1.rank_edges(p).len() == tlevel + 1,
                tlevel <= s1.level,
                update@.len() == lv1,
                steps@.len() == lv1,
                forall|j: int| 0 <= j <= s1.level ==> s1.update_post(*key, update@, steps@, j),
                forall|rr: int| 1 <= rr <= s1.g().len() && rr <= step ==> s1.rank_key(rr) < *key,
                s1.rank_key(p) == *key,
                self.level == s1.level,
                self.len == s1.len,
                self.free == s1.free,
                self.order@ == g1,
                self.head_forward@.len() == lv1,
                same_shape(self.nodes@, s1.nodes@),
                low_edges_eq(
                    self.nodes@,
                    self.head_forward@,
                    s1.nodes@,
                    s1.head_forward@,
                    i as int,
                ),
                forall|lvl: int|
                    i <= lvl < lv1 ==> #[trigger] level_ok(
                        self.nodes@,
                        self.head_forward@,
                        g1,
                        lvl,
                    ),
            decreases i,
        {
            i = i - 1;
            let u = update[i];
            let ru = steps[i];
            proof {
                assert(s1.update_post(*key, update@, steps@, i as int));
                assert(i < (edges_at(s1.nodes@, s1.head_forward@, g0, ru as int)).len());
                assert(level_ok(s1.nodes@, s1.head_forward@, g0, i as int));
                assert(edge_ok(s1.nodes@, s1.head_forward@, g0, ru as int, i as int));
                assert(ru <= step) by {
                    if ru > step {
                        assert(s1.rank_key(ru as int) >= *key) by {
                            if ru as int > p {
                                assert(s1.rank_key(p) < s1.rank_key(ru as int));
                            }
                        };
                    }
                };
                let r2u = ru as int + s1.rank_edges(ru as int)[i as int].span;
                assert(r2u >= p) by {
                    if r2u < p {
                        assert(1 <= r2u <= step);
                        assert(s1.rank_key(r2u) < *key);
                        assert(r2u == s1.g().len() + 1 || s1.rank_key(r2u) >= *key);
                    }
                };
                if i <= tlevel {
                    assert(r2u == p) by {
                        if r2u > p {
                            assert((ru as int) < p && p < r2u);
                            assert(edges_at(s1.nodes@, s1.head_forward@, g0, p).len() <= i);
                        }
                    };
                } else {
                    assert(r2u > p) by {
                        if r2u == p {
                            assert(edges_at(s1.nodes@, s1.head_forward@, g0, p).len() > i);
                        }
                    };
                }
            }
            self.unsplice_level(i, u, ru, step, a_t, tlevel, Ghost(s1));
        }

        proof {
            g0.remove_ensures(step as int);
            assert forall|rr: int| 1 <= rr <= g1.len() implies (#[trigger] g1[rr - 1]) == g0[(if rr
                < p {
                rr
            } else {
                rr + 1
            }) - 1] by {};
            assert(crate::arena_ok(s1.nodes@, g1)) by {
                assert forall|j: int| 0 <= j < g1.len() implies (#[trigger] g1[j])
                    < s1.nodes@.len() && s1.nodes@[g1[j] as int] is Some by {
                    let jo = if j < p - 1 {
                        j
                    } else {
                        j + 1
                    };
                    assert(g1[j] == g0[jo]);
                    assert(g0[jo] < s1.nodes@.len() && s1.nodes@[g0[jo] as int] is Some);
                };
            };
            assert(crate::sorted_ok(s1.nodes@, g1)) by {
                assert forall|r1: int, r2: int| 1 <= r1 < r2 <= g1.len() implies #[trigger] key_at(
                    s1.nodes@,
                    g1,
                    r1,
                ) < #[trigger] key_at(s1.nodes@, g1, r2) by {
                    let ro1 = if r1 < p {
                        r1
                    } else {
                        r1 + 1
                    };
                    let ro2 = if r2 < p {
                        r2
                    } else {
                        r2 + 1
                    };
                    assert(g1[r1 - 1] == g0[ro1 - 1] && g1[r2 - 1] == g0[ro2 - 1]);
                    assert(key_at(s1.nodes@, g0, ro1) < key_at(s1.nodes@, g0, ro2));
                };
            };
            assert(crate::node_levels_ok(s1.nodes@, s1.head_forward@, g1)) by {
                assert forall|rr: int| 1 <= rr <= g1.len() implies {
                    let n = #[trigger] crate::node_at(s1.nodes@, g1, rr);
                    n.forward@.len() == n.level + 1 && n.forward@.len()
                        <= s1.head_forward@.len()
                } by {
                    let ro = if rr < p {
                        rr
                    } else {
                        rr + 1
                    };
                    assert(g1[rr - 1] == g0[ro - 1]);
                    let n0 = crate::node_at(s1.nodes@, g0, ro);
                    assert(n0.forward@.len() == n0.level + 1 && n0.forward@.len()
                        <= s1.head_forward@.len());
                };
            };
            lemma_same_shape_props(
                self.nodes@,
                self.head_forward@,
                s1.nodes@,
                s1.head_forward@,
                g1,
                Seq::empty(),
            );
            assert(crate::node_levels_ok(self.nodes@, self.head_forward@, g1)) by {
                assert forall|rr: int| 1 <= rr <= g1.len() implies {
                    let n = #[trigger] crate::node_at(self.nodes@, g1, rr);
                    n.forward@.len() == n.level + 1 && n.forward@.len()
                        <= self.head_forward@.len()
                } by {
                    let ro = if rr < p {
                        rr
                    } else {
                        rr + 1
                    };
                    assert(g1[rr - 1] == g0[ro - 1]);
                    let sl = g1[rr - 1] as int;
                    let n1 = self.nodes@[sl].unwrap();
                    let n2 = s1.nodes@[sl].unwrap();
                    assert(n1.level == n2.level && n1.forward@.len() == n2.forward@.len());
                    let n0 = crate::node_at(s1.nodes@, g0, ro);
                    assert(n0.forward@.len() == n0.level + 1 && n0.forward@.len()
                        <= s1.head_forward@.len());
                };
            };
            assert(crate::links_ok(self.nodes@, self.head_forward@, g1));
            assert(crate::wf_parts(self.nodes@, self.head_forward@, g1));
        }

        // Collapse head levels that run straight to the tail.
        let ghost sc = *self;
        while self.level > 0
            invariant
                crate::wf_parts(self.nodes@, self.head_forward@, g1),
                self.head_forward@.len() == self.level + 1,
                self.level <= s1.level,
                self.nodes@ == sc.nodes@,
                self.order@ == g1,
                self.free == sc.free,
                self.len == sc.len,
            decreases self.level,
        {
            let e = self.get_edge(Handle::Head, self.level);
            if e.dst != TAIL {
                break;
            }
            proof {
                lemma_shrink_head(self.nodes@, self.head_forward@, g1);
            }
            self.head_forward.pop();
            self.level = self.level - 1;
        }

        // Free the slot and hand the value back.
        let ghost s3 = *self;
        let slot = &mut self.nodes[a_t];
        let taken = slot.take();
        self.free.push(a_t);
        self.len = self.len - 1;
        proof {
            assert(forall|j: int| 0 <= j < g1.len() ==> (#[trigger] g1[j]) != a_t);
            lemma_untracked_write_wf(s3.nodes@, self.nodes@, self.head_forward@, g1, a_t as int);
            assert(crate::free_ok(self.nodes@, self.free@) && self.free@.no_duplicates()) by {
                assert forall|j: int|
                    0 <= j < self.free@.len() implies (#[trigger] self.free@[j])
                    < self.nodes@.len() && self.nodes@[self.free@[j] as int] is None by {
                    if j < s3.free@.len() {
                        assert(self.free@[j] == s3.free@[j]);
                        assert(s3.free@[j] < s3.nodes@.len() && s3.nodes@[s3.free@[j] as int]
                            is None);
                        assert(s3.free@[j] != a_t);
                    } else {
                        assert(self.free@[j] == a_t);
                    }
                };
                assert forall|x: int, y: int| 0 <= x < y < self.free@.len() implies self.free@[x]
                    != self.free@[y] by {
                    if y < s3.free@.len() {
                        assert(self.free@[x] == s3.free@[x] && self.free@[y] == s3.free@[y]);
                    } else {
                        assert(self.free@[y] == a_t);
                        assert(self.free@[x] == s3.free@[x]);
                        assert(s3.nodes@[s3.free@[x] as int] is None);
                        assert(s3.nodes@[a_t as int] is Some);
                    }
                };
            };
            assert(self.wf());
            let ghost ki = key_index(old(self)@, *key);
            assert(ki == step as int);
            old(self)@.remove_ensures(ki);
            assert forall|j: int| 0 <= j < self@.len() implies #[trigger] self@[j] == old(
                self,
            )@.remove(ki)[j] by {
                assert(self@[j] == (key_at(self.nodes@, g1, j + 1), val_at(
                    self.nodes@,
                    g1,
                    j + 1,
                )));
                assert(key_at(self.nodes@, g1, j + 1) == key_at(s3.nodes@, g1, j + 1) && val_at(
                    self.nodes@,
                    g1,
                    j + 1,
                ) == val_at(s3.nodes@, g1, j + 1));
                assert(key_at(s3.nodes@, g1, j + 1) == key_at(s1.nodes@, g1, j + 1) && val_at(
                    s3.nodes@,
                    g1,
                    j + 1,
                ) == val_at(s1.nodes@, g1, j + 1));
                let ro = if j + 1 < p {
                    j + 1
                } else {
                    j + 2
                };
                assert(g1[j] == g0[ro - 1]);
                assert(s1@[ro - 1] == (s1.rank_key(ro), s1.rank_val(ro)));
            };
            assert(self@ =~= old(self)@.remove(ki));
            assert(taken is Some);
            assert(taken.unwrap().value == s1.rank_val(p));
            assert(old(self)@[ki].1 == s1.rank_val(p));
        }
        match taken {
            Some(n) => Some(n.value),
            None => unreached(),
        }
    }

    /// One level of the splice-out: merge the removed node's edge into the
    /// update node's (when the level is within the removed node's), or
    /// shorten the update node's span by one, leaving every level at or
    /// above this one sound for the shortened order and everything below
    /// untouched.
    #[verifier::rlimit(100)]
    fn unsplice_level(
        &mut self,
        i: usize,
        u: Handle,
        ru: usize,
        step: usize,
        a_t: usize,
        tlevel: usize,
        Ghost(s1): Ghost<SkipList<V>>,
    )
        requires
            s1.wf(),
            step < s1.order@.len(),
            s1.order@[step as int] == a_t,
            s1.nodes@[a_t as int].unwrap().level == tlevel,
            s1.rank_edges(step as int + 1).len() == tlevel + 1,
            i <= s1.level,
            ru <= step,
            handle_at_rank(s1.order@, u, ru as int),
            i < s1.rank_edges(ru as int).len(),
            edge_ok(s1.nodes@, s1.head_forward@, s1.order@, ru as int, i as int),
            i <= tlevel ==> ru as int + s1.rank_edges(ru as int)[i as int].span == step as int
                + 1,
            i > tlevel ==> ru as int + s1.rank_edges(ru as int)[i as int].span > step as int + 1,
            old(self).level == s1.level,
            old(self).len == s1.len,
            old(self).free == s1.free,
            old(self).order@ == s1.order@.remove(step as int),
            old(self).head_forward@.len() == s1.level + 1,
            same_shape(old(self).nodes@, s1.nodes@),
            low_edges_eq(
                old(self).nodes@,
                old(self).head_forward@,
                s1.nodes@,
                s1.head_forward@,
                i + 1,
            ),
            forall|lvl: int|
                i < lvl < s1.level + 1 ==> #[trigger] level_ok(
                    old(self).nodes@,
                    old(self).head_forward@,
                    old(self).order@,
                    lvl,
                ),
        ensures
            final(self).level == s1.level,
            final(self).len == s1.len,
            final(self).free == s1.free,
            final(self).order@ == old(self).order@,
            final(self).head_forward@.len() == s1.level + 1,
            same_shape(final(self).nodes@, s1.nodes@),
            low_edges_eq(
                final(self).nodes@,
                final(self).head_forward@,
                s1.nodes@,
                s1.head_forward@,
                i as int,
            ),
            forall|lvl: int|
                i <= lvl < s1.level + 1 ==> #[trigger] level_ok(
                    final(self).nodes@,
                    final(self).head_forward@,
                    final(self).order@,
                    lvl,
                ),
    {
        let ghost sa = *old(self);
        let ghost g0 = s1.order@;
        let ghost g1 = old(self).order@;
        let ghost p: int = step as int + 1;
        let ghost lv1: int = s1.level + 1;
        proof {
            g0.remove_ensures(step as int);
            assert(forall|j: int|
                0 <= j < g1.len() ==> (#[trigger] g1[j]) == (if j < p - 1 {
                    g0[j]
                } else {
                    g0[j + 1]
                }));
            assert forall|j: int| 0 <= j < g1.len() implies (#[trigger] g1[j]) != a_t by {
                if j < p - 1 {
                    assert(g0[j] != g0[p - 1]);
                } else {
                    assert(g0[j + 1] != g0[p - 1]);
                }
            };
            // reading the update node's edge gives its value in s1
            match u {
                Handle::Head => {
                    assert(self.head_forward@.len() == s1.head_forward@.len());
                    assert(self.head_forward@[i as int] == s1.head_forward@[i as int]);
                },
                Handle::At(x) => {
                    assert(x == g0[ru - 1]);
                    assert(x < s1.nodes@.len());
                    assert(self.nodes@[x as int].unwrap().forward@.len() == s1.nodes@[x
                        as int].unwrap().forward@.len());
                    assert(self.nodes@[x as int].unwrap().forward@[i as int] == s1.nodes@[x
                        as int].unwrap().forward@[i as int]);
                },
            }
            assert(handle_ok(self.nodes@, u));
            assert(handle_edges(self.nodes@, self.head_forward@, u)[i as int] == s1.rank_edges(
                ru as int,
            )[i as int]);
            assert(handle_edges(self.nodes@, self.head_forward@, u).len() == s1.rank_edges(
                ru as int,
            ).len());
        }
        let ue = self.get_edge(u, i);
        if i <= tlevel {
            proof {
                assert(handle_ok(self.nodes@, Handle::At(a_t)));
                assert(self.nodes@[a_t as int].unwrap().forward@.len() == s1.rank_edges(p).len());
                assert(self.nodes@[a_t as int].unwrap().forward@[i as int] == s1.rank_edges(
                    p,
                )[i as int]);
                assert(edge_ok(s1.nodes@, s1.head_forward@, g0, p, i as int)) by {
                    assert(level_ok(s1.nodes@, s1.head_forward@, g0, i as int));
                };
                assert(ue.span >= 1);
                assert(p + s1.rank_edges(p)[i as int].span <= g0.len() + 1);
            }
            let te = self.get_edge(Handle::At(a_t), i);
            self.set_edge(u, i, Edge { dst: te.dst, span: ue.span - 1 + te.span });
        } else {
            proof {
                assert(ue.span >= 2);
            }
            self.set_edge(u, i, Edge { dst: ue.dst, span: ue.span - 1 });
        }
        proof {
            let ns = self.nodes@;
            let hf = self.head_forward@;
            // shape and low levels are as they were
            assert(same_shape(ns, s1.nodes@)) by {
                assert forall|j: int| 0 <= j < s1.nodes@.len() implies ((#[trigger] ns[j]) is Some
                    <==> s1.nodes@[j] is Some) by {
                    assert(sa.nodes@[j] is Some <==> s1.nodes@[j] is Some);
                };
                assert forall|j: int| 0 <= j < s1.nodes@.len() && s1.nodes@[j] is Some implies {
                    let n1 = (#[trigger] ns[j]).unwrap();
                    let n2 = s1.nodes@[j].unwrap();
                    &&& n1.key == n2.key
                    &&& n1.value == n2.value
                    &&& n1.level == n2.level
                    &&& n1.forward@.len() == n2.forward@.len()
                } by {
                    let na = sa.nodes@[j].unwrap();
                    let n2 = s1.nodes@[j].unwrap();
                    assert(na.key == n2.key && na.value == n2.value && na.level == n2.level
                        && na.forward@.len() == n2.forward@.len());
                };
            };
            assert(low_edges_eq(ns, hf, s1.nodes@, s1.head_forward@, i as int)) by {
                assert forall|lvl: int|
                    0 <= lvl < i && lvl < s1.head_forward@.len() implies hf[lvl]
                    == s1.head_forward@[lvl] by {
                    assert(sa.head_forward@[lvl] == s1.head_forward@[lvl]);
                };
                assert forall|j: int, lvl: int|
                    0 <= j < s1.nodes@.len() && s1.nodes@[j] is Some && 0 <= lvl < i && lvl
                        < s1.nodes@[j].unwrap().forward@.len() implies (#[trigger] ns[j]
                        .unwrap()
                        .forward@[lvl]) == s1.nodes@[j].unwrap().forward@[lvl] by {
                    assert(sa.nodes@[j].unwrap().forward@[lvl] == s1.nodes@[j]
                        .unwrap()
                        .forward@[lvl]);
                };
            };
            // edge lengths across the shortened order
            assert forall|q: int|
                1 <= q <= g1.len() implies (#[trigger] edges_at(ns, hf, g1, q)).len()
                == s1.rank_edges(
                if q < p {
                    q
                } else {
                    q + 1
                },
            ).len() by {
                let qo = if q < p {
                    q
                } else {
                    q + 1
                };
                let sl = g1[q - 1] as int;
                assert(g1[q - 1] == g0[qo - 1]);
                assert(ns[sl].unwrap().forward@.len() == s1.nodes@[sl].unwrap().forward@.len());
            };
            // the edge this iteration wrote, and those it did not touch
            let ghost eu = s1.rank_edges(ru as int)[i as int];
            if i <= tlevel {
                assert(edges_at(ns, hf, g1, ru as int)[i as int].dst == s1.rank_edges(
                    p,
                )[i as int].dst);
                assert(edges_at(ns, hf, g1, ru as int)[i as int].span == eu.span + s1.rank_edges(
                    p,
                )[i as int].span - 1);
            } else {
                assert(edges_at(ns, hf, g1, ru as int)[i as int].dst == eu.dst);
                assert(edges_at(ns, hf, g1, ru as int)[i as int].span == eu.span - 1);
            }
            assert forall|rr: int|
                0 <= rr <= g1.len() && rr != ru && i < (#[trigger] edges_at(
                    ns,
                    hf,
                    g1,
                    rr,
                )).len() implies edges_at(ns, hf, g1, rr)[i as int] == s1.rank_edges(
                if rr < p {
                    rr
                } else {
                    rr + 1
                },
            )[i as int] by {
                let ro = if rr < p {
                    rr
                } else {
                    rr + 1
                };
                if rr == 0 {
                    assert(hf[i as int] == sa.head_forward@[i as int]);
                    assert(sa.head_forward@[i as int] == s1.head_forward@[i as int]);
                } else {
                    let sl = g1[rr - 1] as int;
                    assert(g1[rr - 1] == g0[ro - 1]);
                    assert(match u {
                        Handle::Head => true,
                        Handle::At(x) => sl != x,
                    }) by {
                        match u {
                            Handle::Head => {},
                            Handle::At(x) => {
                                assert(x == g0[ru - 1]);
                                assert(ro != ru);
                            },
                        }
                    };
                    assert(ns[sl].unwrap().forward@[i as int] == sa.nodes@[sl]
                        .unwrap()
                        .forward@[i as int]);
                    assert(sa.nodes@[sl].unwrap().forward@[i as int] == s1.nodes@[sl]
                        .unwrap()
                        .forward@[i as int]);
                }
            };
            lemma_remove_fix_level(s1, ns, hf, g1, p, tlevel as int, i as int, ru as int);
            // levels already repaired stay repaired
            assert forall|lvl: int| i < lvl < lv1 implies #[trigger] level_ok(ns, hf, g1, lvl) by {
                assert(level_ok(sa.nodes@, sa.head_forward@, g1, lvl));
                assert forall|rr: int|
                    0 <= rr <= g1.len() implies (#[trigger] edges_at(ns, hf, g1, rr)).len()
                    == edges_at(sa.nodes@, sa.head_forward@, g1, rr).len() by {
                    if rr > 0 {
                        let sl = g1[rr - 1] as int;
                        assert(ns[sl].unwrap().forward@.len() == sa.nodes@[sl]
                            .unwrap()
                            .forward@.len());
                    }
                };
                assert forall|rr: int|
                    0 <= rr <= g1.len() && lvl < edges_at(
                        sa.nodes@,
                        sa.head_forward@,
                        g1,
                        rr,
                    ).len() implies (#[trigger] edges_at(ns, hf, g1, rr))[lvl] == edges_at(
                    sa.nodes@,
                    sa.head_forward@,
                    g1,
                    rr,
                )[lvl] by {
                    if rr == 0 {
                        assert(hf[lvl] == sa.head_forward@[lvl]);
                    } else {
                        let sl = g1[rr - 1] as int;
                        assert(ns[sl].unwrap().forward@[lvl] == sa.nodes@[sl]
                            .unwrap()
                            .forward@[lvl]);
                    }
                };
                lemma_level_frame(sa.nodes@, sa.head_forward@, ns, hf, g1, lvl);
            };
        }
    }
}

} // verus!
