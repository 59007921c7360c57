//! Insertion: draw a level, raise the head if the draw exceeds the current
//! top, locate the key, and either replace the value in place or splice a
//! fresh node into every level it takes part in, bumping the spans of the
//! levels it does not.

use vstd::prelude::*;

use crate::lemmas::{
    lemma_grow_head, lemma_level_frame, lemma_same_shape_props, lemma_value_write_wf,
    low_edges_eq, same_shape,
};
use crate::{
    edge_ok, edges_at, handle_at_rank, handle_edges, handle_ok, has_key, key_at, key_index,
    level_ok, node_at, rank_below, val_at, Edge, Handle, Node, SkipList, MAX_LEVEL, TAIL,
};

verus! {

/// The rewired configuration is sound at level `i` once this iteration's
/// writes are in place: the freshly inserted rank `p` (when it takes part
/// in the level) points where the update node used to, the update node
/// points at it, a skipped-over level keeps its destination with one more
/// step of span, and every other edge of the level is untouched and merely
/// shifts rank.
proof fn lemma_insert_fix_level<V>(
    s1: SkipList<V>,
    ns: Seq<Option<Node<V>>>,
    hf: Seq<Edge>,
    g1: Seq<usize>,
    a_new: usize,
    p: int,
    drawn: int,
    i: int,
    ru: int,
)
    requires
        s1.wf(),
        g1 == s1.order@.insert(p - 1, a_new),
        1 <= p <= s1.order@.len() + 1,
        forall|j: int| 0 <= j < s1.order@.len() ==> (#[trigger] s1.order@[j]) != a_new,
        0 <= i <= s1.level,
        0 <= drawn <= s1.level,
        0 <= ru <= s1.order@.len(),
        i < s1.rank_edges(ru).len(),
        ru < p,
        p <= ru + s1.rank_edges(ru)[i].span,
        hf.len() == s1.head_forward@.len(),
        forall|q: int|
            1 <= q <= g1.len() ==> (#[trigger] edges_at(ns, hf, g1, q)).len() as int == (if q == p {
                drawn + 1
            } else if q < p {
                s1.rank_edges(q).len() as int
            } else {
                s1.rank_edges(q - 1).len() as int
            }),
        i <= drawn ==> {
            &&& edges_at(ns, hf, g1, p)[i].dst == s1.rank_edges(ru)[i].dst
            &&& edges_at(ns, hf, g1, p)[i].span == ru + s1.rank_edges(ru)[i].span + 1 - p
            &&& edges_at(ns, hf, g1, ru)[i].dst == a_new
            &&& edges_at(ns, hf, g1, ru)[i].span == p - ru
        },
        i > drawn ==> {
            &&& edges_at(ns, hf, g1, ru)[i].dst == s1.rank_edges(ru)[i].dst
            &&& edges_at(ns, hf, g1, ru)[i].span == s1.rank_edges(ru)[i].span + 1
        },
        forall|r: int|
            0 <= r <= g1.len() && r != p && r != ru && i < (#[trigger] edges_at(
                ns,
                hf,
                g1,
                r,
            )).len() ==> edges_at(ns, hf, g1, r)[i] == s1.rank_edges(
                if r < p {
                    r
                } else {
                    r - 1
                },
            )[i],
    ensures
        level_ok(ns, hf, g1, i),
{
    let g0 = s1.order@;
    let ns0 = s1.nodes@;
    let hf0 = s1.head_forward@;
    g0.insert_ensures(p - 1, a_new);
    assert(g1.len() == g0.len() + 1);
    assert(level_ok(ns0, hf0, g0, i));
    assert(edge_ok(ns0, hf0, g0, ru, i));
    let eu = s1.rank_edges(ru)[i];
    let r2u = ru + eu.span;
    assert(r2u <= g0.len() + 1);

    // Lengths of the old configuration agree with the new one off `p`.
    assert forall|q: int| 0 <= q <= g0.len() implies (#[trigger] s1.rank_edges(q)).len()
        == edges_at(ns, hf, g1, if q < p { q } else { q + 1 }).len() by {
        if q == 0 {
        } else if q < p {
            assert(edges_at(ns, hf, g1, q).len() == s1.rank_edges(q).len());
        } else {
            assert(edges_at(ns, hf, g1, q + 1).len() == s1.rank_edges(q).len());
        }
    };

    assert forall|r: int|
        0 <= r <= g1.len() && i < (#[trigger] edges_at(ns, hf, g1, r)).len() implies edge_ok(
        ns,
        hf,
        g1,
        r,
        i,
    ) by {
        let e = edges_at(ns, hf, g1, r)[i];
        if r == p && i <= drawn {
            // The fresh node's own edge: to the update node's old target.
            assert(e.dst == eu.dst && e.span == r2u + 1 - p);
            assert(e.span >= 1);
            if r2u == g0.len() + 1 {
                assert(e.dst == TAIL);
                assert(p + e.span == g1.len() + 1);
            } else {
                assert(e.dst == g0[r2u - 1]);
                assert(g1[r2u] == g0[r2u - 1]);
                assert(i < s1.rank_edges(r2u).len());
                assert(edges_at(ns, hf, g1, r2u + 1).len() == s1.rank_edges(r2u).len());
            }
            assert forall|q: int| p < q < p + e.span && 1 <= q <= g1.len() implies (
            #[trigger] edges_at(ns, hf, g1, q).len()) <= i by {
                let qo = q - 1;
                assert(ru < qo < r2u);
                assert(s1.rank_edges(qo).len() <= i);
                assert(edges_at(ns, hf, g1, q).len() == s1.rank_edges(qo).len());
            };
        } else if r == p {
            // i > drawn: the fresh node does not take part in this level.
            assert(edges_at(ns, hf, g1, p).len() == drawn + 1);
            assert(false);
        } else if r == ru && i <= drawn {
            // The update node now points at the fresh node.
            assert(e.dst == a_new && e.span == p - ru);
            assert(e.span >= 1);
            assert(g1[p - 1] == a_new);
            assert(edges_at(ns, hf, g1, p).len() == drawn + 1 > i);
            assert forall|q: int| ru < q < p && 1 <= q <= g1.len() implies (#[trigger] edges_at(
                ns,
                hf,
                g1,
                q,
            ).len()) <= i by {
                assert(ru < q < r2u);
                assert(s1.rank_edges(q).len() <= i);
                assert(edges_at(ns, hf, g1, q).len() == s1.rank_edges(q).len());
            };
        } else if r == ru {
            // i > drawn: same target, one more step of span.
            assert(e.dst == eu.dst && e.span == eu.span + 1);
            let r2 = ru + e.span;
            assert(r2 == r2u + 1);
            if r2u == g0.len() + 1 {
                assert(e.dst == TAIL);
            } else {
                assert(e.dst == g0[r2u - 1]);
                assert(g1[r2u] == g0[r2u - 1]);
                assert(i < s1.rank_edges(r2u).len());
                assert(edges_at(ns, hf, g1, r2u + 1).len() == s1.rank_edges(r2u).len());
            }
            assert forall|q: int| ru < q < r2 && 1 <= q <= g1.len() implies (#[trigger] edges_at(
                ns,
                hf,
                g1,
                q,
            ).len()) <= i by {
                if q == p {
                    assert(edges_at(ns, hf, g1, p).len() == drawn + 1);
                } else if q < p {
                    assert(ru < q < r2u);
                    assert(edges_at(ns, hf, g1, q).len() == s1.rank_edges(q).len());
                } else {
                    assert(ru < q - 1 < r2u);
                    assert(edges_at(ns, hf, g1, q).len() == s1.rank_edges(q - 1).len());
                }
            };
        } else {
            // Any other participant of the level: untouched, possibly
            // shifted one rank up; its edge cannot bridge the insertion
            // point, because the update node is the unique participant
            // whose successor lies past it.
            let ro = if r < p {
                r
            } else {
                r - 1
            };
            assert(e == s1.rank_edges(ro)[i]);
            assert(i < s1.rank_edges(ro).len());
            assert(edge_ok(ns0, hf0, g0, ro, i));
            let r2o = ro + e.span;
            assert(r2o <= g0.len() + 1);
            assert(ro != ru);
            // the edge does not bridge p:
            if ro < p && p <= r2o {
                if ro < ru {
                    assert(ro < ru < r2o);
                    assert(s1.rank_edges(ru).len() <= i);
                } else {
                    assert(ru < ro < r2u);
                    assert(s1.rank_edges(ro).len() <= i);
                }
                assert(false);
            }
            if r2o < p {
                // entirely before the insertion point
                assert(r == ro);
                assert(e.span >= 1);
                assert(r + e.span == r2o <= g1.len());
                assert(e.dst == g0[r2o - 1]);
                assert(g1[r2o - 1] == g0[r2o - 1]);
                assert(i < s1.rank_edges(r2o).len());
                assert(edges_at(ns, hf, g1, r2o).len() == s1.rank_edges(r2o).len());
                assert forall|q: int| r < q < r2o && 1 <= q <= g1.len() implies (
                #[trigger] edges_at(ns, hf, g1, q).len()) <= i by {
                    assert(ro < q < r2o);
                    assert(edges_at(ns, hf, g1, q).len() == s1.rank_edges(q).len());
                };
            } else {
                // entirely past it: both ends shift one rank up
                assert(ro >= p);
                assert(r == ro + 1);
                let r2 = r + e.span;
                assert(r2 == r2o + 1);
                if r2o == g0.len() + 1 {
                    assert(e.dst == TAIL);
                } else {
                    assert(e.dst == g0[r2o - 1]);
                    assert(g1[r2o] == g0[r2o - 1]);
                    assert(i < s1.rank_edges(r2o).len());
                    assert(edges_at(ns, hf, g1, r2o + 1).len() == s1.rank_edges(r2o).len());
                }
                assert forall|q: int| r < q < r2 && 1 <= q <= g1.len() implies (
                #[trigger] edges_at(ns, hf, g1, q).len()) <= i by {
                    assert(ro < q - 1 < r2o);
                    assert(edges_at(ns, hf, g1, q).len() == s1.rank_edges(q - 1).len());
                };
            }
        }
    };
}

impl<V> SkipList<V> {
    /// Relies on `rand::random::<bool>`: one flip of a fair coin from the
    /// process-wide generator; nothing is assumed of the outcome.
    #[verifier::external_body]
    fn coin() -> bool {
        rand::random::<bool>()
    }

    /// Map a key to a value. When the key is already present, the value is
    /// replaced in place and the prior one handed back: no node is added or
    /// moved, and every other entry keeps its position and value. When it
    /// is absent, a fresh node is spliced in at the key's rank, with its
    /// level drawn from the generator.
    pub fn insert(&mut self, key: i64, value: V) -> (r: Option<V>)
        requires
            old(self).wf(),
            old(self)@.len() + 2 <= usize::MAX,
        ensures
            final(self).wf(),
            has_key(old(self)@, key) ==> {
                let ki = key_index(old(self)@, key);
                &&& r == Some(old(self)@[ki].1)
                &&& final(self)@ == old(self)@.update(ki, (key, value))
                &&& final(self)@.len() == old(self)@.len()
            },
            !has_key(old(self)@, key) ==> {
                &&& r is None
                &&& final(self)@ == old(self)@.insert(rank_below(old(self)@, key), (key, value))
                &&& final(self)@.len() == old(self)@.len() + 1
            },
    {
        let drawn = Self::rand_level();
        self.insert_with_level(key, value, drawn)
    }

    /// [`Self::insert`] with the balancing choice injected: the level the
    /// node would take is a parameter rather than a draw, so callers that
    /// need a reproducible structure — tests above all — can supply their
    /// own sequence of levels. What the container holds afterwards does
    /// not depend on the choice.
    #[verifier::rlimit(100)]
    pub fn insert_with_level(&mut self, key: i64, value: V, drawn: usize) -> (r: Option<V>)
        requires
            old(self).wf(),
            old(self)@.len() + 2 <= usize::MAX,
            drawn <= MAX_LEVEL,
        ensures
            final(self).wf(),
            has_key(old(self)@, key) ==> {
                let ki = key_index(old(self)@, key);
                &&& r == Some(old(self)@[ki].1)
                &&& final(self)@ == old(self)@.update(ki, (key, value))
                &&& final(self)@.len() == old(self)@.len()
            },
            !has_key(old(self)@, key) ==> {
                &&& r is None
                &&& final(self)@ == old(self)@.insert(rank_below(old(self)@, key), (key, value))
                &&& final(self)@.len() == old(self)@.len() + 1
            },
    {
        // Raise the head when the draw exceeds the current top: each new
        // level's edge runs straight to the tail, spanning the whole list.
        if drawn > self.level {
            let mut l: usize = self.level + 1;
            while l <= drawn
                invariant
                    old(self).wf(),
                    old(self)@.len() + 2 <= usize::MAX,
                    drawn <= MAX_LEVEL,
                    self.level == old(self).level,
                    self.level < drawn,
                    self.level + 1 <= l <= drawn + 1,
                    self.nodes@ == old(self).nodes@,
                    self.order == old(self).order,
                    self.free@ == old(self).free@,
                    self.len == old(self).len,
                    self.head_forward@.len() == l,
                    crate::wf_parts(self.nodes@, self.head_forward@, self.order@),
                decreases drawn + 1 - l,
            {
                let e = Edge { dst: TAIL, span: self.len + 1 };
                proof {
                    lemma_grow_head(self.nodes@, self.head_forward@, self.order@, e);
                }
                self.head_forward.push(e);
                l = l + 1;
            }
            self.level = drawn;
        }
        let ghost s1 = *self;
        proof {
            assert(s1.wf());
            assert(s1@ =~= old(self)@);
        }

        let (update, steps) = self.find_update(key);
        let step = steps[0];
        proof {
            s1.lemma_frontier(key, update@, steps@);
            assert(s1.update_post(key, update@, steps@, 0));
            assert(handle_edges(s1.nodes@, s1.head_forward@, update@[0]) == s1.rank_edges(
                step as int,
            ));
            crate::lemma_level0_step(s1.nodes@, s1.head_forward@, s1.order@, step as int);
        }
        let u0 = update[0];
        let e0 = self.get_edge(u0, 0);

        if e0.dst != TAIL {
            let nk = self.key_of(e0.dst);
            proof {
                assert(e0 == s1.rank_edges(step as int)[0]);
                assert(e0.dst == s1.order@[step as int]);
                assert(nk == s1.rank_key(step + 1));
            }
            if nk == key {
                // The key is present at rank `step + 1`: replace in place.
                let a = e0.dst;
                let mut tmp = value;
                let slot = &mut self.nodes[a];
                match slot {
                    Some(n) => {
                        core::mem::swap(&mut n.value, &mut tmp);
                    },
                    None => {},
                }
                proof {
                    let ghost ki = key_index(old(self)@, key);
                    assert(has_key(s1@, key));
                    assert(ki == step as int);
                    lemma_value_write_wf(
                        s1.nodes@,
                        self.nodes@,
                        s1.head_forward@,
                        s1.order@,
                        s1.free@,
                        a as int,
                    );
                    assert(self.nodes@[a as int].unwrap().value == value);
                    assert forall|j: int| 0 <= j < self@.len() implies #[trigger] self@[j]
                        == old(self)@.update(ki, (key, value))[j] by {
                        assert(self.rank_key(j + 1) == s1.rank_key(j + 1));
                        if j != ki {
                            assert(self.order@[j] != self.order@[ki]);
                            assert(self.nodes@[self.order@[j] as int] == s1.nodes@[self.order@[j]
                                as int]);
                        }
                    };
                    assert(self@ =~= old(self)@.update(ki, (key, value)));
                    assert(tmp == s1.rank_val(step + 1));
                }
                return Some(tmp);
            }
        }

        // The key is absent: splice in a fresh node of the drawn level.
        proof {
            assert(!has_key(s1@, key)) by {
                if e0.dst == TAIL {
                    assert(step == s1.g().len());
                } else {
                    assert(s1.rank_key(step + 1) != key);
                }
            };
            assert(drawn <= self.level);
        }
        let fwd: Vec<Edge> = vec![Edge { dst: TAIL, span: 1 }; drawn + 1];
        let node = Node { key, value, forward: fwd, level: drawn };
        let a_new: usize;
        match self.free.pop() {
            Some(a) => {
                self.nodes[a] = Some(node);
                a_new = a;
            },
            None => {
                a_new = self.nodes.len();
                self.nodes.push(Some(node));
            },
        }
        let ghost g0 = s1.order@;
        let ghost p = step as int + 1;
        self.order = Ghost(g0.insert(step as int, a_new));
        let ghost g1 = self.order@;
        let ghost s2 = *self;

        proof {
            g0.insert_ensures(step as int, a_new);
            assert(forall|j: int| 0 <= j < g0.len() ==> (#[trigger] g0[j]) != a_new);
            assert(g1.no_duplicates()) by {
                assert forall|x: int, y: int| 0 <= x < y < g1.len() implies g1[x] != g1[y] by {
                    if x < p - 1 && y < p - 1 {
                        assert(g1[x] == g0[x] && g1[y] == g0[y]);
                    } else if x < p - 1 && y == p - 1 {
                        assert(g1[x] == g0[x] && g1[y] == a_new);
                    } else if x < p - 1 {
                        assert(g1[x] == g0[x] && g1[y] == g0[y - 1]);
                        assert(x != y - 1);
                    } else if x == p - 1 {
                        assert(g1[x] == a_new && g1[y] == g0[y - 1]);
                    } else {
                        assert(g1[x] == g0[x - 1] && g1[y] == g0[y - 1]);
                    }
                };
            };
            assert(crate::arena_ok(s2.nodes@, g1)) by {
                assert forall|j: int| 0 <= j < g1.len() implies (#[trigger] g1[j])
                    < s2.nodes@.len() && s2.nodes@[g1[j] as int] is Some by {
                    if j != p - 1 {
                        let jo = if j < p - 1 {
                            j
                        } else {
                            j - 1
                        };
                        assert(g1[j] == g0[jo]);
                        assert(g0[jo] < s1.nodes@.len() && s1.nodes@[g0[jo] as int] is Some);
                        assert(g0[jo] != a_new);
                    }
                };
            };
            assert forall|rr: int| 1 <= rr <= g1.len() implies #[trigger] key_at(s2.nodes@, g1, rr)
                == (if rr < p {
                s1.rank_key(rr)
            } else if rr == p {
                key
            } else {
                s1.rank_key(rr - 1)
            }) && val_at(s2.nodes@, g1, rr) == (if rr < p {
                s1.rank_val(rr)
            } else if rr == p {
                value
            } else {
                s1.rank_val(rr - 1)
            }) by {
                if rr != p {
                    let ro = if rr < p {
                        rr
                    } else {
                        rr - 1
                    };
                    assert(g1[rr - 1] == g0[ro - 1]);
                    assert(g0[ro - 1] != a_new);
                    assert(s2.nodes@[g0[ro - 1] as int] == s1.nodes@[g0[ro - 1] as int]);
                }
            };
            assert(crate::sorted_ok(s2.nodes@, g1)) by {
                assert forall|r1: int, r2: int| 1 <= r1 < r2 <= g1.len() implies #[trigger] key_at(
                    s2.nodes@,
                    g1,
                    r1,
                ) < #[trigger] key_at(s2.nodes@, g1, r2) by {
                    if r1 < p && r2 < p {
                        assert(s1.rank_key(r1) < s1.rank_key(r2));
                    } else if r1 < p && r2 == p {
                        assert(s1.rank_key(r1) < key);
                    } else if r1 < p {
                        if r2 - 1 == step as int {
                            assert(s1.rank_key(r1) < key);
                            assert(false);
                        }
                        if r1 <= step as int && r2 - 1 > step as int {
                            assert(s1.rank_key(r1) < key);
                            assert(s1.rank_key(r2 - 1) > key);
                        }
                    } else if r1 == p {
                        assert(r2 - 1 >= p > step as int);
                        assert(s1.rank_key(r2 - 1) > key);
                    } else {
                        assert(s1.rank_key(r1 - 1) < s1.rank_key(r2 - 1));
                    }
                };
            };
            assert(crate::node_levels_ok(s2.nodes@, s2.head_forward@, g1)) by {
                assert forall|rr: int| 1 <= rr <= g1.len() implies {
                    let n = #[trigger] node_at(s2.nodes@, g1, rr);
                    n.forward@.len() == n.level + 1 && n.forward@.len() <= s2.head_forward@.len()
                } by {
                    if rr != p {
                        let ro = if rr < p {
                            rr
                        } else {
                            rr - 1
                        };
                        assert(g1[rr - 1] == g0[ro - 1]);
                        assert(g0[ro - 1] != a_new);
                        let n = node_at(s1.nodes@, g0, ro);
                        assert(n.forward@.len() == n.level + 1 && n.forward@.len()
                            <= s1.head_forward@.len());
                    }
                };
            };
            assert(crate::free_ok(s2.nodes@, s2.free@) && s2.free@.no_duplicates()) by {
                assert forall|j: int|
                    0 <= j < s2.free@.len() implies (#[trigger] s2.free@[j]) < s2.nodes@.len()
                    && s2.nodes@[s2.free@[j] as int] is None by {
                    assert(s2.free@[j] == s1.free@[j]);
                    assert(s1.free@[j] < s1.nodes@.len() && s1.nodes@[s1.free@[j] as int] is None);
                    assert(s1.free@[j] != a_new);
                };
                assert forall|x: int, y: int| 0 <= x < y < s2.free@.len() implies s2.free@[x]
                    != s2.free@[y] by {
                    assert(s2.free@[x] == s1.free@[x] && s2.free@[y] == s1.free@[y]);
                };
            };
            assert(s2.nodes@.len() == g1.len() + s2.free@.len());
            assert(same_shape(s2.nodes@, s2.nodes@));
            assert(low_edges_eq(
                s2.nodes@,
                s2.head_forward@,
                s2.nodes@,
                s2.head_forward@,
                s1.level + 1,
            ));
        }

        // Patch the levels from the top down.
        let lv1 = self.level + 1;
        let mut i: usize = lv1;
        while i > 0
            invariant
                s1.wf(),
                s2.head_forward@ == s1.head_forward@,
                s1@.len() + 2 <= usize::MAX,
                i <= lv1,
                lv1 == s1.level + 1,
                drawn <= s1.level,
                step <= s1.order@.len(),
                g0 == s1.order@,
                p == step as int + 1,
                g1 == g0.insert(step as int, a_new),
                s2.order@ == g1,
                forall|j: int| 0 <= j < g0.len() ==> (#[trigger] g0[j]) != a_new,
                a_new < s2.nodes@.len(),
                s1.nodes@.len() <= s2.nodes@.len(),
                s2.nodes@[a_new as int] is Some,
                s2.nodes@[a_new as int].unwrap().key == key,
                s2.nodes@[a_new as int].unwrap().value == value,
                s2.nodes@[a_new as int].unwrap().level == drawn,
                s2.nodes@[a_new as int].unwrap().forward@.len() == drawn + 1,
                forall|j: int|
                    0 <= j < s1.nodes@.len() && j != a_new ==> s2.nodes@[j] == s1.nodes@[j],
                update@.len() == lv1,
                steps@.len() == lv1,
                forall|j: int| 0 <= j <= s1.level ==> s1.update_post(key, update@, steps@, j),
                forall|rr: int|
                    1 <= rr <= s1.g().len() && rr <= step ==> s1.rank_key(rr) < key,
                forall|rr: int|
                    step as int + 1 <= rr <= s1.g().len() ==> s1.rank_key(rr) > key,
                // current state
                self.level == s1.level,
                self.len == s1.len,
                self.free == s2.free,
                self.order@ == g1,
                self.head_forward@.len() == lv1,
                same_shape(self.nodes@, s2.nodes@),
                low_edges_eq(
                    self.nodes@,
                    self.head_forward@,
                    s2.nodes@,
                    s2.head_forward@,
                    i as int,
                ),
                crate::arena_ok(self.nodes@, g1),
                g1.no_duplicates(),
                g1.len() == g0.len() + 1,
                forall|lvl: int|
                    i <= lvl < lv1 ==> #[trigger] level_ok(
                        self.nodes@,
                        self.head_forward@,
                        g1,
                        lvl,
                    ),
            decreases i,
        {
            i = i - 1;
            let u = update[i];
            let ru = steps[i];
            proof {
                assert(s1.update_post(key, update@, steps@, i as int));
                assert(i < (edges_at(s1.nodes@, s1.head_forward@, g0, ru as int)).len());
                assert(level_ok(s1.nodes@, s1.head_forward@, g0, i as int));
                assert(edge_ok(s1.nodes@, s1.head_forward@, g0, ru as int, i as int));
                // the update point lies at or before the insertion rank,
                // its successor at or past it
                assert(ru <= step) by {
                    if ru > step {
                        assert(s1.rank_key(ru as int) > key);
                    }
                };
                assert(p <= ru as int + s1.rank_edges(ru as int)[i as int].span) by {
                    let r2u = ru as int + s1.rank_edges(ru as int)[i as int].span;
                    if r2u < p {
                        assert(1 <= r2u <= step);
                        assert(s1.rank_key(r2u) < key);
                        assert(r2u == s1.g().len() + 1 || s1.rank_key(r2u) >= key);
                    }
                };
            }
            self.splice_level(i, u, ru, step, drawn, a_new, Ghost(s1), Ghost(s2));
        }

        self.len = self.len + 1;
        proof {
            lemma_same_shape_props(
                self.nodes@,
                self.head_forward@,
                s2.nodes@,
                s2.head_forward@,
                g1,
                self.free@,
            );
            assert(crate::links_ok(self.nodes@, self.head_forward@, g1));
            assert(self.wf());
            let ghost pos = rank_below(old(self)@, key);
            assert(pos == step as int);
            old(self)@.insert_ensures(pos, (key, value));
            assert forall|j: int| 0 <= j < self@.len() implies #[trigger] self@[j] == old(
                self,
            )@.insert(pos, (key, value))[j] by {
                assert(self@[j] == (key_at(self.nodes@, g1, j + 1), val_at(
                    self.nodes@,
                    g1,
                    j + 1,
                )));
                assert(key_at(self.nodes@, g1, j + 1) == key_at(s2.nodes@, g1, j + 1) && val_at(
                    self.nodes@,
                    g1,
                    j + 1,
                ) == val_at(s2.nodes@, g1, j + 1));
                if j + 1 < p {
                    assert(s1@[j] == (s1.rank_key(j + 1), s1.rank_val(j + 1)));
                } else if j + 1 > p {
                    assert(s1@[j - 1] == (s1.rank_key(j), s1.rank_val(j)));
                }
            };
            assert(self@ =~= old(self)@.insert(pos, (key, value)));
        }
        None
    }

    /// One level of the splice: write the fresh node's edge for this level
    /// (when the level is within its draw) and repoint or widen the update
    /// node's, leaving every level at or above this one sound for the new
    /// order and everything below untouched.
    #[verifier::rlimit(100)]
    fn splice_level(
        &mut self,
        i: usize,
        u: Handle,
        ru: usize,
        step: usize,
        drawn: usize,
        a_new: usize,
        Ghost(s1): Ghost<SkipList<V>>,
        Ghost(s2): Ghost<SkipList<V>>,
    )
        requires
            s1.wf(),
            s2.head_forward@ == s1.head_forward@,
            s1@.len() + 2 <= usize::MAX,
            i <= s1.level,
            drawn <= s1.level,
            step <= s1.order@.len(),
            s2.order@ == s1.order@.insert(step as int, a_new),
            forall|j: int| 0 <= j < s1.order@.len() ==> (#[trigger] s1.order@[j]) != a_new,
            a_new < s2.nodes@.len(),
            s1.nodes@.len() <= s2.nodes@.len(),
            s2.nodes@[a_new as int] is Some,
            s2.nodes@[a_new as int].unwrap().level == drawn,
            s2.nodes@[a_new as int].unwrap().forward@.len() == drawn + 1,
            forall|j: int|
                0 <= j < s1.nodes@.len() && j != a_new ==> s2.nodes@[j] == s1.nodes@[j],
            ru <= step,
            handle_at_rank(s1.order@, u, ru as int),
            i < s1.rank_edges(ru as int).len(),
            step as int + 1 <= ru as int + s1.rank_edges(ru as int)[i as int].span,
            edge_ok(s1.nodes@, s1.head_forward@, s1.order@, ru as int, i as int),
            old(self).level == s1.level,
            old(self).len == s1.len,
            old(self).free == s2.free,
            old(self).order@ == s2.order@,
            old(self).head_forward@.len() == s1.level + 1,
            same_shape(old(self).nodes@, s2.nodes@),
            low_edges_eq(
                old(self).nodes@,
                old(self).head_forward@,
                s2.nodes@,
                s2.head_forward@,
                i + 1,
            ),
            crate::arena_ok(old(self).nodes@, s2.order@),
            s2.order@.no_duplicates(),
            forall|lvl: int|
                i < lvl < s1.level + 1 ==> #[trigger] level_ok(
                    old(self).nodes@,
                    old(self).head_forward@,
                    s2.order@,
                    lvl,
                ),
        ensures
            final(self).level == s1.level,
            final(self).len == s1.len,
            final(self).free == s2.free,
            final(self).order@ == s2.order@,
            final(self).head_forward@.len() == s1.level + 1,
            same_shape(final(self).nodes@, s2.nodes@),
            low_edges_eq(
                final(self).nodes@,
                final(self).head_forward@,
                s2.nodes@,
                s2.head_forward@,
                i as int,
            ),
            crate::arena_ok(final(self).nodes@, s2.order@),
            forall|lvl: int|
                i <= lvl < s1.level + 1 ==> #[trigger] level_ok(
                    final(self).nodes@,
                    final(self).head_forward@,
                    s2.order@,
                    lvl,
                ),
    {
        let ghost sa = *old(self);
        let ghost g0 = s1.order@;
        let ghost g1 = s2.order@;
        let ghost p: int = step as int + 1;
        let ghost lv1: int = s1.level + 1;
        proof {
            g0.insert_ensures(step as int, a_new);
            // reading the update node's edge gives its value in s1
            match u {
                    Handle::Head => {
                        assert(self.head_forward@.len() == s1.head_forward@.len());
                        assert(self.head_forward@[i as int] == s2.head_forward@[i as int]);
                    },
                    Handle::At(x) => {
                        assert(x == g0[ru - 1]);
                        assert(x != a_new);
                        assert(x < s2.nodes@.len());
                        assert(s2.nodes@[x as int] == s1.nodes@[x as int]);
                        assert(self.nodes@[x as int].unwrap().forward@.len() == s2.nodes@[x
                            as int].unwrap().forward@.len());
                        assert(self.nodes@[x as int].unwrap().forward@[i as int] == s2.nodes@[x
                            as int].unwrap().forward@[i as int]);
                    },
                }
                assert(handle_ok(self.nodes@, u));
                assert(handle_edges(self.nodes@, self.head_forward@, u)[i as int]
                    == s1.rank_edges(ru as int)[i as int]);
                assert(handle_edges(self.nodes@, self.head_forward@, u).len() == s1.rank_edges(
                    ru as int,
                ).len());
            }
            let ue = self.get_edge(u, i);
            if i <= drawn {
                proof {
                    assert(ru + ue.span <= s1.g().len() + 1);
                    assert(handle_ok(self.nodes@, Handle::At(a_new)));
                    assert(handle_edges(self.nodes@, self.head_forward@, Handle::At(a_new)).len()
                        == drawn + 1);
                }
                let nspan = ru + ue.span - step;
                self.set_edge(Handle::At(a_new), i, Edge { dst: ue.dst, span: nspan });
                proof {
                    assert(handle_ok(self.nodes@, u)) by {
                        match u {
                            Handle::Head => {},
                            Handle::At(x) => {
                                assert(x != a_new);
                            },
                        }
                    };
                }
                self.set_edge(u, i, Edge { dst: a_new, span: step + 1 - ru });
            } else {
                self.set_edge(u, i, Edge { dst: ue.dst, span: ue.span + 1 });
            }
            proof {
                let ns = self.nodes@;
                let hf = self.head_forward@;
                // shape and low levels are as they were
                assert(same_shape(ns, s2.nodes@)) by {
                    assert forall|j: int| 0 <= j < s2.nodes@.len() implies ((#[trigger] ns[j])
                        is Some <==> s2.nodes@[j] is Some) by {
                        assert(sa.nodes@[j] is Some <==> s2.nodes@[j] is Some);
                    };
                    assert forall|j: int| 0 <= j < s2.nodes@.len() && s2.nodes@[j] is Some implies {
                        let n1 = (#[trigger] ns[j]).unwrap();
                        let n2 = s2.nodes@[j].unwrap();
                        &&& n1.key == n2.key
                        &&& n1.value == n2.value
                        &&& n1.level == n2.level
                        &&& n1.forward@.len() == n2.forward@.len()
                    } by {
                        let na = sa.nodes@[j].unwrap();
                        let n2 = s2.nodes@[j].unwrap();
                        assert(na.key == n2.key && na.value == n2.value && na.level == n2.level
                            && na.forward@.len() == n2.forward@.len());
                    };
                };
                assert(low_edges_eq(ns, hf, s2.nodes@, s2.head_forward@, i as int)) by {
                    assert forall|lvl: int|
                        0 <= lvl < i && lvl < s2.head_forward@.len() implies hf[lvl]
                        == s2.head_forward@[lvl] by {
                        assert(sa.head_forward@[lvl] == s2.head_forward@[lvl]);
                    };
                    assert forall|j: int, lvl: int|
                        0 <= j < s2.nodes@.len() && s2.nodes@[j] is Some && 0 <= lvl < i && lvl
                            < s2.nodes@[j].unwrap().forward@.len() implies (#[trigger] ns[j]
                            .unwrap()
                            .forward@[lvl]) == s2.nodes@[j].unwrap().forward@[lvl] by {
                        assert(sa.nodes@[j].unwrap().forward@[lvl] == s2.nodes@[j]
                            .unwrap()
                            .forward@[lvl]);
                    };
                };
                assert(crate::arena_ok(ns, g1));
                // edge lengths across the new order
                assert forall|q: int|
                    1 <= q <= g1.len() implies (#[trigger] edges_at(ns, hf, g1, q)).len() as int
                    == (if q == p {
                    drawn + 1
                } else if q < p {
                    s1.rank_edges(q).len() as int
                } else {
                    s1.rank_edges(q - 1).len() as int
                }) by {
                    let sl = g1[q - 1] as int;
                    assert(ns[sl].unwrap().forward@.len() == s2.nodes@[sl].unwrap().forward@.len());
                    if q != p {
                        let qo = if q < p {
                            q
                        } else {
                            q - 1
                        };
                        assert(g1[q - 1] == g0[qo - 1]);
                        assert(g0[qo - 1] != a_new);
                        assert(s2.nodes@[sl] == s1.nodes@[sl]);
                    }
                };
                // the edges this iteration wrote, and those it did not touch
                let ghost eu = s1.rank_edges(ru as int)[i as int];
                if i <= drawn {
                    assert(g1[p - 1] == a_new);
                    assert(edges_at(ns, hf, g1, p)[i as int].dst == eu.dst);
                    assert(edges_at(ns, hf, g1, p)[i as int].span == ru + eu.span + 1 - p);
                    assert(edges_at(ns, hf, g1, ru as int)[i as int].dst == a_new);
                    assert(edges_at(ns, hf, g1, ru as int)[i as int].span == p - ru);
                } else {
                    assert(edges_at(ns, hf, g1, ru as int)[i as int].dst == eu.dst);
                    assert(edges_at(ns, hf, g1, ru as int)[i as int].span == eu.span + 1);
                }
                assert forall|rr: int|
                    0 <= rr <= g1.len() && rr != p && rr != ru && i < (#[trigger] edges_at(
                        ns,
                        hf,
                        g1,
                        rr,
                    )).len() implies edges_at(ns, hf, g1, rr)[i as int] == s1.rank_edges(
                    if rr < p {
                        rr
                    } else {
                        rr - 1
                    },
                )[i as int] by {
                    let ro = if rr < p {
                        rr
                    } else {
                        rr - 1
                    };
                    if rr == 0 {
                        assert(hf[i as int] == sa.head_forward@[i as int]);
                        assert(sa.head_forward@[i as int] == s2.head_forward@[i as int]);
                    } else {
                        let sl = g1[rr - 1] as int;
                        assert(g1[rr - 1] == g0[ro - 1]);
                        assert(g0[ro - 1] != a_new);
                        assert(match u {
                            Handle::Head => true,
                            Handle::At(x) => sl != x,
                        }) by {
                            match u {
                                Handle::Head => {},
                                Handle::At(x) => {
                                    assert(x == g0[ru - 1]);
                                    assert(ro != ru);
                                },
                            }
                        };
                        assert(ns[sl].unwrap().forward@[i as int] == sa.nodes@[sl]
                            .unwrap()
                            .forward@[i as int]);
                        assert(sa.nodes@[sl].unwrap().forward@[i as int] == s2.nodes@[sl]
                            .unwrap()
                            .forward@[i as int]);
                        assert(s2.nodes@[sl] == s1.nodes@[sl]);
                    }
                };
                lemma_insert_fix_level(
                    s1,
                    ns,
                    hf,
                    g1,
                    a_new,
                    p,
                    drawn as int,
                    i as int,
                    ru as int,
                );
                // levels already repaired stay repaired
                assert forall|lvl: int|
                    i < lvl < lv1 implies #[trigger] level_ok(ns, hf, g1, lvl) by {
                    assert(level_ok(sa.nodes@, sa.head_forward@, g1, lvl));
                    assert forall|rr: int|
                        0 <= rr <= g1.len() implies (#[trigger] edges_at(ns, hf, g1, rr)).len()
                        == edges_at(sa.nodes@, sa.head_forward@, g1, rr).len() by {
                        if rr > 0 {
                            let sl = g1[rr - 1] as int;
                            assert(ns[sl].unwrap().forward@.len() == sa.nodes@[sl]
                                .unwrap()
                                .forward@.len());
                        }
                    };
                    assert forall|rr: int|
                        0 <= rr <= g1.len() && lvl < edges_at(
                            sa.nodes@,
                            sa.head_forward@,
                            g1,
                            rr,
                        ).len() implies (#[trigger] edges_at(ns, hf, g1, rr))[lvl] == edges_at(
                        sa.nodes@,
                        sa.head_forward@,
                        g1,
                        rr,
                    )[lvl] by {
                        if rr == 0 {
                            assert(hf[lvl] == sa.head_forward@[lvl]);
                        } else {
                            let sl = g1[rr - 1] as int;
                            assert(ns[sl].unwrap().forward@[lvl] == sa.nodes@[sl]
                                .unwrap()
                                .forward@[lvl]);
                        }
                    };
                    lemma_level_frame(sa.nodes@, sa.head_forward@, ns, hf, g1, lvl);
                };
            }
        }

    /// Draw the level for a fresh node: count fair-coin successes, starting
    /// at 0 and stopping at the first failure or at [`MAX_LEVEL`]. The
    /// container's balance is probabilistic; no contract depends on the
    /// outcome beyond its ceiling.
    fn rand_level() -> (r: usize)
        ensures
            r <= MAX_LEVEL,
    {
        let mut level: usize = 0;
        loop
            invariant
                level <= MAX_LEVEL,
            ensures
                level <= MAX_LEVEL,
            decreases MAX_LEVEL - level,
        {
            if !Self::coin() {
                break;
            }
            if level >= MAX_LEVEL {
                break;
            }
            level = level + 1;
        }
        level
    }
}

} // verus!
