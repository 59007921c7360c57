//! The container's laws, stated once and proved from the invariant: the
//! view is always the ascending sequence of the present keys, each present
//! exactly once; replacing one entry moves nothing else; and at every
//! level the spans account exactly for the ranks they cover.

use vstd::prelude::*;

use crate::{entries_sorted, SkipList};

verus! {

/// Order law: the entries are always in strictly ascending key order —
/// iteration, positional access and the view all present the sorted
/// sequence of the keys now present — and no key appears twice.
pub proof fn lemma_ascending_order<V>(l: &SkipList<V>)
    requires
        l.wf(),
    ensures
        entries_sorted(l@),
        forall|i: int, j: int| 0 <= i < j < l@.len() ==> (#[trigger] l@[i]).0 != (#[trigger] l@[j]).0,
{
    l.lemma_entries_sorted();
}

/// Replacement law: writing one position of the view leaves every other
/// position — key and value alike — exactly as it was, and the length
/// unchanged. Together with `insert`'s contract for a present key, this
/// says that replacing a value moves nothing else in the container.
pub proof fn lemma_update_leaves_others<V>(s: Seq<(i64, V)>, i: int, kv: (i64, V))
    requires
        0 <= i < s.len(),
    ensures
        s.update(i, kv).len() == s.len(),
        forall|j: int| 0 <= j < s.len() && j != i ==> s.update(i, kv)[j] == s[j],
        s.update(i, kv)[i] == kv,
{
}

/// The spans of one level's chain, summed from the occupant of rank `r`
/// to the tail.
pub open spec fn chain_span_sum<V>(l: SkipList<V>, r: int, lvl: int) -> int
    decreases l.g().len() + 1 - r
        when l.wf() && 0 <= r <= l.g().len() + 1 && 0 <= lvl < l.spec_levels()
        via chain_span_sum_decreases::<V>
{
    if r >= l.g().len() + 1 {
        0
    } else if l.rank_edges(r).len() <= lvl {
        0
    } else {
        let sp = l.rank_edges(r)[lvl].span as int;
        sp + chain_span_sum(l, r + sp, lvl)
    }
}

#[via_fn]
proof fn chain_span_sum_decreases<V>(l: SkipList<V>, r: int, lvl: int) {
    if r <= l.g().len() && lvl < l.rank_edges(r).len() {
        assert(crate::level_ok(l.nodes@, l.head_forward@, l.g(), lvl));
        assert(crate::edge_ok(l.nodes@, l.head_forward@, l.g(), r, lvl));
    }
}

/// Span law, sub-range form: from any rank that takes part in a level,
/// that level's spans sum to exactly the rank distance from there to the
/// tail; the sum between any two chain points is the difference of two
/// such sums, hence the rank distance between them.
pub proof fn lemma_chain_span_sum_from<V>(l: &SkipList<V>, r: int, lvl: int)
    requires
        l.wf(),
        0 <= lvl < l.spec_levels(),
        0 <= r <= l.g().len() + 1,
        r <= l.g().len() ==> lvl < l.rank_edges(r).len(),
    ensures
        chain_span_sum(*l, r, lvl) == l.g().len() + 1 - r,
    decreases l.g().len() + 1 - r,
{
    if r >= l.g().len() + 1 {
    } else {
        assert(crate::level_ok(l.nodes@, l.head_forward@, l.g(), lvl));
        assert(crate::edge_ok(l.nodes@, l.head_forward@, l.g(), r, lvl));
        let sp = l.rank_edges(r)[lvl].span as int;
        lemma_chain_span_sum_from(l, r + sp, lvl);
    }
}

/// Span law: after every mutation, each active level's spans sum, head to
/// tail, to one past the number of entries; at level 0 each span is one
/// step, so the level-0 chain passes every entry in turn.
pub proof fn lemma_level_spans_sum_to_len<V>(l: &SkipList<V>, lvl: int)
    requires
        l.wf(),
        0 <= lvl < l.spec_levels(),
    ensures
        chain_span_sum(*l, 0, lvl) == l@.len() + 1,
{
    lemma_chain_span_sum_from(l, 0, lvl);
    l.lemma_entries_sorted();
}

} // verus!
