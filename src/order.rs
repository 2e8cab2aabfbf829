//! Lemmas on filtering sequences of entries and on their ranking by count.

use vstd::prelude::*;
use crate::model::{
    block, counts_at_most, has_count, ranked, same_blocks, sorted_by_count, Entry,
};

verus! {

broadcast use vstd::seq_lib::group_filter_ensures;

/// Predicates that agree on every element filter alike.
pub proof fn lemma_filter_agree(s: Seq<Entry>, p: spec_fn(Entry) -> bool, q: spec_fn(Entry) -> bool)
    requires
        forall|i: int| 0 <= i < s.len() ==> p(s[i]) == q(s[i]),
    ensures
        s.filter(p) == s.filter(q),
    decreases s.len(),
{
    reveal(Seq::filter);
    if s.len() > 0 {
        lemma_filter_agree(s.drop_last(), p, q);
    }
}

/// A predicate that holds of no element filters to nothing.
pub proof fn lemma_filter_none(s: Seq<Entry>, p: spec_fn(Entry) -> bool)
    requires
        forall|i: int| 0 <= i < s.len() ==> !p(s[i]),
    ensures
        s.filter(p) == Seq::<Entry>::empty(),
    decreases s.len(),
{
    reveal(Seq::filter);
    if s.len() > 0 {
        lemma_filter_none(s.drop_last(), p);
    }
}

/// A predicate that holds of every element keeps the whole sequence.
pub proof fn lemma_filter_all(s: Seq<Entry>, p: spec_fn(Entry) -> bool)
    requires
        forall|i: int| 0 <= i < s.len() ==> p(s[i]),
    ensures
        s.filter(p) == s,
    decreases s.len(),
{
    reveal(Seq::filter);
    if s.len() > 0 {
        lemma_filter_all(s.drop_last(), p);
        assert(s.drop_last().push(s.last()) =~= s);
    }
}

/// Filtering twice is filtering by both predicates.
pub proof fn lemma_filter_and(
    s: Seq<Entry>,
    p: spec_fn(Entry) -> bool,
    q: spec_fn(Entry) -> bool,
    pq: spec_fn(Entry) -> bool,
)
    requires
        forall|e: Entry| #[trigger] pq(e) == (p(e) && q(e)),
    ensures
        s.filter(p).filter(q) == s.filter(pq),
    decreases s.len(),
{
    reveal(Seq::filter);
    if s.len() > 0 {
        lemma_filter_and(s.drop_last(), p, q, pq);
        let x = s.last();
        if p(x) {
            s.drop_last().filter(p).lemma_filter_push(x, q);
        }
    }
}

/// Filtering after a map is mapping after filtering by the composed predicate.
pub proof fn lemma_filter_map(
    s: Seq<Entry>,
    h: spec_fn(Entry) -> Entry,
    q: spec_fn(Entry) -> bool,
    pc: spec_fn(Entry) -> bool,
)
    requires
        forall|e: Entry| #[trigger] pc(e) == q(h(e)),
    ensures
        s.map_values(h).filter(q) == s.filter(pc).map_values(h),
    decreases s.len(),
{
    reveal(Seq::filter);
    if s.len() > 0 {
        lemma_filter_map(s.drop_last(), h, q, pc);
        assert(s.map_values(h).drop_last() =~= s.drop_last().map_values(h));
        if pc(s.last()) {
            assert(s.drop_last().filter(pc).push(s.last()).map_values(h) =~= s.drop_last().filter(
                pc,
            ).map_values(h).push(h(s.last())));
        }
    }
}

/// Filtering by either of two disjoint predicates keeps the first group ahead
/// of the second when no element of the second comes before one of the first.
pub proof fn lemma_filter_split(
    s: Seq<Entry>,
    p: spec_fn(Entry) -> bool,
    q: spec_fn(Entry) -> bool,
    pq: spec_fn(Entry) -> bool,
)
    requires
        forall|e: Entry| #[trigger] pq(e) == (p(e) || q(e)),
        forall|e: Entry| !(#[trigger] p(e) && q(e)),
        forall|i: int, j: int| 0 <= i < j < s.len() ==> !(q(s[i]) && p(s[j])),
    ensures
        s.filter(pq) == s.filter(p) + s.filter(q),
    decreases s.len(),
{
    reveal(Seq::filter);
    if s.len() > 0 {
        let t = s.drop_last();
        let x = s.last();
        lemma_filter_split(t, p, q, pq);
        if p(x) {
            assert forall|i: int| 0 <= i < t.len() implies !q(t[i]) by {
                assert(s[i] == t[i]);
                assert(s[s.len() - 1] == x);
            }
            lemma_filter_none(t, q);
            assert(t.filter(p).push(x) + t.filter(q) =~= (t.filter(p) + t.filter(q)).push(x));
        } else if q(x) {
            assert((t.filter(p) + t.filter(q)).push(x) =~= t.filter(p) + t.filter(q).push(x));
        }
    }
}

/// An entry added at the end joins the end of its own block.
pub proof fn lemma_block_push(s: Seq<Entry>, x: Entry, k: nat)
    ensures
        block(s.push(x), k) == if x.1.len() == k {
            block(s, k).push(x)
        } else {
            block(s, k)
        },
{
    s.lemma_filter_push(x, has_count(k));
}

/// The order is fixed by the blocks alone.
pub proof fn lemma_ranked_same_blocks(a: Seq<Entry>, b: Seq<Entry>, top: nat)
    requires
        forall|k: nat| k <= top ==> #[trigger] block(a, k) == block(b, k),
    ensures
        ranked(a, top) == ranked(b, top),
    decreases top,
{
    if top > 0 {
        lemma_ranked_same_blocks(a, b, (top - 1) as nat);
    }
}

/// A ranking is ordered by count and has no count above its top.
pub proof fn lemma_ranked_sorted(s: Seq<Entry>, top: nat)
    ensures
        sorted_by_count(ranked(s, top)),
        counts_at_most(ranked(s, top), top),
    decreases top,
{
    let b = block(s, top);
    assert forall|i: int| 0 <= i < b.len() implies #[trigger] b[i].1.len() == top by {
        s.lemma_filter_pred(has_count(top), i);
    }
    if top > 0 {
        lemma_ranked_sorted(s, (top - 1) as nat);
        let r = ranked(s, (top - 1) as nat);
        assert forall|i: int| 0 <= i < (b + r).len() implies #[trigger] (b + r)[i].1.len()
            <= top by {
            if i >= b.len() {
                assert((b + r)[i] == r[i - b.len()]);
            }
        }
    }
}

/// Ranking from `t` down is empty when every count is above `t`.
pub proof fn lemma_ranked_empty(s: Seq<Entry>, t: nat)
    requires
        forall|i: int| 0 <= i < s.len() ==> s[i].1.len() > t,
    ensures
        ranked(s, t) == Seq::<Entry>::empty(),
    decreases t,
{
    lemma_filter_none(s, has_count(t));
    if t > 0 {
        lemma_ranked_empty(s, (t - 1) as nat);
        assert(Seq::<Entry>::empty() + Seq::<Entry>::empty() =~= Seq::<Entry>::empty());
    }
}

/// An entry with no more matches than any other goes last in the ranking.
pub proof fn lemma_ranked_push(s: Seq<Entry>, x: Entry, top: nat)
    requires
        forall|i: int| 0 <= i < s.len() ==> s[i].1.len() >= x.1.len(),
        x.1.len() <= top,
    ensures
        ranked(s.push(x), top) == ranked(s, top).push(x),
    decreases top,
{
    lemma_block_push(s, x, top);
    let c = x.1.len();
    if top == c {
        if top > 0 {
            let t = (top - 1) as nat;
            assert forall|i: int| 0 <= i < s.push(x).len() implies s.push(x)[i].1.len() > t by {
                if i < s.len() {
                    assert(s.push(x)[i] == s[i]);
                }
            }
            assert forall|i: int| 0 <= i < s.len() implies s[i].1.len() > t by {}
            lemma_ranked_empty(s.push(x), t);
            lemma_ranked_empty(s, t);
            assert(block(s, top).push(x) + Seq::<Entry>::empty() =~= (block(s, top)
                + Seq::<Entry>::empty()).push(x));
        }
    } else {
        lemma_ranked_push(s, x, (top - 1) as nat);
        let r = ranked(s, (top - 1) as nat);
        assert(block(s, top) + r.push(x) =~= (block(s, top) + r).push(x));
    }
}

/// A sequence ordered by count is its own ranking.
pub proof fn lemma_sorted_is_ranked(s: Seq<Entry>, top: nat)
    requires
        sorted_by_count(s),
        counts_at_most(s, top),
    ensures
        ranked(s, top) == s,
    decreases s.len(),
{
    if s.len() == 0 {
        lemma_ranked_empty(s, top);
    } else {
        let t = s.drop_last();
        let x = s.last();
        lemma_sorted_is_ranked(t, top);
        assert forall|i: int| 0 <= i < t.len() implies t[i].1.len() >= x.1.len() by {
            assert(t[i] == s[i]);
        }
        lemma_ranked_push(t, x, top);
        assert(t.push(x) =~= s);
    }
}

/// Moving an element forward past elements with fewer matches keeps each block.
pub proof fn lemma_move_keeps_blocks(s: Seq<Entry>, p: int, r: int)
    requires
        0 <= p <= r < s.len(),
        forall|q: int| p <= q < r ==> s[q].1.len() < s[r].1.len(),
    ensures
        same_blocks(s.take(p) + seq![s[r]] + s.subrange(p, r) + s.skip(r + 1), s),
{
    let a = s.take(p);
    let b = s.subrange(p, r);
    let x = seq![s[r]];
    let c = s.skip(r + 1);
    assert(s =~= a + b + x + c);
    assert forall|k: nat| #[trigger] block(a + x + b + c, k) == block(s, k) by {
        Seq::filter_distributes_over_add(a + x + b, c, has_count(k));
        Seq::filter_distributes_over_add(a + x, b, has_count(k));
        Seq::filter_distributes_over_add(a, x, has_count(k));
        Seq::filter_distributes_over_add(a + b + x, c, has_count(k));
        Seq::filter_distributes_over_add(a + b, x, has_count(k));
        Seq::filter_distributes_over_add(a, b, has_count(k));
        lemma_block_push(Seq::<Entry>::empty(), s[r], k);
        assert(Seq::<Entry>::empty().push(s[r]) =~= x);
        lemma_filter_none(Seq::<Entry>::empty(), has_count(k));
        if s[r].1.len() == k {
            lemma_filter_none(b, has_count(k));
        } else {
            assert(block(x, k) == Seq::<Entry>::empty());
        }
        let fa = block(a, k);
        let fb = block(b, k);
        let fx = block(x, k);
        let fc = block(c, k);
        if s[r].1.len() == k {
            assert(fa + fx + fb + fc =~= fa + fb + fx + fc);
        } else {
            assert(fa + fx + fb + fc =~= fa + fb + fx + fc);
        }
    }
}

/// Filtering a ranking by a predicate that picks from one count class only
/// gives what filtering the unranked sequence gives.
pub proof fn lemma_filter_ranked(s: Seq<Entry>, top: nat, p: spec_fn(Entry) -> bool, k0: nat)
    requires
        forall|i: int| 0 <= i < s.len() && p(s[i]) ==> s[i].1.len() == k0,
        k0 <= top,
    ensures
        ranked(s, top).filter(p) == s.filter(p),
    decreases top,
{
    assert forall|k: nat| #[trigger] block(s, k).filter(p) == if k == k0 {
        s.filter(p)
    } else {
        Seq::<Entry>::empty()
    } by {
        let pk = |e: Entry| e.1.len() == k && p(e);
        lemma_filter_and(s, has_count(k), p, pk);
        if k == k0 {
            lemma_filter_agree(s, pk, p);
        } else {
            lemma_filter_none(s, pk);
        }
    }
    if top > 0 {
        let t = (top - 1) as nat;
        Seq::filter_distributes_over_add(block(s, top), ranked(s, t), p);
        if k0 == top {
            lemma_ranked_zero_filter(s, t, p, k0);
            assert(s.filter(p) + Seq::<Entry>::empty() =~= s.filter(p));
        } else {
            lemma_filter_ranked(s, t, p, k0);
            assert(Seq::<Entry>::empty() + s.filter(p) =~= s.filter(p));
        }
    }
}

proof fn lemma_ranked_zero_filter(s: Seq<Entry>, top: nat, p: spec_fn(Entry) -> bool, k0: nat)
    requires
        forall|i: int| 0 <= i < s.len() && p(s[i]) ==> s[i].1.len() == k0,
        k0 > top,
    ensures
        ranked(s, top).filter(p) == Seq::<Entry>::empty(),
    decreases top,
{
    let pk = |e: Entry| e.1.len() == top && p(e);
    lemma_filter_and(s, has_count(top), p, pk);
    lemma_filter_none(s, pk);
    if top > 0 {
        let t = (top - 1) as nat;
        Seq::filter_distributes_over_add(block(s, top), ranked(s, t), p);
        lemma_ranked_zero_filter(s, t, p, k0);
        assert(Seq::<Entry>::empty() + Seq::<Entry>::empty() =~= Seq::<Entry>::empty());
    }
}

} // verus!
