//! What holds across operations: appends and removals agree with building a
//! fresh searcher, and match counts move by at most one.

use vstd::prelude::*;
use crate::model::{
    block, greedy, has_count, match_fn, ranked, rebuild, rematch_fn, rematched, sorted_by_count,
    Entry, lemma_greedy_len, lemma_greedy_pop, lemma_greedy_push,
};
use crate::order::{
    lemma_filter_agree, lemma_filter_all, lemma_filter_map, lemma_filter_none,
    lemma_filter_ranked, lemma_filter_split, lemma_ranked_same_blocks, lemma_ranked_sorted,
    lemma_sorted_is_ranked,
};

verus! {

broadcast use vstd::seq_lib::group_filter_ensures;

/// The candidates after appending each character of `extra` in turn to a
/// searcher holding `states` for `term`.
pub open spec fn after_appends(states: Seq<Entry>, term: Seq<char>, extra: Seq<char>) -> Seq<Entry>
    decreases extra.len(),
{
    if extra.len() == 0 {
        states
    } else {
        let longer = term.push(extra[0]);
        after_appends(
            ranked(rematched(states, longer), longer.len()),
            longer,
            extra.drop_first(),
        )
    }
}

/// Every text that matches the whole of `term` comes before every text that
/// misses only its last character.
pub open spec fn full_matches_lead(term: Seq<char>, texts: Seq<Seq<char>>) -> bool {
    forall|i: int, j: int|
        0 <= i < j < texts.len() ==> !(greedy(texts[i], term).len() + 1 == term.len() && greedy(
            texts[j],
            term,
        ).len() == term.len())
}

/// Filtering keeps every entry aligned against `term`.
proof fn lemma_filter_keeps(s: Seq<Entry>, f: spec_fn(Entry) -> bool, term: Seq<char>)
    requires
        forall|i: int| 0 <= i < s.len() ==> (#[trigger] s[i]).1 == greedy(s[i].0, term),
    ensures
        forall|i: int|
            0 <= i < s.filter(f).len() ==> (#[trigger] s.filter(f)[i]).1 == greedy(
                s.filter(f)[i].0,
                term,
            ),
    decreases s.len(),
{
    reveal(Seq::filter);
    if s.len() > 0 {
        lemma_filter_keeps(s.drop_last(), f, term);
        let t = s.drop_last().filter(f);
        assert forall|i: int| 0 <= i < t.len() implies (#[trigger] t[i]).1 == greedy(
            t[i].0,
            term,
        ) by {}
        assert(s[s.len() - 1] == s.last());
    }
}

/// Ranking keeps every entry aligned against `term`.
proof fn lemma_ranked_keeps(s: Seq<Entry>, top: nat, term: Seq<char>)
    requires
        forall|i: int| 0 <= i < s.len() ==> (#[trigger] s[i]).1 == greedy(s[i].0, term),
    ensures
        forall|i: int|
            0 <= i < ranked(s, top).len() ==> (#[trigger] ranked(s, top)[i]).1 == greedy(
                ranked(s, top)[i].0,
                term,
            ),
    decreases top,
{
    lemma_filter_keeps(s, has_count(top), term);
    if top > 0 {
        lemma_ranked_keeps(s, (top - 1) as nat, term);
        let b = block(s, top);
        let r = ranked(s, (top - 1) as nat);
        assert forall|i: int| 0 <= i < (b + r).len() implies (#[trigger] (b + r)[i]).1 == greedy(
            (b + r)[i].0,
            term,
        ) by {
            if i < b.len() {
                assert((b + r)[i] == b[i]);
            } else {
                assert((b + r)[i] == r[i - b.len()]);
            }
        }
    }
}

/// Appending a character to a fresh searcher's term gives what a fresh
/// searcher for the longer term holds.
pub proof fn law_append_matches_rebuild(term: Seq<char>, c: char, texts: Seq<Seq<char>>)
    ensures
        ranked(rematched(rebuild(term, texts), term.push(c)), term.len() + 1) == rebuild(
            term.push(c),
            texts,
        ),
{
    let n = term.len();
    let longer = term.push(c);
    let h = rematch_fn(longer);
    let s = texts.map_values(match_fn(term));
    let s2 = texts.map_values(match_fn(longer));
    let r = ranked(s, n);
    let y = rematched(r, longer);
    assert(s2 =~= s.map_values(h));
    assert forall|i: int| 0 <= i < s.len() implies {
        &&& (#[trigger] s[i]).1.len() <= n
        &&& s[i].1.len() < n ==> h(s[i]).1.len() == s[i].1.len()
        &&& s[i].1.len() == n ==> h(s[i]).1.len() >= n
    } by {
        lemma_greedy_push(texts[i], term, c);
        lemma_greedy_len(texts[i], term);
    }
    assert forall|k: nat| k <= n + 1 implies #[trigger] block(y, k) == block(s2, k) by {
        let pk = |e: Entry| h(e).1.len() == k;
        lemma_filter_map(r, h, has_count(k), pk);
        lemma_filter_map(s, h, has_count(k), pk);
        let k0: nat = if k >= n {
            n
        } else {
            k
        };
        lemma_filter_ranked(s, n, pk, k0);
    }
    lemma_ranked_same_blocks(y, s2, n + 1);
}

/// Starting from a fresh searcher for `start` and appending the characters of
/// `rest` one by one gives what a fresh searcher for `start + rest` holds.
pub proof fn law_appends_match_rebuild(start: Seq<char>, rest: Seq<char>, texts: Seq<Seq<char>>)
    ensures
        after_appends(rebuild(start, texts), start, rest) == rebuild(start + rest, texts),
    decreases rest.len(),
{
    if rest.len() == 0 {
        assert(start + rest =~= start);
    } else {
        let longer = start.push(rest[0]);
        law_append_matches_rebuild(start, rest[0], texts);
        law_appends_match_rebuild(longer, rest.drop_first(), texts);
        assert(longer + rest.drop_first() =~= start + rest);
    }
}

/// Removing the last character from a fresh searcher's term gives what a
/// fresh searcher for the shorter term holds, whenever every text that
/// matched the whole term came before every text that missed only its last
/// character. Where one came after, removal keeps it ahead while a fresh
/// searcher puts the two back in their order of input.
pub proof fn law_remove_matches_rebuild(term: Seq<char>, texts: Seq<Seq<char>>)
    requires
        term.len() > 0,
        full_matches_lead(term, texts),
    ensures
        rematched(rebuild(term, texts), term.drop_last()) == rebuild(term.drop_last(), texts),
{
    let n = term.len();
    let m = (n - 1) as nat;
    let shorter = term.drop_last();
    let h = rematch_fn(shorter);
    let s = texts.map_values(match_fn(term));
    let s2 = texts.map_values(match_fn(shorter));
    let r = ranked(s, n);
    let z = rematched(r, shorter);
    assert(s2 =~= s.map_values(h));
    assert forall|i: int| 0 <= i < s.len() implies (#[trigger] s[i]).1 == greedy(s[i].0, term) by {}
    lemma_ranked_keeps(s, n, term);
    lemma_ranked_sorted(s, n);
    assert forall|e: Entry| e.1 == greedy(e.0, term) implies {
        &&& e.1.len() <= n
        &&& e.1.len() == n ==> #[trigger] h(e).1.len() == m
        &&& e.1.len() < n ==> h(e).1.len() == e.1.len()
    } by {
        lemma_greedy_len(e.0, term);
        lemma_greedy_pop(e.0, term);
    }
    // the result is ordered, so it is its own ranking
    assert forall|a: int, b: int| 0 <= a < b < z.len() implies z[b].1.len() <= z[a].1.len() by {
        assert(r[a].1 == greedy(r[a].0, term));
        assert(r[b].1 == greedy(r[b].0, term));
        assert(h(r[a]).1.len() <= m);
        assert(h(r[b]).1.len() <= m);
    }
    assert forall|i: int| 0 <= i < z.len() implies z[i].1.len() <= m by {
        assert(r[i].1 == greedy(r[i].0, term));
        assert(h(r[i]).1.len() <= m);
    }
    lemma_sorted_is_ranked(z, m);
    assert forall|k: nat| k <= m implies #[trigger] block(z, k) == block(s2, k) by {
        let pk = |e: Entry| h(e).1.len() == k;
        lemma_filter_map(r, h, has_count(k), pk);
        lemma_filter_map(s, h, has_count(k), pk);
        if k < m {
            assert forall|i: int| 0 <= i < s.len() && pk(s[i]) implies s[i].1.len() == k by {
                assert(h(s[i]).1.len() <= m);
            }
            lemma_filter_ranked(s, n, pk, k);
        } else {
            let both = |e: Entry| e.1.len() == n || e.1.len() == m;
            lemma_ranked_top_two(s, n, h, pk, term, texts);
            lemma_input_top_two(s, n, h, pk, both, term, texts);
            assert forall|i: int, j: int| 0 <= i < j < s.len() implies !(has_count(m)(s[i])
                && has_count(n)(s[j])) by {
                assert(s[i].0 == texts[i]);
                assert(s[j].0 == texts[j]);
            }
            lemma_filter_split(s, has_count(n), has_count(m), both);
        }
    }
    lemma_ranked_same_blocks(z, s2, m);
}

/// Filtering the ranking by "one below the term's length after removal"
/// gives the two top blocks, full matches first.
proof fn lemma_ranked_top_two(
    s: Seq<Entry>,
    n: nat,
    h: spec_fn(Entry) -> Entry,
    pk: spec_fn(Entry) -> bool,
    term: Seq<char>,
    texts: Seq<Seq<char>>,
)
    requires
        n == term.len(),
        n > 0,
        s == texts.map_values(match_fn(term)),
        h == rematch_fn(term.drop_last()),
        forall|e: Entry| #[trigger] pk(e) == (h(e).1.len() == n - 1),
    ensures
        ranked(s, n).filter(pk) == block(s, n) + block(s, (n - 1) as nat),
{
    let m = (n - 1) as nat;
    assert forall|e: Entry| e.1 == greedy(e.0, term) implies {
        &&& e.1.len() <= n
        &&& e.1.len() == n ==> #[trigger] h(e).1.len() == n - 1
        &&& e.1.len() < n ==> h(e).1.len() == e.1.len()
    } by {
        lemma_greedy_len(e.0, term);
        lemma_greedy_pop(e.0, term);
    }
    assert forall|i: int| 0 <= i < s.len() implies (#[trigger] s[i]).1 == greedy(s[i].0, term) by {}
    let bn = block(s, n);
    let bm = block(s, m);
    lemma_filter_keeps(s, has_count(n), term);
    lemma_filter_keeps(s, has_count(m), term);
    assert forall|i: int| 0 <= i < bn.len() implies pk(#[trigger] bn[i]) by {}
    assert forall|i: int| 0 <= i < bm.len() implies pk(#[trigger] bm[i]) by {}
    lemma_filter_all(bn, pk);
    lemma_filter_all(bm, pk);
    Seq::filter_distributes_over_add(bn, ranked(s, m), pk);
    if m == 0 {
        assert(ranked(s, m) == bm);
    } else {
        let rest = ranked(s, (m - 1) as nat);
        lemma_ranked_keeps(s, (m - 1) as nat, term);
        lemma_ranked_sorted(s, (m - 1) as nat);
        assert forall|i: int| 0 <= i < rest.len() implies !pk(#[trigger] rest[i]) by {
            assert(rest[i].1 == greedy(rest[i].0, term));
        }
        lemma_filter_none(rest, pk);
        Seq::filter_distributes_over_add(bm, rest, pk);
        assert(bm + Seq::<Entry>::empty() =~= bm);
    }
}

/// The input filtered the same way, in input order.
proof fn lemma_input_top_two(
    s: Seq<Entry>,
    n: nat,
    h: spec_fn(Entry) -> Entry,
    pk: spec_fn(Entry) -> bool,
    both: spec_fn(Entry) -> bool,
    term: Seq<char>,
    texts: Seq<Seq<char>>,
)
    requires
        n == term.len(),
        n > 0,
        s == texts.map_values(match_fn(term)),
        h == rematch_fn(term.drop_last()),
        forall|e: Entry| #[trigger] pk(e) == (h(e).1.len() == n - 1),
        forall|e: Entry| #[trigger] both(e) == (e.1.len() == n || e.1.len() == n - 1),
    ensures
        s.filter(pk) == s.filter(both),
{
    assert forall|e: Entry| e.1 == greedy(e.0, term) implies {
        &&& e.1.len() <= n
        &&& e.1.len() == n ==> #[trigger] h(e).1.len() == n - 1
        &&& e.1.len() < n ==> h(e).1.len() == e.1.len()
    } by {
        lemma_greedy_len(e.0, term);
        lemma_greedy_pop(e.0, term);
    }
    assert forall|i: int| 0 <= i < s.len() implies (#[trigger] s[i]).1 == greedy(s[i].0, term) by {}
    lemma_filter_agree(s, pk, both);
}

/// Filtering by a predicate keeps its elements in their relative order: if
/// the result runs from most to fewest matches, so do the kept elements.
proof fn lemma_filter_order(s: Seq<Entry>, p: spec_fn(Entry) -> bool)
    requires
        sorted_by_count(s.filter(p)),
    ensures
        forall|i: int, j: int|
            0 <= i < j < s.len() && p(s[i]) && p(s[j]) ==> s[j].1.len() <= s[i].1.len(),
    decreases s.len(),
{
    reveal(Seq::filter);
    if s.len() > 0 {
        let t = s.drop_last();
        let x = s.last();
        let ft = t.filter(p);
        assert(sorted_by_count(ft)) by {
            if p(x) {
                assert forall|a: int, b: int| 0 <= a < b < ft.len() implies ft[b].1.len()
                    <= ft[a].1.len() by {
                    assert(ft[a] == s.filter(p)[a]);
                    assert(ft[b] == s.filter(p)[b]);
                }
            }
        }
        lemma_filter_order(t, p);
        assert forall|i: int, j: int|
            0 <= i < j < s.len() && p(s[i]) && p(s[j]) implies s[j].1.len() <= s[i].1.len() by {
            assert(s[i] == t[i]);
            if j == s.len() - 1 {
                assert(ft.contains(t[i]));
                let a = choose|a: int| 0 <= a < ft.len() && ft[a] == t[i];
                assert(s.filter(p)[a] == t[i]);
                assert(s.filter(p)[ft.len() as int] == x);
            } else {
                assert(s[j] == t[j]);
            }
        }
    }
}

/// Where some text that matches the whole of `term` comes after a text that
/// misses only its last character, removing the last character keeps the
/// first ahead of the second, while a fresh searcher for the shorter term
/// puts them back in their order of input: the two differ.
pub proof fn law_remove_differs_from_rebuild(term: Seq<char>, texts: Seq<Seq<char>>)
    requires
        term.len() > 0,
        !full_matches_lead(term, texts),
    ensures
        rematched(rebuild(term, texts), term.drop_last()) != rebuild(term.drop_last(), texts),
{
    let n = term.len();
    let m = (n - 1) as nat;
    let shorter = term.drop_last();
    let h = rematch_fn(shorter);
    let s = texts.map_values(match_fn(term));
    let s2 = texts.map_values(match_fn(shorter));
    let r = ranked(s, n);
    let z = rematched(r, shorter);
    assert(s2 =~= s.map_values(h));
    let (i, j) = choose|i: int, j: int|
        0 <= i < j < texts.len() && greedy(texts[i], term).len() + 1 == term.len() && greedy(
            texts[j],
            term,
        ).len() == term.len();
    if z == ranked(s2, m) {
        let pk = |e: Entry| h(e).1.len() == m;
        let both = |e: Entry| e.1.len() == n || e.1.len() == m;
        lemma_filter_map(r, h, has_count(m), pk);
        lemma_filter_map(s, h, has_count(m), pk);
        lemma_ranked_top_two(s, n, h, pk, term, texts);
        lemma_input_top_two(s, n, h, pk, both, term, texts);
        lemma_filter_ranked(s2, m, has_count(m), m);
        let bn = block(s, n);
        let bm = block(s, m);
        let x = bn + bm;
        let y = s.filter(both);
        assert(x.map_values(h) == y.map_values(h));
        assert forall|a: int| 0 <= a < s.len() implies (#[trigger] s[a]).1 == greedy(s[a].0, term) by {}
        lemma_filter_keeps(s, has_count(n), term);
        lemma_filter_keeps(s, has_count(m), term);
        lemma_filter_keeps(s, both, term);
        assert(x.len() == y.len()) by {
            assert(x.map_values(h).len() == y.map_values(h).len());
        }
        assert forall|a: int| 0 <= a < x.len() implies #[trigger] x[a] == y[a] by {
            assert(x.map_values(h)[a] == y.map_values(h)[a]);
            if a < bn.len() {
                assert(x[a] == bn[a]);
            } else {
                assert(x[a] == bm[a - bn.len()]);
            }
        }
        assert(x =~= y);
        assert forall|a: int, b: int| 0 <= a < b < x.len() implies x[b].1.len() <= x[a].1.len() by {
            if a < bn.len() {
                assert(x[a] == bn[a]);
                s.lemma_filter_pred(has_count(n), a);
                if b < bn.len() {
                    assert(x[b] == bn[b]);
                    s.lemma_filter_pred(has_count(n), b);
                } else {
                    assert(x[b] == bm[b - bn.len()]);
                    s.lemma_filter_pred(has_count(m), b - bn.len());
                }
            } else {
                assert(x[a] == bm[a - bn.len()]);
                assert(x[b] == bm[b - bn.len()]);
                s.lemma_filter_pred(has_count(m), a - bn.len());
                s.lemma_filter_pred(has_count(m), b - bn.len());
            }
        }
        lemma_filter_order(s, both);
        assert(s[i].0 == texts[i]);
        assert(s[j].0 == texts[j]);
        assert(both(s[i]) && both(s[j]));
    }
}

/// Appending a character never lowers a text's match count and raises it by
/// at most one, keeping the earlier positions; read the other way, removing
/// the last character never raises it.
pub proof fn law_match_count_monotone(text: Seq<char>, term: Seq<char>, c: char)
    ensures
        greedy(text, term).len() <= greedy(text, term.push(c)).len() <= greedy(text, term).len()
            + 1,
        greedy(text, term.push(c)).take(greedy(text, term).len() as int) == greedy(text, term),
{
    lemma_greedy_push(text, term, c);
    let g = greedy(text, term);
    if g.len() == term.len() {
        match crate::model::first_from(text, c, crate::model::next_start(g)) {
            Some(p) => {
                assert(g.push(p as usize).take(g.len() as int) =~= g);
            },
            None => {
                assert(g.take(g.len() as int) =~= g);
            },
        }
    } else {
        assert(g.take(g.len() as int) =~= g);
    }
}

/// Removing the last character of the term never raises a text's match count.
pub proof fn law_removal_never_adds(text: Seq<char>, term: Seq<char>)
    requires
        term.len() > 0,
    ensures
        greedy(text, term.drop_last()).len() <= greedy(text, term).len(),
{
    lemma_greedy_pop(text, term);
    lemma_greedy_len(text, term);
}

} // verus!
