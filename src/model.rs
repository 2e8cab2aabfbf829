//! The mathematical model: leftmost greedy alignments, and the stable
//! ordering of candidates by match count.

use vstd::prelude::*;

verus! {

/// A candidate as the contracts see it: its text and its matched positions.
pub type Entry = (Seq<char>, Seq<usize>);

/// The first index at or after `start` at which `text` holds `c`.
pub open spec fn first_from(text: Seq<char>, c: char, start: int) -> Option<int>
    decreases text.len() - start,
{
    if 0 <= start < text.len() {
        if text[start] == c {
            Some(start)
        } else {
            first_from(text, c, start + 1)
        }
    } else {
        None
    }
}

/// Where the search for the next term character begins.
pub open spec fn next_start(prev: Seq<usize>) -> int {
    if prev.len() == 0 {
        0
    } else {
        prev.last() + 1
    }
}

/// The leftmost greedy alignment of `term` in `text`: one position per matched
/// prefix character of `term`, each the earliest fitting one after the previous.
pub open spec fn greedy(text: Seq<char>, term: Seq<char>) -> Seq<usize>
    decreases term.len(),
{
    if term.len() == 0 {
        Seq::empty()
    } else {
        let prev = greedy(text, term.drop_last());
        if prev.len() < term.len() - 1 {
            prev
        } else {
            match first_from(text, term.last(), next_start(prev)) {
                Some(p) => prev.push(p as usize),
                None => prev,
            }
        }
    }
}

/// Pairs a text with its alignment against `term`.
pub open spec fn match_fn(term: Seq<char>) -> spec_fn(Seq<char>) -> Entry {
    |t: Seq<char>| (t, greedy(t, term))
}

/// Replaces an entry's alignment by the one against `term`.
pub open spec fn rematch_fn(term: Seq<char>) -> spec_fn(Entry) -> Entry {
    |e: Entry| (e.0, greedy(e.0, term))
}

/// Every entry of `s` realigned against `term`, in the same order.
pub open spec fn rematched(s: Seq<Entry>, term: Seq<char>) -> Seq<Entry> {
    s.map_values(rematch_fn(term))
}

/// Whether an entry has exactly `k` matches.
pub open spec fn has_count(k: nat) -> spec_fn(Entry) -> bool {
    |e: Entry| e.1.len() == k
}

/// The entries of `s` with exactly `k` matches, in their order in `s`.
pub open spec fn block(s: Seq<Entry>, k: nat) -> Seq<Entry> {
    s.filter(has_count(k))
}

/// `s` stably ordered by match count, from `top` matches down to none.
pub open spec fn ranked(s: Seq<Entry>, top: nat) -> Seq<Entry>
    decreases top,
{
    if top == 0 {
        block(s, 0)
    } else {
        block(s, top) + ranked(s, (top - 1) as nat)
    }
}

/// What a fresh searcher holds for `term` over `texts`.
pub open spec fn rebuild(term: Seq<char>, texts: Seq<Seq<char>>) -> Seq<Entry> {
    ranked(texts.map_values(match_fn(term)), term.len())
}

/// Match counts never rise from one entry to the next.
pub open spec fn sorted_by_count(s: Seq<Entry>) -> bool {
    forall|i: int, j: int| 0 <= i < j < s.len() ==> s[j].1.len() <= s[i].1.len()
}

/// No entry has more than `top` matches.
pub open spec fn counts_at_most(s: Seq<Entry>, top: nat) -> bool {
    forall|i: int| 0 <= i < s.len() ==> s[i].1.len() <= top
}

/// For every count, the entries with that count come in the same order.
pub open spec fn same_blocks(a: Seq<Entry>, b: Seq<Entry>) -> bool {
    forall|k: nat| #[trigger] block(a, k) == block(b, k)
}

/// A found position lies at or after `start` and holds `c`.
pub proof fn lemma_first_from(text: Seq<char>, c: char, start: int)
    requires
        0 <= start,
    ensures
        match first_from(text, c, start) {
            Some(p) => start <= p < text.len() && text[p] == c,
            None => true,
        },
    decreases text.len() - start,
{
    if 0 <= start < text.len() && text[start] != c {
        lemma_first_from(text, c, start + 1);
    }
}

/// An alignment never has more positions than the term has characters.
pub proof fn lemma_greedy_len(text: Seq<char>, term: Seq<char>)
    ensures
        greedy(text, term).len() <= term.len(),
    decreases term.len(),
{
    if term.len() > 0 {
        lemma_greedy_len(text, term.drop_last());
    }
}

/// The alignment is a strictly increasing list of positions in `text`, each
/// holding the term character of the same rank.
pub proof fn lemma_greedy_valid(text: Seq<char>, term: Seq<char>)
    requires
        text.len() <= usize::MAX,
    ensures
        greedy(text, term).len() <= term.len(),
        forall|i: int|
            0 <= i < greedy(text, term).len() ==> {
                &&& (#[trigger] greedy(text, term)[i]) < text.len()
                &&& text[greedy(text, term)[i] as int] == term[i]
            },
        forall|i: int, j: int|
            0 <= i < j < greedy(text, term).len() ==> greedy(text, term)[i] < greedy(text, term)[j],
    decreases term.len(),
{
    lemma_greedy_len(text, term);
    if term.len() > 0 {
        let prev = greedy(text, term.drop_last());
        lemma_greedy_valid(text, term.drop_last());
        if prev.len() == term.len() - 1 {
            lemma_first_from(text, term.last(), next_start(prev));
        }
    }
}

/// One more term character: the alignment is kept and grows by at most one.
pub proof fn lemma_greedy_push(text: Seq<char>, term: Seq<char>, c: char)
    ensures
        greedy(text, term.push(c)) == ({
            let prev = greedy(text, term);
            if prev.len() < term.len() {
                prev
            } else {
                match first_from(text, c, next_start(prev)) {
                    Some(p) => prev.push(p as usize),
                    None => prev,
                }
            }
        }),
{
    assert(term.push(c).drop_last() =~= term);
    lemma_greedy_len(text, term);
}

/// One term character less: a full alignment loses its last position, any
/// other stays as it is.
pub proof fn lemma_greedy_pop(text: Seq<char>, term: Seq<char>)
    requires
        term.len() > 0,
    ensures
        greedy(text, term).len() == term.len() ==> greedy(text, term.drop_last()) == greedy(
            text,
            term,
        ).drop_last(),
        greedy(text, term).len() < term.len() ==> greedy(text, term.drop_last()) == greedy(
            text,
            term,
        ),
{
    let shorter = term.drop_last();
    let g = greedy(text, shorter);
    lemma_greedy_len(text, term);
    lemma_greedy_len(text, shorter);
    if g.len() == shorter.len() {
        match first_from(text, term.last(), next_start(g)) {
            Some(p) => {
                assert(g.push(p as usize).drop_last() =~= g);
            },
            None => {},
        }
    }
}

/// Once an alignment falls short of its term, longer terms leave it as it is.
pub proof fn lemma_greedy_stays(text: Seq<char>, term: Seq<char>, k: int)
    requires
        0 <= k <= term.len(),
        greedy(text, term.take(k)).len() < k,
    ensures
        greedy(text, term) == greedy(text, term.take(k)),
    decreases term.len(),
{
    if k < term.len() {
        assert(term.drop_last().take(k) =~= term.take(k));
        lemma_greedy_stays(text, term.drop_last(), k);
    } else {
        assert(term.take(k) =~= term);
    }
}

} // verus!
