//! The searcher and its three operations: build, append a character, remove
//! the last one.

use vstd::prelude::*;
use crate::model::{
    block, counts_at_most, first_from, greedy, match_fn, next_start, ranked, rebuild, rematch_fn,
    rematched, same_blocks, sorted_by_count, Entry, lemma_greedy_len, lemma_greedy_pop, lemma_greedy_push,
    lemma_greedy_stays, lemma_greedy_valid,
};
use crate::order::{
    lemma_block_push, lemma_move_keeps_blocks, lemma_ranked_same_blocks, lemma_sorted_is_ranked,
};

verus! {

/// One text being searched, with where the term's characters were found in it.
#[derive(Debug, PartialEq, Eq)]
pub struct BeingSearchedState {
    pub text: String,
    pub matching_indexes: Vec<usize>,
}

impl View for BeingSearchedState {
    type V = Entry;

    open spec fn view(&self) -> Entry {
        (self.text@, self.matching_indexes@)
    }
}

pub open spec fn entries_of(v: Seq<BeingSearchedState>) -> Seq<Entry> {
    v.map_values(|s: BeingSearchedState| s@)
}

/// `t` is `s` with its element at `r` moved forward to `p`, past elements that
/// have fewer matches, and stopping behind one that has at least as many.
spec fn moved_to(s: Seq<Entry>, r: int, p: int, t: Seq<Entry>) -> bool {
    &&& 0 <= p <= r < s.len()
    &&& t == s.take(p) + seq![s[r]] + s.subrange(p, r) + s.skip(r + 1)
    &&& (p == 0 || s[p - 1].1.len() >= s[r].1.len())
    &&& forall|q: int| p <= q < r ==> s[q].1.len() < s[r].1.len()
}

/// The searcher: a term and, for each text, its leftmost greedy alignment,
/// kept ordered from most to fewest matches.
#[derive(Debug, PartialEq, Eq)]
pub struct FuzzySearcher {
    pub search_states: Vec<BeingSearchedState>,
    pub search_term: String,
}

/// Relies on `String::push`: the character is added at the end.
#[verifier::external_body]
fn push_char(s: &mut String, c: char)
    ensures
        final(s)@ == old(s)@.push(c),
{
    s.push(c);
}

/// Relies on `String::pop`: the last character is removed and returned, if any.
#[verifier::external_body]
fn pop_char(s: &mut String) -> (r: Option<char>)
    ensures
        old(s)@.len() == 0 ==> r is None && final(s)@ == old(s)@,
        old(s)@.len() > 0 ==> r == Some(old(s)@.last()) && final(s)@ == old(s)@.drop_last(),
{
    s.pop()
}

/// Exchanges the state at `i` with the one before it.
fn swap_with_previous(v: &mut Vec<BeingSearchedState>, i: usize)
    requires
        0 < i < old(v).len(),
    ensures
        final(v)@ == old(v)@.update(i as int, old(v)@[i - 1]).update(i - 1, old(v)@[i as int]),
{
    let mut held = BeingSearchedState { text: String::new(), matching_indexes: Vec::new() };
    std::mem::swap(&mut v[i], &mut held);
    std::mem::swap(&mut v[i - 1], &mut held);
    std::mem::swap(&mut v[i], &mut held);
}

/// Moves the state at `start_index` toward the front while it has strictly
/// more matches than the one before it.
fn single_push_up_sort(search_states: &mut Vec<BeingSearchedState>, start_index: usize)
    requires
        start_index < old(search_states).len(),
    ensures
        final(search_states)@.len() == old(search_states)@.len(),
        exists|p: int|
            moved_to(
                entries_of(old(search_states)@),
                start_index as int,
                p,
                entries_of(final(search_states)@),
            ),
        same_blocks(entries_of(final(search_states)@), entries_of(old(search_states)@)),
{
    let ghost s = entries_of(search_states@);
    let ghost r = start_index as int;
    let mut current_sorting_index: usize = start_index;
    while current_sorting_index > 0 && search_states[current_sorting_index].matching_indexes.len()
        > search_states[current_sorting_index - 1].matching_indexes.len()
        invariant
            current_sorting_index <= start_index < s.len(),
            r == start_index as int,
            search_states@.len() == s.len(),
            entries_of(search_states@) == s.take(current_sorting_index as int) + seq![s[r]]
                + s.subrange(current_sorting_index as int, r) + s.skip(r + 1),
            forall|q: int| current_sorting_index <= q < r ==> s[q].1.len() < s[r].1.len(),
        decreases current_sorting_index,
    {
        let ghost c = current_sorting_index as int;
        assert(entries_of(search_states@)[c] == s[r]);
        assert(entries_of(search_states@)[c - 1] == s[c - 1]);
        let ghost prior = entries_of(search_states@);
        swap_with_previous(search_states, current_sorting_index);
        current_sorting_index -= 1;
        assert(entries_of(search_states@) =~= prior.update(c, prior[c - 1]).update(c - 1, prior[c]));
        proof {
            lemma_step_forward(s, r, c);
        }
    }
    proof {
        let p = current_sorting_index as int;
        let t = entries_of(search_states@);
        if p > 0 {
            assert(t[p] == s[r]);
            assert(t[p - 1] == s[p - 1]);
        }
        assert(moved_to(s, r, p, t));
        lemma_move_keeps_blocks(s, p, r);
    }
}

/// The leftmost greedy alignment of `term` in `text`, by one left-to-right scan.
fn leftmost_matches(text: &String, term: &String) -> (r: Vec<usize>)
    ensures
        r@ == greedy(text@, term@),
{
    let text_len = text.as_str().unicode_len();
    let term_len = term.as_str().unicode_len();
    let mut positions: Vec<usize> = Vec::new();
    let mut i: usize = 0;
    let mut k: usize = 0;
    assert(term@.take(0) =~= Seq::<char>::empty());
    while i < text_len && k < term_len
        invariant
            text_len == text@.len(),
            term_len == term@.len(),
            i <= text_len,
            k <= term_len,
            positions@.len() == k,
            positions@ == greedy(text@, term@.take(k as int)),
            next_start(positions@) <= i,
            k < term_len ==> first_from(text@, term@[k as int], next_start(positions@))
                == first_from(text@, term@[k as int], i as int),
        decreases text_len - i,
    {
        let c = text.as_str().get_char(i);
        if c == term.as_str().get_char(k) {
            proof {
                lemma_greedy_push(text@, term@.take(k as int), term@[k as int]);
                assert(term@.take(k as int).push(term@[k as int]) =~= term@.take(k + 1));
            }
            positions.push(i);
            k += 1;
        }
        i += 1;
    }
    proof {
        if k < term_len {
            lemma_greedy_push(text@, term@.take(k as int), term@[k as int]);
            assert(term@.take(k as int).push(term@[k as int]) =~= term@.take(k + 1));
            lemma_greedy_stays(text@, term@, k + 1);
        } else {
            assert(term@.take(k as int) =~= term@);
        }
    }
    positions
}

/// Extends a full alignment by the first occurrence of `letter` after its last
/// position; says whether one was found.
fn extend_match(state: &mut BeingSearchedState, letter: char, Ghost(term): Ghost<Seq<char>>) -> (raised: bool)
    requires
        old(state).matching_indexes@ == greedy(old(state).text@, term),
        old(state).matching_indexes@.len() == term.len(),
    ensures
        final(state).text@ == old(state).text@,
        final(state).matching_indexes@ == greedy(old(state).text@, term.push(letter)),
        raised == (final(state).matching_indexes@.len() == term.len() + 1),
{
    let ghost text = state.text@;
    let ghost prev = state.matching_indexes@;
    let text_len = state.text.as_str().unicode_len();
    proof {
        lemma_greedy_valid(text, term);
        lemma_greedy_push(text, term, letter);
    }
    let count = state.matching_indexes.len();
    let mut look_at: usize = if count == 0 {
        0
    } else {
        state.matching_indexes[count - 1] + 1
    };
    let mut found = false;
    while look_at < text_len && !found
        invariant
            text_len == text.len(),
            state.text@ == text,
            prev == greedy(text, term),
            prev.len() == term.len(),
            look_at <= text_len,
            greedy(text, term.push(letter)) == match first_from(text, letter, next_start(prev)) {
                Some(p) => prev.push(p as usize),
                None => prev,
            },
            !found ==> state.matching_indexes@ == prev,
            !found ==> first_from(text, letter, next_start(prev)) == first_from(
                text,
                letter,
                look_at as int,
            ),
            found ==> state.matching_indexes@ == greedy(text, term.push(letter)),
            found ==> state.matching_indexes@.len() == term.len() + 1,
        decreases text_len - look_at + if found {
            0int
        } else {
            1int
        },
    {
        if state.text.as_str().get_char(look_at) == letter {
            state.matching_indexes.push(look_at);
            found = true;
        } else {
            look_at += 1;
        }
    }
    found
}

/// Drops the last position of an alignment that matched the whole term.
fn shorten_match(state: &mut BeingSearchedState)
    requires
        old(state).matching_indexes@.len() > 0,
    ensures
        final(state).text@ == old(state).text@,
        final(state).matching_indexes@ == old(state).matching_indexes@.drop_last(),
{
    state.matching_indexes.pop();
}

/// What the extension pass leaves for the reordering pass: `raised` lists, in
/// increasing order, the entries of `y` that went from `n` to `n + 1` matches.
spec fn raise_plan(y: Seq<Entry>, raised: Seq<usize>, n: nat) -> bool {
    &&& y.len() <= usize::MAX
    &&& forall|a: int, b: int| 0 <= a < b < raised.len() ==> raised[a] < raised[b]
    &&& forall|a: int| 0 <= a < raised.len() ==> raised[a] < y.len()
    &&& forall|q: int| 0 <= q < y.len() ==> (y[q].1.len() == n + 1 <==> raised.contains(q as usize))
    &&& forall|q: int| 0 <= q < y.len() ==> y[q].1.len() <= n + 1
    &&& forall|q1: int, q2: int|
        0 <= q1 < q2 < y.len() && y[q1].1.len() != n + 1 && y[q2].1.len() != n + 1 ==> y[q2].1.len()
            <= y[q1].1.len()
    &&& forall|q1: int, q2: int|
        0 <= q1 < q2 < y.len() && y[q2].1.len() == n + 1 ==> y[q1].1.len() >= n
}

/// After the first `m` raised entries have moved to the front.
spec fn raise_state(e: Seq<Entry>, y: Seq<Entry>, raised: Seq<usize>, m: int, n: nat) -> bool {
    &&& e.len() == y.len()
    &&& 0 <= m <= raised.len()
    &&& forall|q: int| 0 <= q < m ==> e[q].1.len() == n + 1
    &&& m > 0 ==> forall|q: int| m <= q <= raised[m - 1] ==> e[q].1.len() == n
    &&& forall|q: int| (m == 0 || q > raised[m - 1]) && 0 <= q < e.len() ==> e[q] == y[q]
}

proof fn lemma_raise_plan(x0: Seq<Entry>, y: Seq<Entry>, raised: Seq<usize>, term: Seq<char>, letter: char)
    requires
        sorted_by_count(x0),
        forall|q: int| 0 <= q < x0.len() ==> (#[trigger] x0[q]).1 == greedy(x0[q].0, term),
        y == rematched(x0, term.push(letter)),
        y.len() <= usize::MAX,
        forall|a: int, b: int| 0 <= a < b < raised.len() ==> raised[a] < raised[b],
        forall|a: int| 0 <= a < raised.len() ==> raised[a] < y.len(),
        forall|q: int| 0 <= q < y.len() ==> (y[q].1.len() == term.len() + 1 <==> raised.contains(q as usize)),
    ensures
        raise_plan(y, raised, term.len()),
{
    let n = term.len();
    assert forall|q: int| 0 <= q < y.len() implies {
        &&& y[q].1.len() <= n + 1
        &&& y[q].1.len() == n + 1 ==> x0[q].1.len() == n
        &&& y[q].1.len() != n + 1 ==> y[q].1.len() == x0[q].1.len()
        &&& x0[q].1.len() <= n
    } by {
        lemma_greedy_push(x0[q].0, term, letter);
        lemma_greedy_len(x0[q].0, term);
    }
}

proof fn lemma_raise_step(
    e: Seq<Entry>,
    y: Seq<Entry>,
    raised: Seq<usize>,
    m: int,
    n: nat,
    e2: Seq<Entry>,
)
    requires
        raise_state(e, y, raised, m, n),
        raise_plan(y, raised, n),
        m < raised.len(),
        exists|p: int| moved_to(e, raised[m] as int, p, e2),
    ensures
        raise_state(e2, y, raised, m + 1, n),
{
    let r = raised[m] as int;
    assert(raised.contains(raised[m]));
    assert(e[r] == y[r]) by {
        if m > 0 {
            assert(raised[m - 1] < raised[m]);
        }
    }
    assert forall|q: int| m <= q < r implies e[q].1.len() == n by {
        if !(m > 0 && q <= raised[m - 1]) {
            assert(e[q] == y[q]);
            if y[q].1.len() == n + 1 {
                assert(raised.contains(q as usize));
                let a = choose|a: int| 0 <= a < raised.len() && raised[a] == q as usize;
                if a < m {
                    if m > 0 {
                        assert(raised[a] <= raised[m - 1]);
                    }
                } else if a > m {
                    assert(raised[m] < raised[a]);
                }
            }
        }
    }
    assert(m <= r) by {
        assert forall|a: int| 0 <= a <= m implies raised[a] >= a by {
            lemma_increasing_at_least_index(raised, a);
        }
    }
    let p = choose|p: int| moved_to(e, r, p, e2);
    if p < m {
        assert(e[p].1.len() == n + 1);
    } else if p > m {
        assert(e[p - 1].1.len() == n);
    }
    assert(p == m);
    assert forall|q: int| 0 <= q < m + 1 implies e2[q].1.len() == n + 1 by {
        if q < m {
            assert(e2[q] == e[q]);
        } else {
            assert(e2[q] == e[r]);
        }
    }
    assert forall|q: int| m + 1 <= q <= r implies e2[q].1.len() == n by {
        assert(e2[q] == e[q - 1]);
    }
    assert forall|q: int| q > r && 0 <= q < e2.len() implies e2[q] == y[q] by {
        assert(e2[q] == e[q]);
        if m > 0 {
            assert(raised[m - 1] < raised[m]);
        }
    }
}

proof fn lemma_increasing_at_least_index(raised: Seq<usize>, a: int)
    requires
        forall|i: int, j: int| 0 <= i < j < raised.len() ==> raised[i] < raised[j],
        0 <= a < raised.len(),
    ensures
        raised[a] >= a,
    decreases a,
{
    if a > 0 {
        lemma_increasing_at_least_index(raised, a - 1);
    }
}

proof fn lemma_raise_done(e: Seq<Entry>, y: Seq<Entry>, raised: Seq<usize>, n: nat)
    requires
        raise_state(e, y, raised, raised.len() as int, n),
        raise_plan(y, raised, n),
    ensures
        sorted_by_count(e),
        counts_at_most(e, n + 1),
{
    let m = raised.len() as int;
    assert forall|q: int| (m == 0 || q > raised[m - 1]) && 0 <= q < e.len() implies e[q].1.len() <= n by {
        if y[q].1.len() == n + 1 {
            assert(raised.contains(q as usize));
            let a = choose|a: int| 0 <= a < raised.len() && raised[a] == q as usize;
            if a < m - 1 {
                assert(raised[a] < raised[m - 1]);
            }
        }
    }
}

proof fn lemma_step_forward(s: Seq<Entry>, r: int, c: int)
    requires
        0 < c <= r < s.len(),
    ensures
        ({
            let prior = s.take(c) + seq![s[r]] + s.subrange(c, r) + s.skip(r + 1);
            prior.update(c, prior[c - 1]).update(c - 1, prior[c]) =~= s.take(c - 1) + seq![s[r]]
                + s.subrange(c - 1, r) + s.skip(r + 1)
        }),
{
    let prior = s.take(c) + seq![s[r]] + s.subrange(c, r) + s.skip(r + 1);
    let t = s.take(c - 1) + seq![s[r]] + s.subrange(c - 1, r) + s.skip(r + 1);
    let u = prior.update(c, prior[c - 1]).update(c - 1, prior[c]);
    assert(prior.len() == s.len());
    assert(t.len() == s.len());
    assert forall|q: int| 0 <= q < s.len() implies u[q] == t[q] by {
        if q < c - 1 {
            assert(prior[q] == s[q]);
            assert(t[q] == s[q]);
        } else if q == c - 1 {
            assert(prior[c] == s[r]);
        } else if q == c {
            assert(prior[c - 1] == s[c - 1]);
            assert(t[q] == s[c - 1]);
        } else if q <= r {
            assert(prior[q] == s[q - 1]);
            assert(t[q] == s[q - 1]);
        } else {
            assert(prior[q] == s[q]);
            assert(t[q] == s[q]);
        }
    }
}

proof fn lemma_push_keeps_blocks(a: Seq<Entry>, b: Seq<Entry>, x: Entry)
    requires
        same_blocks(a, b),
    ensures
        same_blocks(a.push(x), b.push(x)),
{
    assert forall|k: nat| #[trigger] block(a.push(x), k) == block(b.push(x), k) by {
        lemma_block_push(a, x, k);
        lemma_block_push(b, x, k);
    }
}

proof fn lemma_finish_ranking(e: Seq<Entry>, src: Seq<Entry>, term: Seq<char>)
    requires
        same_blocks(e, src),
        sorted_by_count(e),
        forall|q: int| 0 <= q < e.len() ==> (#[trigger] e[q]).1 == greedy(e[q].0, term),
    ensures
        e == ranked(src, term.len()),
{
    assert forall|q: int| 0 <= q < e.len() implies e[q].1.len() <= term.len() by {
        lemma_greedy_len(e[q].0, term);
    }
    lemma_sorted_is_ranked(e, term.len());
    lemma_ranked_same_blocks(e, src, term.len());
}

/// Inserting at a place where it fits keeps a sequence ordered by count.
proof fn lemma_insert_sorted(s: Seq<Entry>, x: Entry, p: int)
    requires
        sorted_by_count(s),
        0 <= p <= s.len(),
        p == 0 || s[p - 1].1.len() >= x.1.len(),
        forall|q: int| p <= q < s.len() ==> s[q].1.len() < x.1.len(),
    ensures
        sorted_by_count(s.take(p) + seq![x] + s.skip(p)),
{
    let t = s.take(p) + seq![x] + s.skip(p);
    assert forall|i: int, j: int| 0 <= i < j < t.len() implies t[j].1.len() <= t[i].1.len() by {
        if i < p && j > p {
            assert(t[i] == s[i]);
            assert(t[j] == s[j - 1]);
        } else if i < p && j == p {
            assert(t[i] == s[i]);
        } else if i < p {
            assert(t[i] == s[i]);
            assert(t[j] == s[j]);
        } else if i > p {
            assert(t[i] == s[i - 1]);
            assert(t[j] == s[j - 1]);
        } else {
            assert(t[j] == s[j - 1]);
        }
    }
}

proof fn lemma_insert_step(before: Seq<Entry>, x: Entry, i: int, now: Seq<Entry>, term: Seq<char>)
    requires
        before.len() == i,
        sorted_by_count(before),
        forall|q: int| 0 <= q < i ==> (#[trigger] before[q]).1 == greedy(before[q].0, term),
        x.1 == greedy(x.0, term),
        exists|p: int| moved_to(before.push(x), i, p, now),
    ensures
        now.len() == i + 1,
        sorted_by_count(now),
        forall|q: int| 0 <= q <= i ==> (#[trigger] now[q]).1 == greedy(now[q].0, term),
{
    let e = before.push(x);
    let p = choose|p: int| moved_to(e, i, p, now);
    assert(e.take(p) =~= before.take(p));
    assert(e.subrange(p, i) =~= before.skip(p));
    assert(e.skip(i + 1) =~= Seq::<Entry>::empty());
    assert(now =~= before.take(p) + seq![x] + before.skip(p));
    assert forall|q: int| p <= q < before.len() implies before[q].1.len() < x.1.len() by {
        assert(e[q] == before[q]);
    }
    if p > 0 {
        assert(e[p - 1] == before[p - 1]);
    }
    lemma_insert_sorted(before, x, p);
    assert forall|q: int| 0 <= q <= i implies (#[trigger] now[q]).1 == greedy(now[q].0, term) by {
        if q < p {
            assert(now[q] == before[q]);
        } else if q > p {
            assert(now[q] == before[q - 1]);
        }
    }
}

impl BeingSearchedState {
    /// For each character of the text, whether it is one of the matched
    /// positions; an empty alignment marks nothing.
    pub fn matched_marks(&self) -> (marks: Vec<bool>)
        ensures
            marks@.len() == self.text@.len(),
            forall|i: int|
                0 <= i < marks@.len() ==> marks@[i] == self.matching_indexes@.contains(i as usize),
    {
        let text_len = self.text.as_str().unicode_len();
        let mut marks: Vec<bool> = Vec::new();
        let mut i: usize = 0;
        while i < text_len
            invariant
                text_len == self.text@.len(),
                i <= text_len,
                marks@.len() == i,
                forall|q: int| 0 <= q < i ==> !marks@[q],
            decreases text_len - i,
        {
            marks.push(false);
            i += 1;
        }
        let mut k: usize = 0;
        while k < self.matching_indexes.len()
            invariant
                text_len == self.text@.len(),
                marks@.len() == text_len,
                k <= self.matching_indexes@.len(),
                forall|q: int|
                    0 <= q < text_len ==> marks@[q] == self.matching_indexes@.take(k as int).contains(
                        q as usize,
                    ),
            decreases self.matching_indexes@.len() - k,
        {
            let p = self.matching_indexes[k];
            let ghost old_marks = marks@;
            if p < text_len {
                marks.set(p, true);
            }
            proof {
                let before = self.matching_indexes@.take(k as int);
                let after = self.matching_indexes@.take(k + 1);
                assert(after =~= before.push(p));
                assert forall|q: int| 0 <= q < text_len implies marks@[q] == after.contains(
                    q as usize,
                ) by {
                    assert(after[k as int] == p);
                    if q as usize != p {
                        assert(marks@[q] == old_marks[q]);
                    }
                    if after.contains(q as usize) && q as usize != p {
                        let a = choose|a: int| 0 <= a < after.len() && after[a] == q as usize;
                        assert(before[a] == q as usize);
                    }
                    if before.contains(q as usize) {
                        let a = choose|a: int| 0 <= a < before.len() && before[a] == q as usize;
                        assert(after[a] == q as usize);
                    }
                }
            }
            k += 1;
        }
        proof {
            assert(self.matching_indexes@.take(k as int) =~= self.matching_indexes@);
        }
        marks
    }
}

impl FuzzySearcher {
    /// The candidates as (text, positions) pairs, in their current order.
    pub open spec fn entries(&self) -> Seq<Entry> {
        entries_of(self.search_states@)
    }

    /// Every alignment is the leftmost greedy one for the current term, and
    /// the candidates run from most to fewest matches.
    pub open spec fn wf(&self) -> bool {
        &&& forall|i: int|
            0 <= i < self.entries().len() ==> (#[trigger] self.entries()[i]).1 == greedy(
                self.entries()[i].0,
                self.search_term@,
            )
        &&& sorted_by_count(self.entries())
    }

    /// A searcher for `search_term` over `searching_against`: each text with its
    /// leftmost greedy alignment, ordered from most to fewest matches, texts
    /// with equally many keeping their order of input.
    pub fn new(search_term: String, searching_against: Vec<String>) -> (res: Self)
        ensures
            res.wf(),
            res.search_term@ == search_term@,
            res.entries() == rebuild(
                search_term@,
                searching_against@.map_values(|t: String| t@),
            ),
    {
        let ghost term = search_term@;
        let ghost texts = searching_against@.map_values(|t: String| t@);
        let ghost src = texts.map_values(match_fn(term));
        let mut search_states: Vec<BeingSearchedState> = Vec::new();
        let mut i: usize = 0;
        assert(src.take(0) =~= Seq::<Entry>::empty());
        assert(entries_of(search_states@) =~= Seq::<Entry>::empty());
        while i < searching_against.len()
            invariant
                i <= searching_against.len(),
                search_term@ == term,
                texts == searching_against@.map_values(|t: String| t@),
                src == texts.map_values(match_fn(term)),
                search_states@.len() == i,
                same_blocks(entries_of(search_states@), src.take(i as int)),
                sorted_by_count(entries_of(search_states@)),
                forall|q: int|
                    0 <= q < i ==> (#[trigger] entries_of(search_states@)[q]).1 == greedy(
                        entries_of(search_states@)[q].0,
                        term,
                    ),
            decreases searching_against.len() - i,
        {
            let text = searching_against[i].clone();
            let matching_indexes = leftmost_matches(&text, &search_term);
            let ghost before = entries_of(search_states@);
            let ghost x = (text@, matching_indexes@);
            search_states.push(BeingSearchedState { text, matching_indexes });
            proof {
                assert(entries_of(search_states@) =~= before.push(x));
                assert(src.take(i + 1) =~= src.take(i as int).push(src[i as int]));
                lemma_push_keeps_blocks(before, src.take(i as int), x);
            }
            single_push_up_sort(&mut search_states, i);
            proof {
                lemma_insert_step(before, x, i as int, entries_of(search_states@), term);
            }
            i += 1;
        }
        proof {
            assert(src.take(i as int) =~= src);
            lemma_finish_ranking(entries_of(search_states@), src, term);
        }
        FuzzySearcher { search_states, search_term }
    }

    /// Takes the last character off the term. Alignments that matched the
    /// whole term lose their last position; the others and the order stay.
    /// On an empty term nothing changes.
    pub fn remove_last_char_from_search_term(&mut self)
        requires
            old(self).wf(),
        ensures
            final(self).wf(),
            old(self).search_term@.len() == 0 ==> *final(self) == *old(self),
            old(self).search_term@.len() > 0 ==> {
                &&& final(self).search_term@ == old(self).search_term@.drop_last()
                &&& final(self).entries() == rematched(old(self).entries(), final(self).search_term@)
            },
    {
        let n = self.search_term.as_str().unicode_len();
        if n == 0 {
            return;
        }
        let ghost term = self.search_term@;
        let ghost shorter = term.drop_last();
        let ghost x0 = self.entries();
        let mut i: usize = 0;
        while i < self.search_states.len()
            invariant
                self.search_term@ == term,
                n == term.len(),
                n > 0,
                shorter == term.drop_last(),
                self.search_states@.len() == x0.len(),
                i <= x0.len(),
                forall|q: int| 0 <= q < x0.len() ==> (#[trigger] x0[q]).1 == greedy(x0[q].0, term),
                sorted_by_count(x0),
                forall|q: int| 0 <= q < i ==> #[trigger] self.entries()[q] == rematch_fn(shorter)(x0[q]),
                forall|q: int| i <= q < x0.len() ==> #[trigger] self.entries()[q] == x0[q],
            decreases x0.len() - i,
        {
            proof {
                assert(shorter.push(term.last()) =~= term);
                lemma_greedy_push(x0[i as int].0, shorter, term.last());
                lemma_greedy_len(x0[i as int].0, shorter);
            }
            let ghost prior = self.search_states@;
            proof {
                assert(self.entries()[i as int] == x0[i as int]);
                assert(prior[i as int]@ == x0[i as int]);
                lemma_greedy_pop(x0[i as int].0, term);
                lemma_greedy_len(x0[i as int].0, term);
            }
            if self.search_states[i].matching_indexes.len() == n {
                shorten_match(&mut self.search_states[i]);
            }
            proof {
                assert(self.search_states@ =~= prior.update(i as int, self.search_states@[i as int]));
                assert(self.entries()[i as int] == rematch_fn(shorter)(x0[i as int]));
                assert forall|q: int| 0 <= q < x0.len() && q != i implies #[trigger] self.entries()[q]
                    == entries_of(prior)[q] by {}
            }
            i += 1;
        }
        let ghost e0 = self.entries();
        assert forall|q: int| 0 <= q < x0.len() implies e0[q] == rematch_fn(shorter)(x0[q]) by {
            assert(self.entries()[q] == rematch_fn(shorter)(x0[q]));
        }
        pop_char(&mut self.search_term);
        proof {
            let e = self.entries();
            assert(e == e0);
            assert(e =~= rematched(x0, shorter));
            assert forall|q: int| 0 <= q < e.len() implies (#[trigger] e[q]).1 == greedy(e[q].0, shorter) by {
                assert(e[q] == rematch_fn(shorter)(x0[q]));
            }
            assert forall|a: int, b: int| 0 <= a < b < e.len() implies e[b].1.len() <= e[a].1.len() by {
                assert(e[a] == rematch_fn(shorter)(x0[a]));
                assert(e[b] == rematch_fn(shorter)(x0[b]));
                lemma_greedy_len(x0[a].0, term);
                lemma_greedy_len(x0[b].0, term);
                lemma_greedy_pop(x0[a].0, term);
                lemma_greedy_pop(x0[b].0, term);
            }
        }
    }

    /// Adds `letter` at the end of the term. Alignments that matched the whole
    /// term try to take the first `letter` after their last position; those
    /// that grew move ahead of the ones that did not, the order otherwise kept.
    pub fn add_char_to_end(&mut self, letter: char)
        requires
            old(self).wf(),
        ensures
            final(self).wf(),
            final(self).search_term@ == old(self).search_term@.push(letter),
            final(self).entries() == ranked(
                rematched(old(self).entries(), final(self).search_term@),
                final(self).search_term@.len(),
            ),
    {
        let n = self.search_term.as_str().unicode_len();
        let ghost term = self.search_term@;
        let ghost longer = term.push(letter);
        let ghost x0 = self.entries();
        let mut search_state_indexes_to_push_up: Vec<usize> = Vec::new();
        let mut i: usize = 0;
        while i < self.search_states.len()
            invariant
                self.search_term@ == term,
                n == term.len(),
                longer == term.push(letter),
                self.search_states@.len() == x0.len(),
                i <= x0.len(),
                forall|q: int| 0 <= q < x0.len() ==> (#[trigger] x0[q]).1 == greedy(x0[q].0, term),
                sorted_by_count(x0),
                forall|q: int| 0 <= q < i ==> #[trigger] self.entries()[q] == rematch_fn(longer)(x0[q]),
                forall|q: int| i <= q < x0.len() ==> #[trigger] self.entries()[q] == x0[q],
                forall|a: int, b: int|
                    0 <= a < b < search_state_indexes_to_push_up@.len()
                        ==> search_state_indexes_to_push_up@[a] < search_state_indexes_to_push_up@[b],
                forall|a: int|
                    0 <= a < search_state_indexes_to_push_up@.len()
                        ==> search_state_indexes_to_push_up@[a] < i,
                forall|q: int|
                    0 <= q < i ==> (greedy(x0[q].0, longer).len() == n + 1
                        <==> search_state_indexes_to_push_up@.contains(q as usize)),
            decreases x0.len() - i,
        {
            let ghost prior = self.search_states@;
            let ghost before = search_state_indexes_to_push_up@;
            proof {
                assert(self.entries()[i as int] == x0[i as int]);
                assert(prior[i as int]@ == x0[i as int]);
                lemma_greedy_push(x0[i as int].0, term, letter);
                lemma_greedy_len(x0[i as int].0, term);
            }
            if self.search_states[i].matching_indexes.len() == n {
                let grew = extend_match(&mut self.search_states[i], letter, Ghost(term));
                if grew {
                    search_state_indexes_to_push_up.push(i);
                }
            }
            proof {
                assert(self.search_states@ =~= prior.update(i as int, self.search_states@[i as int]));
                assert(self.entries()[i as int] == rematch_fn(longer)(x0[i as int]));
                assert forall|q: int| 0 <= q < x0.len() && q != i implies #[trigger] self.entries()[q]
                    == entries_of(prior)[q] by {}
                assert forall|q: int| 0 <= q <= i implies (greedy(x0[q].0, longer).len() == n + 1
                    <==> search_state_indexes_to_push_up@.contains(q as usize)) by {
                    if q < i {
                        if before.contains(q as usize) {
                            let a = choose|a: int| 0 <= a < before.len() && before[a] == q as usize;
                            assert(search_state_indexes_to_push_up@[a] == q as usize);
                        }
                        if search_state_indexes_to_push_up@.contains(q as usize) {
                            let a = choose|a: int|
                                0 <= a < search_state_indexes_to_push_up@.len()
                                    && search_state_indexes_to_push_up@[a] == q as usize;
                            if a < before.len() {
                                assert(before[a] == q as usize);
                            }
                        }
                    } else {
                        if greedy(x0[q].0, longer).len() == n + 1 {
                            assert(search_state_indexes_to_push_up@[before.len() as int] == i);
                        } else if search_state_indexes_to_push_up@.contains(q as usize) {
                            let a = choose|a: int|
                                0 <= a < search_state_indexes_to_push_up@.len()
                                    && search_state_indexes_to_push_up@[a] == q as usize;
                            assert(a < before.len());
                            assert(before[a] < i);
                        }
                    }
                }
            }
            i += 1;
        }
        let ghost y = self.entries();
        let ghost raised = search_state_indexes_to_push_up@;
        proof {
            assert(y =~= rematched(x0, longer));
            lemma_raise_plan(x0, y, raised, term, letter);
        }
        let mut m: usize = 0;
        while m < search_state_indexes_to_push_up.len()
            invariant
                self.search_term@ == term,
                n == term.len(),
                longer == term.push(letter),
                search_state_indexes_to_push_up@ == raised,
                raise_plan(y, raised, n as nat),
                raise_state(self.entries(), y, raised, m as int, n as nat),
                same_blocks(self.entries(), y),
                forall|q: int|
                    0 <= q < self.entries().len() ==> (#[trigger] self.entries()[q]).1 == greedy(
                        self.entries()[q].0,
                        longer,
                    ),
            decreases raised.len() - m,
        {
            let ghost e = self.entries();
            single_push_up_sort(&mut self.search_states, search_state_indexes_to_push_up[m]);
            proof {
                lemma_raise_step(e, y, raised, m as int, n as nat, self.entries());
                let p = choose|p: int| moved_to(e, raised[m as int] as int, p, self.entries());
                assert forall|q: int| 0 <= q < self.entries().len() implies (#[trigger] self.entries()[q]).1
                    == greedy(self.entries()[q].0, longer) by {
                    let r = raised[m as int] as int;
                    if q < p {
                        assert(self.entries()[q] == e[q]);
                    } else if q == p {
                        assert(self.entries()[q] == e[r]);
                    } else if q <= r {
                        assert(self.entries()[q] == e[q - 1]);
                    } else {
                        assert(self.entries()[q] == e[q]);
                    }
                }
            }
            m += 1;
        }
        push_char(&mut self.search_term, letter);
        proof {
            let e = self.entries();
            lemma_raise_done(e, y, raised, n as nat);
            lemma_sorted_is_ranked(e, (n + 1) as nat);
            lemma_ranked_same_blocks(e, y, (n + 1) as nat);
        }
    }
}

} // verus!
