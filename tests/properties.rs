use fuzzy_search::{BeingSearchedState, FuzzySearcher};

fn texts(items: &[&str]) -> Vec<String> {
    items.iter().map(|s| s.to_string()).collect()
}

fn counts(searcher: &FuzzySearcher) -> Vec<usize> {
    searcher
        .search_states
        .iter()
        .map(|s| s.matching_indexes.len())
        .collect()
}

fn is_sorted(searcher: &FuzzySearcher) -> bool {
    counts(searcher).windows(2).all(|w| w[0] >= w[1])
}

#[test]
fn leftmost_positions_are_exact() {
    let searcher = FuzzySearcher::new("hello".to_string(), texts(&["hel--lo", "h-e-l-l-o"]));
    assert_eq!(searcher.search_states[0].matching_indexes, vec![0, 1, 2, 5, 6]);
    assert_eq!(searcher.search_states[1].matching_indexes, vec![0, 2, 4, 6, 8]);
}

#[test]
fn greedy_takes_first_occurrence() {
    let searcher = FuzzySearcher::new("ab".to_string(), texts(&["aabb"]));
    assert_eq!(searcher.search_states[0].matching_indexes, vec![0, 2]);
}

#[test]
fn construction_sorts_by_count_and_keeps_ties_in_input_order() {
    let searcher = FuzzySearcher::new("abc".to_string(), texts(&["x", "ab", "zz", "abc", "a"]));
    let order: Vec<&str> = searcher.search_states.iter().map(|s| s.text.as_str()).collect();
    assert_eq!(order, vec!["abc", "ab", "a", "x", "zz"]);
    assert_eq!(counts(&searcher), vec![3, 2, 1, 0, 0]);
}

#[test]
fn empty_term_and_empty_text() {
    let searcher = FuzzySearcher::new(String::new(), texts(&["", "abc"]));
    assert_eq!(counts(&searcher), vec![0, 0]);
    let searcher = FuzzySearcher::new("abc".to_string(), texts(&[""]));
    assert_eq!(searcher.search_states[0].matching_indexes, Vec::<usize>::new());
    let searcher = FuzzySearcher::new("abc".to_string(), Vec::new());
    assert!(searcher.search_states.is_empty());
}

#[test]
fn append_to_empty_term_matches_rebuild() {
    let mut searcher = FuzzySearcher::new(String::new(), texts(&["xyz", "", "ya"]));
    searcher.add_char_to_end('y');
    assert_eq!(searcher, FuzzySearcher::new("y".to_string(), texts(&["xyz", "", "ya"])));
    assert_eq!(searcher.search_term, "y");
}

#[test]
fn appending_one_char_at_a_time_matches_rebuild() {
    let corpus = texts(&["say hello", "help", "h-e-l-l-o", "yellow", "", "hole"]);
    let full = "hello";
    for split in 0..=full.len() {
        let mut searcher = FuzzySearcher::new(full[..split].to_string(), corpus.clone());
        for c in full[split..].chars() {
            searcher.add_char_to_end(c);
            assert!(is_sorted(&searcher));
        }
        assert_eq!(searcher, FuzzySearcher::new(full.to_string(), corpus.clone()));
    }
}

#[test]
fn removal_matches_rebuild_when_full_matches_lead() {
    let corpus = texts(&["hello", "world", "hel"]);
    let mut searcher = FuzzySearcher::new("hello".to_string(), corpus.clone());
    searcher.remove_last_char_from_search_term();
    assert_eq!(searcher, FuzzySearcher::new("hell".to_string(), corpus));
    assert_eq!(searcher.search_term, "hell");
}

#[test]
fn removal_keeps_a_late_full_match_ahead() {
    // "ab" matched the whole term and came after "a", which missed only its
    // last character: removal keeps "ab" first, a fresh searcher does not.
    let corpus = texts(&["a", "ab"]);
    let mut searcher = FuzzySearcher::new("ab".to_string(), corpus.clone());
    searcher.remove_last_char_from_search_term();
    let order: Vec<&str> = searcher.search_states.iter().map(|s| s.text.as_str()).collect();
    assert_eq!(order, vec!["ab", "a"]);
    assert_eq!(counts(&searcher), vec![1, 1]);
    let fresh = FuzzySearcher::new("a".to_string(), corpus);
    let fresh_order: Vec<&str> = fresh.search_states.iter().map(|s| s.text.as_str()).collect();
    assert_eq!(fresh_order, vec!["a", "ab"]);
}

#[test]
fn removal_on_empty_term_changes_nothing() {
    let mut searcher = FuzzySearcher::new(String::new(), texts(&["abc", ""]));
    let before = FuzzySearcher::new(String::new(), texts(&["abc", ""]));
    searcher.remove_last_char_from_search_term();
    searcher.remove_last_char_from_search_term();
    assert_eq!(searcher, before);
}

#[test]
fn counts_never_fall_on_append_nor_rise_on_removal() {
    let corpus = texts(&["abcabc", "cab", "bca", "zzz"]);
    let mut searcher = FuzzySearcher::new("a".to_string(), corpus);
    let total = |s: &FuzzySearcher, text: &str| {
        s.search_states
            .iter()
            .find(|st| st.text == text)
            .map(|st| st.matching_indexes.len())
            .unwrap()
    };
    let names = ["abcabc", "cab", "bca", "zzz"];
    for c in "bca".chars() {
        let before: Vec<usize> = names.iter().map(|n| total(&searcher, n)).collect();
        searcher.add_char_to_end(c);
        let after: Vec<usize> = names.iter().map(|n| total(&searcher, n)).collect();
        for k in 0..names.len() {
            assert!(after[k] >= before[k] && after[k] <= before[k] + 1);
        }
    }
    for _ in 0..5 {
        let before: Vec<usize> = names.iter().map(|n| total(&searcher, n)).collect();
        searcher.remove_last_char_from_search_term();
        let after: Vec<usize> = names.iter().map(|n| total(&searcher, n)).collect();
        for k in 0..names.len() {
            assert!(after[k] <= before[k]);
        }
        assert!(is_sorted(&searcher));
    }
}

#[test]
fn mixed_edits_stay_sorted_and_match_rebuild() {
    let corpus = texts(&[
        "in the sunrise of the falling rainbows",
        "where the devil lies so are the tears in his eyes",
        "tr",
        "",
    ]);
    let mut searcher = FuzzySearcher::new("e".to_string(), corpus.clone());
    for c in "rt".chars() {
        searcher.add_char_to_end(c);
        assert!(is_sorted(&searcher));
    }
    assert_eq!(searcher, FuzzySearcher::new("ert".to_string(), corpus));
}

#[test]
fn unmatched_character_leaves_alignment() {
    let mut searcher = FuzzySearcher::new("ab".to_string(), texts(&["ab"]));
    searcher.add_char_to_end('q');
    assert_eq!(searcher.search_term, "abq");
    assert_eq!(
        searcher.search_states,
        vec![BeingSearchedState { text: "ab".to_string(), matching_indexes: vec![0, 1] }]
    );
}

#[test]
fn marks_follow_matched_positions() {
    let searcher = FuzzySearcher::new("hlo".to_string(), texts(&["hello", "xyz"]));
    assert_eq!(
        searcher.search_states[0].matched_marks(),
        vec![true, false, true, false, true]
    );
    assert_eq!(searcher.search_states[1].matched_marks(), vec![false, false, false]);
}

#[test]
fn marks_of_empty_alignment_and_text() {
    let state = BeingSearchedState { text: String::new(), matching_indexes: Vec::new() };
    assert!(state.matched_marks().is_empty());
    let state = BeingSearchedState { text: "ab".to_string(), matching_indexes: Vec::new() };
    assert_eq!(state.matched_marks(), vec![false, false]);
}
