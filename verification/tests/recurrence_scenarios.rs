use abr_language_complete::{
    RelationalSubstrate, build_state_index, count_cross_group_pairs, extract_alpha_runs, run_alpha_recurrence,
    verify_recurrence, CaseState, CharClass, CompleteStream, ObservableState, RecurrenceError,
    RecurrenceRelation, StreamPosition, TerminationState,
};

fn relation(i: usize, j: usize, k: usize) -> RecurrenceRelation {
    RecurrenceRelation {
        i,
        j,
        source_i: 0,
        source_j: 0,
        k,
        left_term_i: TerminationState::FileStart,
        left_term_j: TerminationState::FileStart,
        right_term_i: TerminationState::FileEnd,
        right_term_j: TerminationState::FileEnd,
    }
}

fn lower(c: char) -> ObservableState {
    ObservableState { character: c, case_state: CaseState::Lower, char_class: CharClass::Alpha }
}

#[test]
fn recurrence_with_different_predecessors_verifies() {
    let stream = CompleteStream::from_texts(&[("t", "yab xab")]);
    assert_eq!(verify_recurrence(&stream, &relation(1, 5, 2)), Ok(()));
}

#[test]
fn recurrence_at_file_start_verifies() {
    let stream = CompleteStream::from_texts(&[("t", "ab xab")]);
    assert_eq!(verify_recurrence(&stream, &relation(0, 4, 2)), Ok(()));
}

#[test]
fn recurrence_with_equal_predecessors_is_refused() {
    let stream = CompleteStream::from_texts(&[("t", "xab xab")]);
    assert_eq!(
        verify_recurrence(&stream, &relation(1, 5, 2)),
        Err(RecurrenceError::NotBilaterallyMaximal)
    );
}

#[test]
fn recurrence_outside_the_stream_is_refused() {
    let stream = CompleteStream::from_texts(&[("t", "abab")]);
    assert_eq!(
        verify_recurrence(&stream, &relation(100, 2, 1)),
        Err(RecurrenceError::PositionNotInStream(100))
    );
    assert_eq!(
        verify_recurrence(&stream, &relation(0, 4, 1)),
        Err(RecurrenceError::PositionNotInStream(4))
    );
}

#[test]
fn recurrence_out_of_order_is_refused() {
    let stream = CompleteStream::from_texts(&[("t", "abab")]);
    assert_eq!(verify_recurrence(&stream, &relation(2, 0, 2)), Err(RecurrenceError::OutOfOrder(2, 0)));
    assert_eq!(verify_recurrence(&stream, &relation(1, 1, 1)), Err(RecurrenceError::OutOfOrder(1, 1)));
}

#[test]
fn recurrence_running_past_the_stream_is_refused() {
    let stream = CompleteStream::from_texts(&[("t", "ab ab")]);
    assert_eq!(
        verify_recurrence(&stream, &relation(0, 3, 3)),
        Err(RecurrenceError::OffsetNotInStream(3, 2))
    );
}

#[test]
fn recurrence_with_a_mismatch_is_refused() {
    let stream = CompleteStream::from_texts(&[("t", "abc abd")]);
    assert_eq!(
        verify_recurrence(&stream, &relation(0, 4, 3)),
        Err(RecurrenceError::StateMismatch(2, lower('c'), lower('d')))
    );
}

#[test]
fn recurrence_crossing_a_file_is_refused() {
    let stream = CompleteStream::from_texts(&[("f0", "za"), ("f1", "b"), ("f2", "yab")]);
    assert_eq!(verify_recurrence(&stream, &relation(1, 4, 2)), Err(RecurrenceError::CrossFileAtI(1)));
    let stream = CompleteStream::from_texts(&[("f0", "yab"), ("f1", "za"), ("f2", "b")]);
    assert_eq!(verify_recurrence(&stream, &relation(1, 4, 2)), Err(RecurrenceError::CrossFileAtJ(1)));
}

#[test]
fn state_index_groups_positions_by_state() {
    let stream = CompleteStream::from_texts(&[("t", "abA"), ("u", "a")]);
    let index = build_state_index(&stream);
    assert_eq!(index.len(), 3);
    let a = index.iter().find(|(s, _)| *s == lower('a')).unwrap();
    assert_eq!(a.1, vec![0, 3]);
    let b = index.iter().find(|(s, _)| *s == lower('b')).unwrap();
    assert_eq!(b.1, vec![1]);
    let upper = ObservableState { character: 'A', case_state: CaseState::Upper, char_class: CharClass::Alpha };
    let big_a = index.iter().find(|(s, _)| *s == upper).unwrap();
    assert_eq!(big_a.1, vec![2]);
}

#[test]
fn cross_group_pairs_by_formula() {
    assert_eq!(count_cross_group_pairs(&[]), 0);
    assert_eq!(count_cross_group_pairs(&[1]), 0);
    assert_eq!(count_cross_group_pairs(&[5]), 0);
    assert_eq!(count_cross_group_pairs(&[2, 1]), 2);
    assert_eq!(count_cross_group_pairs(&[1, 1, 1]), 3);
    assert_eq!(count_cross_group_pairs(&[2, 2]), 4);
    assert_eq!(count_cross_group_pairs(&[3, 1, 2]), 11);
}

#[test]
fn alpha_runs_split_at_files_and_marks() {
    let stream = CompleteStream::from_texts(&[("a", "Hello, World!\nab c"), ("b", "de"), ("c", "Fg-hI")]);
    let runs = extract_alpha_runs(&stream);
    let expected: Vec<(usize, String)> = vec![
        (0, "hello".to_string()),
        (0, "world".to_string()),
        (0, "ab".to_string()),
        (1, "de".to_string()),
        (2, "fg".to_string()),
        (2, "hi".to_string()),
    ];
    assert_eq!(runs, expected);
}

#[test]
fn alpha_runs_do_not_join_across_files() {
    let stream = CompleteStream::from_texts(&[("a", "ab"), ("b", "cd")]);
    let runs = extract_alpha_runs(&stream);
    assert_eq!(runs, vec![(0, "ab".to_string()), (1, "cd".to_string())]);
}

#[test]
fn alpha_runs_ignore_case() {
    let upper = CompleteStream::from_texts(&[("a", "Hello WORLD, it is")]);
    let mixed = CompleteStream::from_texts(&[("a", "hELLO world, IT iS")]);
    assert_eq!(extract_alpha_runs(&upper), extract_alpha_runs(&mixed));
}

#[test]
fn recurrence_counts_of_a_repeated_run() {
    let stream = CompleteStream::from_texts(&[("t", "abcabc")]);
    let result = run_alpha_recurrence(&stream);
    assert_eq!(result.run_count, 1);
    assert_eq!(result.alpha_char_count, 6);
    assert_eq!(result.k_max, 3);
    assert_eq!(result.total_canonical, 3);
    assert_eq!(result.verification_failures, 0);
    // "b" and "c" always follow the same letter; only "a" (run start, then "c") recurs canonically.
    let counts: Vec<u64> = result.k_stats.iter().map(|s| s.canonical_count).collect();
    assert_eq!(counts, vec![1, 1, 1]);
    let ks: Vec<usize> = result.k_stats.iter().map(|s| s.k).collect();
    assert_eq!(ks, vec![1, 2, 3]);

    assert_eq!(result.k_stats[0].top_sequences, vec![("a".to_string(), 1)]);
    assert_eq!(result.k_stats[1].top_sequences, vec![("ab".to_string(), 1)]);
    assert_eq!(result.k_stats[2].top_sequences, vec![("abc".to_string(), 1)]);

    for s in &result.k_stats {
        assert!(s.sample_verified);
    }
    assert_eq!(
        result.k_stats[0].sample,
        Some(("abc".to_string(), "bcabc".to_string(), "a".to_string()))
    );
    assert_eq!(
        result.k_stats[1].sample,
        Some(("abca".to_string(), "bcabc".to_string(), "ab".to_string()))
    );
    assert_eq!(
        result.k_stats[2].sample,
        Some(("abcab".to_string(), "bcabc".to_string(), "abc".to_string()))
    );
}

#[test]
fn recurrence_without_repeats_is_empty() {
    let stream = CompleteStream::from_texts(&[("t", "ab cd. ef")]);
    let result = run_alpha_recurrence(&stream);
    assert_eq!(result.run_count, 3);
    assert_eq!(result.alpha_char_count, 6);
    assert_eq!(result.k_max, 0);
    assert_eq!(result.total_canonical, 0);
    assert!(result.k_stats.is_empty());
}

#[test]
fn recurrence_within_one_predecessor_group_is_not_canonical() {
    // "xa" twice: both occurrences of "a" follow "x"; "x" starts both runs.
    let stream = CompleteStream::from_texts(&[("t", "xa xa")]);
    let result = run_alpha_recurrence(&stream);
    assert_eq!(result.run_count, 2);
    assert_eq!(result.k_max, 0);
    assert_eq!(result.total_canonical, 0);
}

#[test]
fn top_sequences_are_largest_first() {
    // "ab" occurs after start, after "x" and after "y": 3 canonical pairs.
    let stream = CompleteStream::from_texts(&[("t", "ab xab yab")]);
    let result = run_alpha_recurrence(&stream);
    let k1 = &result.k_stats[0];
    assert_eq!(k1.k, 1);
    let counts: Vec<u64> = k1.top_sequences.iter().map(|(_, c)| *c).collect();
    let mut sorted = counts.clone();
    sorted.sort_by(|a, b| b.cmp(a));
    assert_eq!(counts, sorted);
    let k2 = &result.k_stats[1];
    assert_eq!(k2.top_sequences, vec![("ab".to_string(), 3)]);
    assert_eq!(k2.canonical_count, 3);
}

#[test]
fn canonical_count_of_a_kgram_matches_its_predecessor_groups() {
    // "ab" after the run start, after "x" twice, after "y": groups of sizes 1, 2, 1.
    let stream = CompleteStream::from_texts(&[("t", "ab xab xab yab")]);
    let result = run_alpha_recurrence(&stream);
    let k2 = &result.k_stats[1];
    let ab = k2.top_sequences.iter().find(|(s, _)| s == "ab").unwrap();
    assert_eq!(ab.1, count_cross_group_pairs(&[1, 2, 1]));
    assert_eq!(ab.1, 5);
}

#[test]
fn canonical_counts_do_not_grow_with_k() {
    let text = "the other mother and another brother gathered there then the";
    let stream = CompleteStream::from_texts(&[("t", text)]);
    let result = run_alpha_recurrence(&stream);
    assert!(result.k_max >= 3);
    for w in result.k_stats.windows(2) {
        assert!(w[1].canonical_count <= w[0].canonical_count);
    }
    let sum: u64 = result.k_stats.iter().map(|s| s.canonical_count).sum();
    assert_eq!(sum, result.total_canonical);
    assert!(result.alpha_char_count >= 2 * result.run_count);
}

#[test]
fn verified_recurrence_runs_along_relations() {
    let stream = CompleteStream::from_texts(&[("t", "yabc xabc")]);
    assert_eq!(verify_recurrence(&stream, &relation(1, 6, 3)), Ok(()));
    let substrate = RelationalSubstrate::from_stream(&stream);
    for (i, j) in [(1usize, 2usize), (2, 3), (6, 7), (7, 8)] {
        assert!(substrate.relations.iter().any(|r| r.i == i && r.j == j));
    }
}

#[test]
fn alpha_run_size_is_counted_in_utf8_bytes() {
    // A hand-built position marked Alpha may hold a non-ASCII letter.
    let mk = |position: usize, character: char| StreamPosition {
        position,
        character,
        case_state: CaseState::NonAlpha,
        char_class: CharClass::Alpha,
        byte_offset: 0,
        source_file_index: 0,
    };
    let stream = CompleteStream {
        positions: vec![mk(0, 'é'), mk(1, 'a')],
        source_files: vec!["t".to_string()],
        file_lengths: vec![2],
    };
    let runs = extract_alpha_runs(&stream);
    assert_eq!(runs, vec![(0, "éa".to_string())]);
    let result = run_alpha_recurrence(&stream);
    assert_eq!(result.run_count, 1);
    assert_eq!(result.alpha_char_count, 3);
    assert_eq!(result.alpha_char_count, runs[0].1.len());
}
