use abr_language_complete::observe::{case_state_of, to_ascii_lower, utf8_len};
use abr_language_complete::{verify_completeness, CaseState, CharClass, CompleteStream, StreamPosition};

#[test]
fn classes_of_each_declared_mark() {
    let cases = [
        ('a', CharClass::Alpha),
        ('Z', CharClass::Alpha),
        ('7', CharClass::Digit),
        ('\n', CharClass::Newline),
        (' ', CharClass::Whitespace),
        ('\t', CharClass::Whitespace),
        ('\r', CharClass::Whitespace),
        ('.', CharClass::Period),
        ('?', CharClass::Question),
        ('!', CharClass::Exclamation),
        (',', CharClass::Comma),
        (';', CharClass::Semicolon),
        (':', CharClass::Colon),
        ('\'', CharClass::Apostrophe),
        ('\u{2019}', CharClass::Apostrophe),
        ('-', CharClass::Hyphen),
        ('\u{2013}', CharClass::Hyphen),
        ('\u{2014}', CharClass::Hyphen),
        ('"', CharClass::QuoteDouble),
        ('\u{201C}', CharClass::QuoteDouble),
        ('\u{201D}', CharClass::QuoteDouble),
        ('\u{2018}', CharClass::QuoteSingle),
        ('(', CharClass::ParenOpen),
        (')', CharClass::ParenClose),
        ('[', CharClass::BracketOpen),
        (']', CharClass::BracketClose),
        ('{', CharClass::BraceOpen),
        ('}', CharClass::BraceClose),
        ('é', CharClass::Other),
        ('#', CharClass::Other),
    ];
    for (c, class) in cases.iter() {
        assert_eq!(CharClass::from_char(*c), *class, "class of {:?}", c);
    }
}

#[test]
fn class_index_round_trips() {
    for k in 0..21usize {
        assert_eq!(CharClass::from_index(k).index(), k);
    }
    assert_eq!(CharClass::Alpha.index(), 0);
    assert_eq!(CharClass::Other.index(), 20);
}

#[test]
fn case_states_are_ascii_only() {
    assert_eq!(case_state_of('q'), CaseState::Lower);
    assert_eq!(case_state_of('Q'), CaseState::Upper);
    assert_eq!(case_state_of('é'), CaseState::NonAlpha);
    assert_eq!(case_state_of('É'), CaseState::NonAlpha);
    assert_eq!(case_state_of('3'), CaseState::NonAlpha);
}

#[test]
fn utf8_widths_and_lowering() {
    assert_eq!(utf8_len('a'), 1);
    assert_eq!(utf8_len('é'), 2);
    assert_eq!(utf8_len('\u{2014}'), 3);
    assert_eq!(utf8_len('\u{1F600}'), 4);
    assert_eq!(to_ascii_lower('H'), 'h');
    assert_eq!(to_ascii_lower('h'), 'h');
    assert_eq!(to_ascii_lower('É'), 'É');
}

#[test]
fn position_new_observes_character() {
    let p = StreamPosition::new(5, 'K', 9, 2);
    assert_eq!(p.position, 5);
    assert_eq!(p.character, 'K');
    assert_eq!(p.case_state, CaseState::Upper);
    assert_eq!(p.char_class, CharClass::Alpha);
    assert_eq!(p.byte_offset, 9);
    assert_eq!(p.source_file_index, 2);
    assert_eq!(p.reconstruct(), 'K');
}

#[test]
fn byte_offsets_follow_utf8_within_each_file() {
    let stream = CompleteStream::from_texts(&[("one", "aé—b"), ("two", "xy")]);
    let offsets: Vec<usize> = stream.positions.iter().map(|p| p.byte_offset).collect();
    assert_eq!(offsets, vec![0, 1, 3, 6, 0, 1]);
    let sources: Vec<usize> = stream.positions.iter().map(|p| p.source_file_index).collect();
    assert_eq!(sources, vec![0, 0, 0, 0, 1, 1]);
    let indices: Vec<usize> = stream.positions.iter().map(|p| p.position).collect();
    assert_eq!(indices, vec![0, 1, 2, 3, 4, 5]);
    assert_eq!(stream.file_lengths, vec![4, 2]);
    assert_eq!(stream.source_files, vec!["one".to_string(), "two".to_string()]);
}

#[test]
fn reconstruction_of_whole_stream_and_each_file() {
    let stream = CompleteStream::from_texts(&[("a", "Hé!\n"), ("b", ""), ("c", "ok")]);
    assert_eq!(stream.len(), 6);
    assert_eq!(stream.reconstruct(), "Hé!\nok");
    assert_eq!(stream.reconstruct_file(0), "Hé!\n");
    assert_eq!(stream.reconstruct_file(1), "");
    assert_eq!(stream.reconstruct_file(2), "ok");
    assert_eq!(stream.reconstruct_file(3), "");
    assert_eq!(stream.file_position_count(0), 4);
    assert_eq!(stream.file_position_count(1), 0);
    assert_eq!(stream.file_position_count(2), 2);
}

#[test]
fn empty_corpus_has_empty_stream() {
    let files: [(&str, &str); 0] = [];
    let stream = CompleteStream::from_texts(&files);
    assert_eq!(stream.len(), 0);
    assert_eq!(stream.reconstruct(), "");
    assert_eq!(stream.class_counts().iter().sum::<usize>(), 0);
}

#[test]
fn class_and_case_counts_tally_every_position() {
    let stream = CompleteStream::from_texts(&[("t", "Ab, c.")]);
    let classes = stream.class_counts();
    assert_eq!(classes.len(), 21);
    assert_eq!(classes[CharClass::Alpha.index()], 3);
    assert_eq!(classes[CharClass::Comma.index()], 1);
    assert_eq!(classes[CharClass::Whitespace.index()], 1);
    assert_eq!(classes[CharClass::Period.index()], 1);
    assert_eq!(classes.iter().sum::<usize>(), stream.len());
    let cases = stream.case_counts();
    assert_eq!(cases.len(), 3);
    assert_eq!(cases[CaseState::Upper.index()], 1);
    assert_eq!(cases[CaseState::Lower.index()], 2);
    assert_eq!(cases[CaseState::NonAlpha.index()], 3);
}

#[test]
fn completeness_lists_missing_classes_in_declared_order() {
    let stream = CompleteStream::from_texts(&[("t", "ab 1")]);
    let report = verify_completeness(&stream, &[("t", "ab 1".to_string())]);
    assert!(report.lengths_match);
    assert!(report.reconstruction_matches);
    assert!(!report.all_classes_covered);
    assert_eq!(report.stream_length, 4);
    assert_eq!(report.total_file_chars, 4);
    assert_eq!(report.missing_classes.len(), 18);
    assert_eq!(report.missing_classes[0], CharClass::Period);
    assert_eq!(report.missing_classes[17], CharClass::Other);
    assert!(!report.missing_classes.contains(&CharClass::Alpha));
    assert!(!report.missing_classes.contains(&CharClass::Digit));
    assert!(!report.missing_classes.contains(&CharClass::Whitespace));
}

#[test]
fn completeness_detects_a_text_that_differs() {
    let stream = CompleteStream::from_texts(&[("x", "abc"), ("y", "de")]);
    let report = verify_completeness(&stream, &[("x", "abc".to_string()), ("y", "dE".to_string())]);
    assert!(report.lengths_match);
    assert!(!report.reconstruction_matches);
    assert_eq!(report.file_reports.len(), 2);
    assert!(report.file_reports[0].reconstruction_matches);
    assert!(!report.file_reports[1].reconstruction_matches);
    assert_eq!(report.file_reports[1].name, "y");
    assert_eq!(report.file_reports[1].declared_length, 2);
    assert_eq!(report.file_reports[1].stream_length, 2);
}

#[test]
fn completeness_per_file_lengths_for_extra_text() {
    let stream = CompleteStream::from_texts(&[("x", "ab")]);
    let report = verify_completeness(&stream, &[("x", "ab".to_string()), ("extra", "zzz".to_string())]);
    assert!(!report.reconstruction_matches);
    assert_eq!(report.file_reports.len(), 2);
    assert!(report.file_reports[0].reconstruction_matches);
    assert_eq!(report.file_reports[1].declared_length, 3);
    assert_eq!(report.file_reports[1].stream_length, 0);
    assert!(!report.file_reports[1].reconstruction_matches);
}
