use abr_language_complete::{CaseState, CharClass, CompleteStream, RelationalSubstrate};

fn class_key(a: CharClass, b: CharClass) -> usize {
    a.index() * 21 + b.index()
}

fn case_key(a: CaseState, b: CaseState) -> usize {
    a.index() * 3 + b.index()
}

#[test]
fn relations_stay_inside_their_files() {
    let stream = CompleteStream::from_texts(&[("x", "ab"), ("y", "cd")]);
    let substrate = RelationalSubstrate::from_stream(&stream);
    let pairs: Vec<(usize, usize, usize)> =
        substrate.relations.iter().map(|r| (r.i, r.j, r.source_file_index)).collect();
    assert_eq!(pairs, vec![(0, 1, 0), (2, 3, 1)]);
    assert_eq!(substrate.file_count, 2);
    assert_eq!(substrate.stream_length, 4);
    let report = substrate.verify_accounting();
    assert_eq!(report.expected_relations, 2);
    assert_eq!(report.actual_relations, 2);
    assert!(report.invariant_holds);
    assert_eq!(report.duplicate_predecessor_positions, 0);
}

#[test]
fn relation_fields_observe_both_ends() {
    let stream = CompleteStream::from_texts(&[("t", "aB.")]);
    let substrate = RelationalSubstrate::from_stream(&stream);
    assert_eq!(substrate.relations.len(), 2);
    let first = &substrate.relations[0];
    assert_eq!(first.class_from, CharClass::Alpha);
    assert_eq!(first.class_to, CharClass::Alpha);
    assert_eq!(first.case_from, CaseState::Lower);
    assert_eq!(first.case_to, CaseState::Upper);
    assert!(!first.class_transition);
    assert!(first.case_transition);
    let second = &substrate.relations[1];
    assert_eq!(second.class_to, CharClass::Period);
    assert_eq!(second.case_to, CaseState::NonAlpha);
    assert!(second.class_transition);
    assert!(second.case_transition);
    let report = substrate.verify_accounting();
    assert_eq!(report.class_transition_loci, 1);
    assert_eq!(report.case_transition_loci, 2);
    assert_eq!(report.class_transition_table.len(), 441);
    assert_eq!(report.case_transition_table.len(), 9);
    assert_eq!(report.class_transition_table[class_key(CharClass::Alpha, CharClass::Alpha)], 1);
    assert_eq!(report.class_transition_table[class_key(CharClass::Alpha, CharClass::Period)], 1);
    assert_eq!(report.class_transition_table.iter().sum::<usize>(), 2);
    assert_eq!(report.case_transition_table[case_key(CaseState::Lower, CaseState::Upper)], 1);
    assert_eq!(report.case_transition_table[case_key(CaseState::Upper, CaseState::NonAlpha)], 1);
    assert_eq!(report.case_transition_table.iter().sum::<usize>(), 2);
}

#[test]
fn accounting_fails_with_an_empty_file() {
    // An empty file contributes to F but removes no relation.
    let stream = CompleteStream::from_texts(&[("empty", ""), ("t", "ab")]);
    let substrate = RelationalSubstrate::from_stream(&stream);
    let report = substrate.verify_accounting();
    assert_eq!(report.expected_relations, 0);
    assert_eq!(report.actual_relations, 1);
    assert!(!report.invariant_holds);
}

#[test]
fn accounting_saturates_when_files_outnumber_positions() {
    let stream = CompleteStream::from_texts(&[("a", ""), ("b", ""), ("c", "z")]);
    let substrate = RelationalSubstrate::from_stream(&stream);
    let report = substrate.verify_accounting();
    assert_eq!(report.expected_relations, 0);
    assert_eq!(report.actual_relations, 0);
    assert!(report.invariant_holds);
}

#[test]
fn relations_plus_nonempty_files_cover_every_position() {
    let stream = CompleteStream::from_texts(&[("a", "one two"), ("b", ""), ("c", "x"), ("d", "three.")]);
    let substrate = RelationalSubstrate::from_stream(&stream);
    assert_eq!(substrate.relations.len() + 3, stream.len());
    for rel in &substrate.relations {
        assert_eq!(rel.j, rel.i + 1);
    }
}
