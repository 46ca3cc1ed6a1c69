use abr_language_complete::{CaseState, CharClass, CompleteStream, RelationalSubstrate};

const HAMLET_SCENE1: &str = "SCENE I. Elsinore. A platform before the Castle.\r\n\r\nEnter Francisco and Barnardo, two sentinels.\r\n\r\nBARNARDO.\r\nWho's there?\r\n\r\nFRANCISCO.\r\nNay, answer me. Stand and unfold yourself.\r\n\r\nBARNARDO.\r\nLong live the King!\r\n\r\nFRANCISCO.\r\nBarnardo?\r\n\r\nBARNARDO.\r\nHe.\r\n\r\nFRANCISCO.\r\nYou come most carefully upon your hour.\r\n\r\nBARNARDO.\r\n'Tis now struck twelve. Get thee to bed, Francisco.\r\n\r\nFRANCISCO.\r\nFor this relief much thanks. 'Tis bitter cold,\r\nAnd I am sick at heart.";

const ORIGIN_PASSAGE: &str = "When we look to the individuals of the same variety or sub-variety of\r\nour older cultivated plants and animals, one of the first points which\r\nstrikes us, is, that they generally differ much more from each other,\r\nthan do the individuals of any one species or variety in a state of\r\nnature. When we reflect on the vast diversity of the plants and animals\r\nwhich have been cultivated, and which have varied during all ages.";

fn substrate_from(text: &str, _tag: &str) -> (CompleteStream, RelationalSubstrate) {
    let stream = CompleteStream::from_texts(&[("corpus", text)]);
    let substrate = RelationalSubstrate::from_stream(&stream);
    (stream, substrate)
}

#[test]
fn test_accounting_invariant_hamlet() {
    let (stream, substrate) = substrate_from(HAMLET_SCENE1, "acct_hamlet");
    let report = substrate.verify_accounting();
    assert!(report.invariant_holds,
        "Expected {} relations, got {}",
        report.expected_relations, report.actual_relations);
    assert_eq!(report.expected_relations, stream.len() - 1,
        "|R_P| must equal |X| - 1 for single file");
}

#[test]
fn test_accounting_invariant_origin() {
    let (_stream, substrate) = substrate_from(ORIGIN_PASSAGE, "acct_origin");
    let report = substrate.verify_accounting();
    assert!(report.invariant_holds,
        "Accounting invariant must hold on Origin passage");
}

#[test]
fn test_no_duplicate_predecessor_positions() {
    let (_, substrate) = substrate_from(HAMLET_SCENE1, "nodup_hamlet");
    let report = substrate.verify_accounting();
    assert_eq!(report.duplicate_predecessor_positions, 0,
        "Each position must appear as predecessor exactly once");
}

#[test]
fn test_relation_count_matches_char_pairs() {
    let text = HAMLET_SCENE1;
    let (stream, substrate) = substrate_from(text, "count_hamlet");
    assert_eq!(substrate.relations.len(), stream.len() - 1,
        "Relation count must be character count minus 1 for single file");
}

#[test]
fn test_progression_is_strictly_sequential() {
    let (_, substrate) = substrate_from(HAMLET_SCENE1, "seq_hamlet");
    for rel in &substrate.relations {
        assert_eq!(rel.j, rel.i + 1,
            "Progression must be strictly sequential: j = i + 1");
    }
}

#[test]
fn test_class_transition_observed_at_alpha_to_period() {
    let (_, substrate) = substrate_from(HAMLET_SCENE1, "cls_period");
    let alpha_to_period = substrate.relations.iter()
        .filter(|r| r.class_from == CharClass::Alpha
                 && r.class_to == CharClass::Period)
        .count();
    assert!(alpha_to_period >= 1,
        "Expected at least one Alpha→Period transition in real text");
}

#[test]
fn test_class_transition_observed_at_alpha_to_whitespace() {
    let (_, substrate) = substrate_from(HAMLET_SCENE1, "cls_ws");
    let alpha_to_ws = substrate.relations.iter()
        .filter(|r| r.class_from == CharClass::Alpha
                 && r.class_to == CharClass::Whitespace)
        .count();
    assert!(alpha_to_ws >= 20,
        "Expected many Alpha→Whitespace transitions in Hamlet Scene I, found {}",
        alpha_to_ws);
}

#[test]
fn test_class_transition_loci_not_called_boundaries() {
    let (_, substrate) = substrate_from(HAMLET_SCENE1, "delta_c");
    let report = substrate.verify_accounting();
    assert!(report.class_transition_loci > 0,
        "There must be class transition loci in real text");
    assert!(report.class_transition_loci < substrate.relations.len(),
        "Not every pair is a class transition");
}

#[test]
fn test_case_transition_upper_to_lower_observed() {
    let (_, substrate) = substrate_from(HAMLET_SCENE1, "case_ul");
    let upper_to_lower = substrate.relations.iter()
        .filter(|r| r.case_from == CaseState::Upper
                 && r.case_to == CaseState::Lower)
        .count();
    assert!(upper_to_lower >= 5,
        "Expected at least 5 Upper→Lower transitions in Hamlet Scene I, found {}",
        upper_to_lower);
}

#[test]
fn test_case_transition_loci_populated() {
    let (_, substrate) = substrate_from(HAMLET_SCENE1, "delta_e");
    let report = substrate.verify_accounting();
    assert!(report.case_transition_loci > 0,
        "Case transition loci must exist in real text");
}

#[test]
fn test_file_boundary_not_crossed() {
    let text1 = "First.";
    let text2 = "Second.";
    let stream = CompleteStream::from_texts(&[
        ("f1", text1),
        ("f2", text2),
    ]);
    let substrate = RelationalSubstrate::from_stream(&stream);

    assert_eq!(substrate.relations.len(),
        stream.len() - 2,
        "|R_P| must equal |X| - F where F=2 files");

    for rel in &substrate.relations {
        assert_eq!(
            stream.positions[rel.i].source_file_index,
            stream.positions[rel.j].source_file_index,
            "Relation must not cross file boundary"
        );
    }
}

#[test]
fn test_r_c_covers_all_observed_transitions_in_passage() {
    let (_, substrate) = substrate_from(HAMLET_SCENE1, "rc_total");
    let report = substrate.verify_accounting();
    let table_total: usize = report.class_transition_table.iter().sum();
    assert_eq!(table_total, substrate.relations.len(),
        "R_C transition table must cover all relations");
}

#[test]
fn test_r_e_covers_all_observed_transitions_in_passage() {
    let (_, substrate) = substrate_from(HAMLET_SCENE1, "re_total");
    let report = substrate.verify_accounting();
    let table_total: usize = report.case_transition_table.iter().sum();
    assert_eq!(table_total, substrate.relations.len(),
        "R_E transition table must cover all relations");
}
