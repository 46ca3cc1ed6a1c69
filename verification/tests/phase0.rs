use abr_language_complete::{verify_completeness, CaseState, CharClass, CompleteStream};

fn stream_from(text: &str, _tag: &str) -> CompleteStream {
    CompleteStream::from_texts(&[("corpus", text)])
}

const HAMLET_SCENE1: &str = "SCENE I. Elsinore. A platform before the Castle.\r\n\r\nEnter Francisco and Barnardo, two sentinels.\r\n\r\nBARNARDO.\r\nWho's there?\r\n\r\nFRANCISCO.\r\nNay, answer me. Stand and unfold yourself.\r\n\r\nBARNARDO.\r\nLong live the King!\r\n\r\nFRANCISCO.\r\nBarnardo?\r\n\r\nBARNARDO.\r\nHe.\r\n\r\nFRANCISCO.\r\nYou come most carefully upon your hour.\r\n\r\nBARNARDO.\r\n'Tis now struck twelve. Get thee to bed, Francisco.\r\n\r\nFRANCISCO.\r\nFor this relief much thanks. 'Tis bitter cold,\r\nAnd I am sick at heart.";

const HAMLET_SEMICOLON: &str = "BARNARDO.\r\nIn the same figure, like the King that's dead.\r\n\r\nMARCELLUS.\r\nThou art a scholar; speak to it, Horatio.\r\n\r\nBARNARDO.\r\nLooks it not like the King? Mark it, Horatio.\r\n\r\nHORATIO.\r\nMost like. It harrows me with fear and wonder.";

const HAMLET_HYPHEN: &str = "Give you good-night.\r\n\r\nMARCELLUS.\r\nHolla, Barnardo!\r\n\r\nBARNARDO.\r\nSay, what, is Horatio there?";

const ORIGIN_PASSAGE: &str = "When we look to the individuals of the same variety or sub-variety of\r\nour older cultivated plants and animals, one of the first points which\r\nstrikes us, is, that they generally differ much more from each other,\r\nthan do the individuals of any one species or variety in a state of\r\nnature. When we reflect on the vast diversity of the plants and animals\r\nwhich have been cultivated, and which have varied during all ages.";

#[test]
fn test_reconstruction_invariant_hamlet() {
    let stream = stream_from(HAMLET_SCENE1, "recon_hamlet");
    assert_eq!(stream.reconstruct(), HAMLET_SCENE1,
        "Reconstruction must be exact on real Hamlet text");
}

#[test]
fn test_reconstruction_invariant_origin() {
    let stream = stream_from(ORIGIN_PASSAGE, "recon_origin");
    assert_eq!(stream.reconstruct(), ORIGIN_PASSAGE,
        "Reconstruction must be exact on real scientific prose");
}

#[test]
fn test_stream_length_matches_char_count_hamlet() {
    let stream = stream_from(HAMLET_SCENE1, "len_hamlet");
    assert_eq!(stream.len(), HAMLET_SCENE1.chars().count(),
        "Stream length must equal character count of real text");
}

#[test]
fn test_stream_length_matches_char_count_origin() {
    let stream = stream_from(ORIGIN_PASSAGE, "len_origin");
    assert_eq!(stream.len(), ORIGIN_PASSAGE.chars().count());
}

#[test]
fn test_apostrophes_observed_in_hamlet() {
    let stream = stream_from(HAMLET_SCENE1, "apos_hamlet");
    let apostrophes: Vec<_> = stream.positions.iter()
        .filter(|p| p.char_class == CharClass::Apostrophe)
        .collect();
    assert!(apostrophes.len() >= 3,
        "Expected at least 3 apostrophes in Hamlet Scene I, found {}",
        apostrophes.len());
    for ap in &apostrophes {
        assert_eq!(ap.char_class, CharClass::Apostrophe);
    }
}

#[test]
fn test_allcaps_observed_as_upper_case_state() {
    let stream = stream_from(HAMLET_SCENE1, "caps_hamlet");
    let upper_positions: Vec<_> = stream.positions.iter()
        .filter(|p| p.case_state == CaseState::Upper)
        .collect();
    assert!(upper_positions.len() >= 30,
        "Expected many uppercase positions for ALL CAPS names, found {}",
        upper_positions.len());
    let barnardo_chars: Vec<char> = stream.positions.iter()
        .filter(|p| p.case_state == CaseState::Upper)
        .map(|p| p.character)
        .collect();
    assert!(barnardo_chars.contains(&'B'));
    assert!(barnardo_chars.contains(&'A'));
    assert!(barnardo_chars.contains(&'R'));
}

#[test]
fn test_semicolon_observed_in_real_text() {
    let stream = stream_from(HAMLET_SEMICOLON, "semi_hamlet");
    let semicolons: Vec<_> = stream.positions.iter()
        .filter(|p| p.char_class == CharClass::Semicolon)
        .collect();
    assert_eq!(semicolons.len(), 1,
        "Expected exactly 1 semicolon in passage, found {}",
        semicolons.len());
    assert_eq!(semicolons[0].character, ';');
}

#[test]
fn test_hyphen_observed_in_real_text() {
    let stream = stream_from(HAMLET_HYPHEN, "hyph_hamlet");
    let hyphens: Vec<_> = stream.positions.iter()
        .filter(|p| p.char_class == CharClass::Hyphen)
        .collect();
    assert!(hyphens.len() >= 1,
        "Expected at least 1 hyphen in 'good-night' passage, found {}",
        hyphens.len());
    assert_eq!(hyphens[0].character, '-');
}

#[test]
fn test_newlines_preserved_in_hamlet() {
    let stream = stream_from(HAMLET_SCENE1, "nl_hamlet");
    let newlines: Vec<_> = stream.positions.iter()
        .filter(|p| p.char_class == CharClass::Newline)
        .collect();
    assert!(newlines.len() >= 15,
        "Expected many newlines in Hamlet Scene I, found {}",
        newlines.len());
}

#[test]
fn test_question_marks_observed() {
    let stream = stream_from(HAMLET_SCENE1, "qmark_hamlet");
    let questions: Vec<_> = stream.positions.iter()
        .filter(|p| p.char_class == CharClass::Question)
        .collect();
    assert!(questions.len() >= 2,
        "Expected at least 2 question marks in passage, found {}",
        questions.len());
}

#[test]
fn test_exclamation_observed() {
    let stream = stream_from(HAMLET_SCENE1, "excl_hamlet");
    let excls: Vec<_> = stream.positions.iter()
        .filter(|p| p.char_class == CharClass::Exclamation)
        .collect();
    assert!(excls.len() >= 1,
        "Expected at least 1 exclamation mark in passage, found {}",
        excls.len());
}

#[test]
fn test_commas_observed_in_origin() {
    let stream = stream_from(ORIGIN_PASSAGE, "comma_origin");
    let commas: Vec<_> = stream.positions.iter()
        .filter(|p| p.char_class == CharClass::Comma)
        .collect();
    assert!(commas.len() >= 5,
        "Expected at least 5 commas in Origin passage, found {}",
        commas.len());
}

#[test]
fn test_lower_upper_nonalpha_all_present_in_hamlet() {
    let stream = stream_from(HAMLET_SCENE1, "cases_hamlet");
    let cases = stream.case_counts();
    assert!(cases[CaseState::Lower.index()] > 100,
        "Expected many lowercase positions");
    assert!(cases[CaseState::Upper.index()] > 20,
        "Expected many uppercase positions (speaker names)");
    assert!(cases[CaseState::NonAlpha.index()] > 30,
        "Expected many non-alpha positions (punctuation, spaces)");
}

#[test]
fn test_completeness_invariant_hamlet() {
    let stream = stream_from(HAMLET_SCENE1, "compl_hamlet");
    let originals = vec![("hamlet_scene1", HAMLET_SCENE1.to_string())];
    let report = verify_completeness(&stream, &originals);
    assert!(report.lengths_match,
        "Stream length must match character count");
    assert!(report.reconstruction_matches,
        "R⁻¹(R(X)) = X must hold on real Hamlet text");
    assert!(report.file_reports[0].reconstruction_matches,
        "Per-file reconstruction must hold");
}

#[test]
fn test_completeness_invariant_origin() {
    let stream = stream_from(ORIGIN_PASSAGE, "compl_origin");
    let originals = vec![("origin", ORIGIN_PASSAGE.to_string())];
    let report = verify_completeness(&stream, &originals);
    assert!(report.reconstruction_matches,
        "R⁻¹(R(X)) = X must hold on real Origin text");
}

#[test]
fn test_period_observed_in_real_sentences() {
    let stream = stream_from(HAMLET_SCENE1, "period_hamlet");
    let periods: Vec<_> = stream.positions.iter()
        .filter(|p| p.char_class == CharClass::Period)
        .collect();
    assert!(periods.len() >= 5,
        "Expected at least 5 periods in Hamlet Scene I, found {}",
        periods.len());
    for p in &periods {
        assert_eq!(p.character, '.');
    }
}

#[test]
fn test_no_position_dropped_hamlet() {
    let stream = stream_from(HAMLET_SCENE1, "nodrop_hamlet");
    for pos in &stream.positions {
        assert_eq!(pos.reconstruct(), pos.character,
            "Position {} must reconstruct correctly", pos.position);
    }
}

#[test]
fn test_no_position_dropped_origin() {
    let stream = stream_from(ORIGIN_PASSAGE, "nodrop_origin");
    for pos in &stream.positions {
        assert_eq!(pos.reconstruct(), pos.character,
            "Position {} must reconstruct correctly", pos.position);
    }
}
