use abr_language_complete::{extract_alpha_runs, run_alpha_recurrence, CompleteStream};

const HAMLET_SCENE1: &str = "SCENE I. Elsinore. A platform before the Castle.

Enter Francisco and Barnardo, two sentinels.

BARNARDO.
Who's there?

FRANCISCO.
Nay, answer me. Stand and unfold yourself.

BARNARDO.
Long live the King!

FRANCISCO.
Barnardo?

BARNARDO.
He.

FRANCISCO.
You come most carefully upon your hour.

BARNARDO.
'Tis now struck twelve. Get thee to bed, Francisco.

FRANCISCO.
For this relief much thanks. 'Tis bitter cold,
And I am sick at heart.";

const ORIGIN_PASSAGE: &str = "When we look to the individuals of the same variety or sub-variety of
our older cultivated plants and animals, one of the first points which
strikes us, is, that they generally differ much more from each other,
than do the individuals of any one species or variety in a state of
nature. When we reflect on the vast diversity of the plants and animals
which have been cultivated, and which have varied during all ages.";

fn stream_from(text: &str, _tag: &str) -> CompleteStream {
    CompleteStream::from_texts(&[("corpus", text)])
}

#[test]
fn test_alpha_runs_extracted_from_hamlet() {
    let stream = stream_from(HAMLET_SCENE1, "runs_hamlet");
    let runs = extract_alpha_runs(&stream);
    assert!(!runs.is_empty(), "Must extract Alpha runs from Hamlet");
    for (_, run) in &runs {
        for c in run.chars() {
            assert!(c.is_ascii_lowercase(),
                "All run characters must be lowercase: got '{}'", c);
        }
    }
}

#[test]
fn test_alpha_runs_exclude_punctuation() {
    let stream = stream_from("Hello, World! It's done.", "runs_punct");
    let runs = extract_alpha_runs(&stream);
    let all_chars: String = runs.iter().map(|(_, r)| r.as_str()).collect();
    assert!(!all_chars.contains(','), "Comma must not appear in runs");
    assert!(!all_chars.contains("'"), "Apostrophe must not appear in runs");
    assert!(!all_chars.contains('!'), "Exclamation must not appear in runs");
}

#[test]
fn test_case_folded_to_lowercase() {
    let stream1 = stream_from("BARNARDO spoke.", "case1");
    let stream2 = stream_from("barnardo spoke.", "case2");
    let runs1 = extract_alpha_runs(&stream1);
    let runs2 = extract_alpha_runs(&stream2);
    assert_eq!(
        runs1.iter().map(|(_, r)| r.as_str()).collect::<Vec<_>>(),
        runs2.iter().map(|(_, r)| r.as_str()).collect::<Vec<_>>(),
        "Case-folded runs must be identical regardless of original case"
    );
}

#[test]
fn test_recurrence_found_in_hamlet() {
    let stream = stream_from(HAMLET_SCENE1, "recur_hamlet");
    let result = run_alpha_recurrence(&stream);
    assert!(result.total_canonical > 0,
        "Must find canonical recurrences in Hamlet Scene I");
    assert_eq!(result.verification_failures, 0,
        "No verification failures");
}

#[test]
fn test_recurrence_found_in_origin() {
    let stream = stream_from(ORIGIN_PASSAGE, "recur_origin");
    let result = run_alpha_recurrence(&stream);
    assert!(result.total_canonical > 0,
        "Must find canonical recurrences in Origin passage");
    assert_eq!(result.verification_failures, 0);
}

#[test]
fn test_k_max_at_least_3_in_hamlet() {
    let stream = stream_from(HAMLET_SCENE1, "kmax_hamlet");
    let result = run_alpha_recurrence(&stream);
    assert!(result.k_max >= 3,
        "K_max must be at least 3 in real English text, got {}", result.k_max);
}

#[test]
fn test_k1_dominates_distribution() {
    let stream = stream_from(HAMLET_SCENE1, "k1_dom");
    let result = run_alpha_recurrence(&stream);
    if result.k_stats.len() >= 2 {
        let k1 = result.k_stats[0].canonical_count;
        let k2 = result.k_stats[1].canonical_count;
        assert!(k1 > k2,
            "K=1 count ({}) must exceed K=2 count ({})", k1, k2);
    }
}

#[test]
fn test_samples_verified_hamlet() {
    let stream = stream_from(HAMLET_SCENE1, "samp_hamlet");
    let result = run_alpha_recurrence(&stream);
    assert_eq!(result.verification_failures, 0,
        "All samples must verify exactly");
    for ks in &result.k_stats {
        if ks.sample.is_some() {
            assert!(ks.sample_verified,
                "Sample for K={} must be verified", ks.k);
        }
    }
}

#[test]
fn test_samples_verified_origin() {
    let stream = stream_from(ORIGIN_PASSAGE, "samp_origin");
    let result = run_alpha_recurrence(&stream);
    assert_eq!(result.verification_failures, 0);
}

#[test]
fn test_known_recurrence_the_detected() {
    let text = "When we look to the individuals of the same variety or other cultivated                     plants and animals one of the first points which strikes us is that they                     generally differ much more from each other than do the individuals.";
    let stream = stream_from(text, "the_detect");
    let result = run_alpha_recurrence(&stream);
    let k3 = result.k_stats.iter().find(|s| s.k == 3);
    assert!(k3.is_some(), "Must have K=3 stats in real scientific prose");
    let k3 = k3.unwrap();
    let has_the = k3.top_sequences.iter().any(|(seq, _)| seq == "the");
    assert!(has_the, "'the' must appear in top K=3 sequences, got: {:?}", k3.top_sequences);
    assert_eq!(result.verification_failures, 0);
}

#[test]
fn test_bilateral_maximality_simple_case() {
    let stream = stream_from("ababab", "bilateral");
    let result = run_alpha_recurrence(&stream);
    assert!(result.total_canonical > 0,
        "Must find recurrences in 'ababab'");
    assert_eq!(result.verification_failures, 0);
}

#[test]
fn test_no_verification_failures_combined() {
    let combined = format!("{} {}", HAMLET_SCENE1, ORIGIN_PASSAGE);
    let stream = stream_from(&combined, "combined");
    let result = run_alpha_recurrence(&stream);
    assert_eq!(result.verification_failures, 0,
        "No verification failures on combined real corpus");
    assert!(result.k_max >= 3);
}

#[test]
fn test_run_count_and_char_count_consistent() {
    let stream = stream_from(HAMLET_SCENE1, "counts_hamlet");
    let result = run_alpha_recurrence(&stream);
    assert!(result.run_count > 0, "Must have at least one run");
    assert!(result.alpha_char_count > 0, "Must have Alpha characters");
    assert!(result.alpha_char_count >= result.run_count * 2,
        "Each run has at least 2 chars");
}

#[test]
fn test_natural_termination() {
    let stream = stream_from("abcabc", "termination");
    let result = run_alpha_recurrence(&stream);
    assert!(result.k_max >= 1, "Must find some recurrence");
    assert_eq!(result.verification_failures, 0);
}
