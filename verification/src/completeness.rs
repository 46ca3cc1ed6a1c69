//! Verification of the completeness and reconstruction invariants of a stream
//! against the texts it was built from.

use vstd::prelude::*;
use vstd::string::StrSliceExecFns;
use vstd::string::StringExecFns;
use crate::observe::{CharClass, class_at_index, CLASS_COUNT, CASE_COUNT};
use crate::stream::{
    CompleteStream, chars_of, file_chars, concat_texts, owned_texts, sum_counts, class_keys,
    case_keys,
};
use crate::tally::occurrences;

verus! {

/// Result of the completeness verification pass.
#[derive(Debug)]
pub struct CompletenessReport {
    pub stream_length: usize,
    pub total_file_chars: usize,
    pub lengths_match: bool,
    pub reconstruction_matches: bool,
    pub all_classes_covered: bool,
    /// The classes that no position has, in declaration order.
    pub missing_classes: Vec<CharClass>,
    /// Entry `k`: number of positions whose class has index `k`.
    pub class_counts: Vec<usize>,
    /// Entry `k`: number of positions whose case state has index `k`.
    pub case_counts: Vec<usize>,
    pub file_reports: Vec<FileReport>,
}

/// Completeness of one source file.
#[derive(Debug)]
pub struct FileReport {
    pub name: String,
    pub declared_length: usize,
    pub stream_length: usize,
    pub reconstruction_matches: bool,
}

/// The classes among the first `w` (in declaration order) whose count is zero.
pub open spec fn missing_below(counts: Seq<usize>, w: nat) -> Seq<CharClass>
    decreases w,
{
    if w == 0 {
        seq![]
    } else {
        let rest = missing_below(counts, (w - 1) as nat);
        if counts[w - 1] == 0 {
            rest.push(class_at_index((w - 1) as nat))
        } else {
            rest
        }
    }
}

proof fn lemma_sum_counts_take(s: Seq<usize>, i: int)
    requires
        0 <= i < s.len(),
    ensures
        sum_counts(s.take(i + 1)) == sum_counts(s.take(i)) + s[i],
        sum_counts(s.take(i + 1)) <= sum_counts(s),
    decreases s.len(),
{
    assert(s.take(i + 1).drop_last() =~= s.take(i));
    if i + 1 < s.len() {
        lemma_sum_counts_take(s.drop_last(), i);
        assert(s.drop_last().take(i + 1) =~= s.take(i + 1));
        assert(s.drop_last().take(i) =~= s.take(i));
    } else {
        assert(s.take(i + 1) =~= s);
    }
}

/// Verify the completeness and reconstruction invariants of `stream` against
/// the (name, text) pairs it was built from.
pub fn verify_completeness(stream: &CompleteStream, original_texts: &[(&str, String)]) -> (r:
    CompletenessReport)
    requires
        sum_counts(stream.file_lengths@) <= usize::MAX,
    ensures
        r.stream_length == stream.positions@.len(),
        r.total_file_chars == sum_counts(stream.file_lengths@),
        r.lengths_match == (stream.positions@.len() == sum_counts(stream.file_lengths@)),
        r.reconstruction_matches == (chars_of(stream.positions@) == concat_texts(
            owned_texts(original_texts@),
        )),
        r.file_reports@.len() == original_texts@.len(),
        forall|f: int|
            0 <= f < original_texts@.len() ==> {
                let fr = #[trigger] r.file_reports@[f];
                &&& fr.name@ == original_texts@[f].0@
                &&& fr.declared_length == original_texts@[f].1@.len()
                &&& fr.stream_length == file_chars(stream.positions@, f).len()
                &&& fr.reconstruction_matches == (file_chars(stream.positions@, f)
                    == original_texts@[f].1@)
            },
        r.class_counts@.len() == CLASS_COUNT,
        forall|k: int|
            0 <= k < CLASS_COUNT ==> #[trigger] r.class_counts@[k] == occurrences(
                class_keys(stream.positions@),
                k as nat,
            ),
        r.missing_classes@ == missing_below(r.class_counts@, CLASS_COUNT as nat),
        r.all_classes_covered == (r.missing_classes@.len() == 0),
        r.case_counts@.len() == CASE_COUNT,
        forall|k: int|
            0 <= k < CASE_COUNT ==> #[trigger] r.case_counts@[k] == occurrences(
                case_keys(stream.positions@),
                k as nat,
            ),
{
    let stream_length = stream.len();
    let mut total_file_chars: usize = 0;
    let mut i: usize = 0;
    while i < stream.file_lengths.len()
        invariant
            i <= stream.file_lengths@.len(),
            sum_counts(stream.file_lengths@) <= usize::MAX,
            total_file_chars == sum_counts(stream.file_lengths@.take(i as int)),
        decreases stream.file_lengths@.len() - i,
    {
        proof {
            lemma_sum_counts_take(stream.file_lengths@, i as int);
        }
        total_file_chars = total_file_chars + stream.file_lengths[i];
        i += 1;
    }
    assert(stream.file_lengths@.take(stream.file_lengths@.len() as int) =~= stream.file_lengths@);
    let lengths_match = stream_length == total_file_chars;

    // Full reconstruction check
    let reconstructed = stream.reconstruct();
    let ghost texts = owned_texts(original_texts@);
    let mut original_full = String::new();
    let mut f: usize = 0;
    assert(texts.take(0) =~= Seq::<Seq<char>>::empty());
    while f < original_texts.len()
        invariant
            texts == owned_texts(original_texts@),
            f <= original_texts@.len(),
            original_full@ == concat_texts(texts.take(f as int)),
        decreases original_texts@.len() - f,
    {
        original_full.append(original_texts[f].1.as_str());
        assert(texts.take(f as int + 1).drop_last() =~= texts.take(f as int));
        f += 1;
    }
    assert(texts.take(original_texts@.len() as int) =~= texts);
    let reconstruction_matches = reconstructed == original_full;

    // Per-file reconstruction
    let mut file_reports: Vec<FileReport> = Vec::new();
    let mut f: usize = 0;
    while f < original_texts.len()
        invariant
            f <= original_texts@.len(),
            file_reports@.len() == f,
            forall|g: int|
                0 <= g < f ==> {
                    let fr = #[trigger] file_reports@[g];
                    &&& fr.name@ == original_texts@[g].0@
                    &&& fr.declared_length == original_texts@[g].1@.len()
                    &&& fr.stream_length == file_chars(stream.positions@, g).len()
                    &&& fr.reconstruction_matches == (file_chars(stream.positions@, g)
                        == original_texts@[g].1@)
                },
        decreases original_texts@.len() - f,
    {
        let name: &str = original_texts[f].0;
        let original: &String = &original_texts[f].1;
        let file_reconstructed = stream.reconstruct_file(f);
        let file_stream_len = stream.file_position_count(f);
        let declared_length = original.as_str().unicode_len();
        let matches = file_reconstructed == *original;
        file_reports.push(
            FileReport {
                name: name.to_owned(),
                declared_length,
                stream_length: file_stream_len,
                reconstruction_matches: matches,
            },
        );
        f += 1;
    }

    // Which classes never occur
    let class_counts = stream.class_counts();
    let mut missing_classes: Vec<CharClass> = Vec::new();
    let mut k: usize = 0;
    while k < CLASS_COUNT
        invariant
            k <= CLASS_COUNT,
            class_counts@.len() == CLASS_COUNT,
            missing_classes@ == missing_below(class_counts@, k as nat),
        decreases CLASS_COUNT - k,
    {
        if class_counts[k] == 0 {
            missing_classes.push(CharClass::from_index(k));
        }
        k += 1;
    }
    let all_classes_covered = missing_classes.len() == 0;
    let case_counts = stream.case_counts();

    CompletenessReport {
        stream_length,
        total_file_chars,
        lengths_match,
        reconstruction_matches,
        all_classes_covered,
        missing_classes,
        class_counts,
        case_counts,
        file_reports,
    }
}


proof fn lemma_lengths_sum(texts: Seq<Seq<char>>, lengths: Seq<usize>)
    requires
        lengths.len() == texts.len(),
        forall|f: int| 0 <= f < texts.len() ==> #[trigger] lengths[f] == texts[f].len(),
    ensures
        sum_counts(lengths) == crate::stream::total_chars(texts),
    decreases texts.len(),
{
    if texts.len() > 0 {
        let t0 = texts.drop_last();
        let l0 = lengths.drop_last();
        assert forall|f: int| 0 <= f < t0.len() implies #[trigger] l0[f] == t0[f].len() by {
            assert(l0[f] == lengths[f] && t0[f] == texts[f]);
        }
        lemma_lengths_sum(t0, l0);
        assert(lengths.last() == lengths[lengths.len() - 1]);
    }
}

/// Completeness invariant: for a stream built from some texts (positions as
/// `stream_of`, one length per file), every clause that `verify_completeness`
/// checks holds: the stream length equals the sum of the file lengths, the
/// characters of the stream are the texts concatenated, and each file's
/// positions give back exactly that file's text.
pub proof fn law_completeness(texts: Seq<Seq<char>>, lengths: Seq<usize>)
    requires
        texts.len() <= usize::MAX,
        crate::stream::total_chars(texts) <= usize::MAX,
        lengths.len() == texts.len(),
        forall|f: int| 0 <= f < texts.len() ==> #[trigger] lengths[f] == texts[f].len(),
    ensures
        crate::stream::stream_of(texts).len() == sum_counts(lengths),
        chars_of(crate::stream::stream_of(texts)) == concat_texts(texts),
        forall|f: int|
            0 <= f < texts.len() ==> #[trigger] file_chars(crate::stream::stream_of(texts), f)
                == texts[f] && file_chars(crate::stream::stream_of(texts), f).len() == lengths[f],
{
    lemma_lengths_sum(texts, lengths);
    crate::stream::law_reconstruction(texts);
    assert forall|f: int| 0 <= f < texts.len() implies #[trigger] file_chars(
        crate::stream::stream_of(texts),
        f,
    ) == texts[f] by {
        crate::stream::law_file_reconstruction(texts, f);
    }
}

} // verus!
