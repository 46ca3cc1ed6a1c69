//! Extraction of the maximal Alpha runs of a stream, case-folded to lowercase.

use vstd::prelude::*;
use crate::observe::{CharClass, StreamPosition, ascii_lower, to_ascii_lower, class_of, is_ascii_lower, is_ascii_upper};
use crate::stream::{CompleteStream, byte_offset_in, lemma_byte_offset_step, push_char};
use crate::observe::utf8_len;
use vstd::utf8::encode_utf8;

verus! {

/// The run still open at the end of `ps`: the maximal suffix of Alpha
/// positions that all come from the file of its last position.
pub open spec fn trailing_run(ps: Seq<StreamPosition>) -> Seq<StreamPosition>
    decreases ps.len(),
{
    if ps.len() == 0 {
        seq![]
    } else {
        let p = ps.last();
        let t = trailing_run(ps.drop_last());
        if p.char_class == CharClass::Alpha {
            if t.len() > 0 && t.last().source_file_index != p.source_file_index {
                seq![p]
            } else {
                t.push(p)
            }
        } else {
            seq![]
        }
    }
}

/// A run as (source file index, lowercase characters).
pub open spec fn run_entry(t: Seq<StreamPosition>) -> (usize, Seq<char>) {
    (t.last().source_file_index, t.map_values(|p: StreamPosition| ascii_lower(p.character)))
}

/// A closed run is kept when it has at least two characters.
pub open spec fn flush(t: Seq<StreamPosition>) -> Seq<(usize, Seq<char>)> {
    if t.len() >= 2 {
        seq![run_entry(t)]
    } else {
        seq![]
    }
}

/// Position `p` continues the run `t`.
pub open spec fn continues(t: Seq<StreamPosition>, p: StreamPosition) -> bool {
    p.char_class == CharClass::Alpha && !(t.len() > 0 && t.last().source_file_index
        != p.source_file_index)
}

/// The runs closed within `ps`: a run closes at a non-Alpha position or where
/// the next Alpha position comes from another file.
pub open spec fn closed_runs(ps: Seq<StreamPosition>) -> Seq<(usize, Seq<char>)>
    decreases ps.len(),
{
    if ps.len() == 0 {
        seq![]
    } else {
        let prev = ps.drop_last();
        if continues(trailing_run(prev), ps.last()) {
            closed_runs(prev)
        } else {
            closed_runs(prev) + flush(trailing_run(prev))
        }
    }
}

/// The maximal Alpha runs of a stream with at least two characters, in order,
/// each with its source file and case-folded to lowercase.
pub open spec fn alpha_runs(ps: Seq<StreamPosition>) -> Seq<(usize, Seq<char>)> {
    closed_runs(ps) + flush(trailing_run(ps))
}

/// The characters of runs given as (source, characters).
pub open spec fn run_chars(runs: Seq<(usize, Seq<char>)>) -> Seq<Seq<char>> {
    runs.map_values(|e: (usize, Seq<char>)| e.1)
}

/// Total number of characters in a list of runs.
pub open spec fn runs_len(runs: Seq<Seq<char>>) -> nat
    decreases runs.len(),
{
    if runs.len() == 0 {
        0
    } else {
        runs_len(runs.drop_last()) + runs.last().len()
    }
}

/// Total number of bytes in the UTF-8 encodings of a list of runs.
pub open spec fn runs_bytes(runs: Seq<Seq<char>>) -> nat
    decreases runs.len(),
{
    if runs.len() == 0 {
        0
    } else {
        runs_bytes(runs.drop_last()) + encode_utf8(runs.last()).len()
    }
}

/// Every character takes one to four bytes.
pub proof fn lemma_encode_len(s: Seq<char>)
    ensures
        s.len() <= encode_utf8(s).len() <= 4 * s.len(),
    decreases s.len(),
{
    if s.len() > 0 {
        lemma_encode_len(s.drop_first());
    }
}

/// The runs take at least one and at most four bytes per character.
pub proof fn lemma_runs_bytes_bounds(runs: Seq<Seq<char>>)
    ensures
        runs_len(runs) <= runs_bytes(runs) <= 4 * runs_len(runs),
    decreases runs.len(),
{
    if runs.len() > 0 {
        lemma_runs_bytes_bounds(runs.drop_last());
        lemma_encode_len(runs.last());
    }
}

/// Run bytes accumulate over prefixes.
pub proof fn lemma_runs_bytes_take(runs: Seq<Seq<char>>, i: int)
    requires
        0 <= i < runs.len(),
    ensures
        runs_bytes(runs.take(i + 1)) == runs_bytes(runs.take(i)) + encode_utf8(runs[i]).len(),
        runs_bytes(runs.take(i + 1)) <= runs_bytes(runs),
    decreases runs.len(),
{
    assert(runs.take(i + 1).drop_last() =~= runs.take(i));
    if i + 1 < runs.len() {
        lemma_runs_bytes_take(runs.drop_last(), i);
        assert(runs.drop_last().take(i + 1) =~= runs.take(i + 1));
        assert(runs.drop_last().take(i) =~= runs.take(i));
    } else {
        assert(runs.take(i + 1) =~= runs);
    }
}

/// Number of bytes in the UTF-8 encoding of the characters.
pub fn utf8_size(s: &Vec<char>) -> (r: usize)
    requires
        encode_utf8(s@).len() <= usize::MAX,
    ensures
        r == encode_utf8(s@).len(),
{
    let mut r: usize = 0;
    let mut i: usize = 0;
    assert(s@.take(0) =~= Seq::<char>::empty());
    while i < s.len()
        invariant
            i <= s@.len(),
            r == byte_offset_in(s@, i as int),
            encode_utf8(s@).len() <= usize::MAX,
        decreases s@.len() - i,
    {
        proof {
            lemma_byte_offset_step(s@, i as int);
        }
        r = r + utf8_len(s[i]);
        i += 1;
    }
    assert(s@.take(s@.len() as int) =~= s@);
    r
}

/// Sizes of the run bookkeeping: the open run is a suffix of the positions,
/// and the closed runs hold no more characters than the positions before it.
proof fn lemma_runs_size(ps: Seq<StreamPosition>)
    ensures
        trailing_run(ps).len() <= ps.len(),
        runs_len(run_chars(closed_runs(ps))) + trailing_run(ps).len() <= ps.len(),
    decreases ps.len(),
{
    if ps.len() > 0 {
        let prev = ps.drop_last();
        lemma_runs_size(prev);
        let t = trailing_run(prev);
        if !continues(t, ps.last()) {
            lemma_runs_len_append(run_chars(closed_runs(prev)), run_chars(flush(t)));
            assert(run_chars(closed_runs(prev) + flush(t)) =~= run_chars(closed_runs(prev))
                + run_chars(flush(t)));
            lemma_flush_len(t);
        }
    }
}

/// Run lengths add up over concatenation.
pub proof fn lemma_runs_len_append(a: Seq<Seq<char>>, b: Seq<Seq<char>>)
    ensures
        runs_len(a + b) == runs_len(a) + runs_len(b),
    decreases b.len(),
{
    if b.len() == 0 {
        assert(a + b =~= a);
    } else {
        assert((a + b).drop_last() =~= a + b.drop_last());
        lemma_runs_len_append(a, b.drop_last());
    }
}

/// Run lengths accumulate over prefixes.
pub proof fn lemma_runs_len_take(runs: Seq<Seq<char>>, i: int)
    requires
        0 <= i < runs.len(),
    ensures
        runs_len(runs.take(i + 1)) == runs_len(runs.take(i)) + runs[i].len(),
        runs_len(runs.take(i + 1)) <= runs_len(runs),
    decreases runs.len(),
{
    assert(runs.take(i + 1).drop_last() =~= runs.take(i));
    if i + 1 < runs.len() {
        lemma_runs_len_take(runs.drop_last(), i);
        assert(runs.drop_last().take(i + 1) =~= runs.take(i + 1));
        assert(runs.drop_last().take(i) =~= runs.take(i));
    } else {
        assert(runs.take(i + 1) =~= runs);
    }
}

/// The runs of a stream hold no more characters than the stream.
pub proof fn lemma_alpha_runs_size(ps: Seq<StreamPosition>)
    ensures
        runs_len(run_chars(alpha_runs(ps))) <= ps.len(),
{
    lemma_runs_size(ps);
    let t = trailing_run(ps);
    lemma_runs_len_append(run_chars(closed_runs(ps)), run_chars(flush(t)));
    assert(run_chars(alpha_runs(ps)) =~= run_chars(closed_runs(ps)) + run_chars(flush(t)));
    lemma_flush_len(t);
}

proof fn lemma_flush_len(t: Seq<StreamPosition>)
    ensures
        runs_len(run_chars(flush(t))) <= t.len(),
{
    if t.len() >= 2 {
        let f = run_chars(flush(t));
        assert(f.len() == 1);
        assert(f.drop_last() =~= Seq::<Seq<char>>::empty());
        assert(f.last() == run_entry(t).1);
        assert(runs_len(f.drop_last()) == 0);
        assert(run_entry(t).1.len() == t.len());
        assert(runs_len(f) == runs_len(f.drop_last()) + f.last().len());
    } else {
        assert(run_chars(flush(t)) =~= Seq::<Seq<char>>::empty());
    }
}

/// The view of extracted runs: (source, characters).
pub open spec fn runs_view(runs: Seq<(usize, Vec<char>)>) -> Seq<(usize, Seq<char>)> {
    runs.map_values(|e: (usize, Vec<char>)| (e.0, e.1@))
}

/// The view of extracted runs as strings: (source, characters).
pub open spec fn string_runs_view(runs: Seq<(usize, String)>) -> Seq<(usize, Seq<char>)> {
    runs.map_values(|e: (usize, String)| (e.0, e.1@))
}

/// The lowercase characters of the open run.
pub open spec fn lowered(t: Seq<StreamPosition>) -> Seq<char> {
    t.map_values(|p: StreamPosition| ascii_lower(p.character))
}

/// Extract the maximal Alpha runs of the stream as character vectors.
pub fn alpha_run_chars(stream: &CompleteStream) -> (runs: Vec<(usize, Vec<char>)>)
    ensures
        runs_view(runs@) == alpha_runs(stream.positions@),
{
    let ghost ps = stream.positions@;
    let mut runs: Vec<(usize, Vec<char>)> = Vec::new();
    let mut current_run: Vec<char> = Vec::new();
    let mut current_source: Option<usize> = None;
    let mut i: usize = 0;
    while i < stream.positions.len()
        invariant
            ps == stream.positions@,
            i <= ps.len(),
            current_run@ == lowered(trailing_run(ps.take(i as int))),
            trailing_run(ps.take(i as int)).len() > 0 ==> current_source == Some(
                trailing_run(ps.take(i as int)).last().source_file_index,
            ),
            runs_view(runs@) == closed_runs(ps.take(i as int)),
        decreases ps.len() - i,
    {
        let pos = &stream.positions[i];
        let ghost prev = ps.take(i as int);
        let ghost t = trailing_run(prev);
        let ghost next = ps.take(i as int + 1);
        assert(next.drop_last() =~= prev);
        assert(next.last() == ps[i as int]);
        let ghost old_runs = runs@;
        if pos.char_class == CharClass::Alpha {
            let c = to_ascii_lower(pos.character);
            if current_source != Some(pos.source_file_index) {
                if current_run.len() >= 2 {
                    if let Some(src) = current_source {
                        runs.push((src, current_run.clone()));
                    }
                }
                current_run.clear();
                current_source = Some(pos.source_file_index);
            }
            current_run.push(c);
        } else {
            if current_run.len() >= 2 {
                if let Some(src) = current_source {
                    runs.push((src, current_run.clone()));
                }
            }
            current_run.clear();
            if current_source.is_none() {
                current_source = Some(pos.source_file_index);
            }
        }
        proof {
            if t.len() >= 2 && !continues(t, ps[i as int]) {
                assert(runs@ == old_runs.push(runs@.last()));
                assert(runs_view(runs@) =~= runs_view(old_runs) + flush(t));
            } else {
                assert(runs_view(runs@) =~= runs_view(old_runs));
                if !continues(t, ps[i as int]) {
                    assert(flush(t) =~= Seq::<(usize, Seq<char>)>::empty());
                    assert(closed_runs(next) =~= closed_runs(prev));
                }
            }
            assert(current_run@ =~= lowered(trailing_run(next)));
        }
        i += 1;
    }
    assert(ps.take(ps.len() as int) =~= ps);
    let ghost t = trailing_run(ps);
    let ghost old_runs = runs@;
    if current_run.len() >= 2 {
        if let Some(src) = current_source {
            runs.push((src, current_run.clone()));
        }
    }
    proof {
        if t.len() >= 2 {
            assert(runs_view(runs@) =~= runs_view(old_runs) + flush(t));
        } else {
            assert(runs_view(runs@) =~= runs_view(old_runs) + flush(t));
        }
    }
    runs
}

/// A string holding the given characters.
pub(crate) fn string_of(chars: &Vec<char>, from: usize, to: usize) -> (s: String)
    requires
        from <= to <= chars@.len(),
    ensures
        s@ == chars@.subrange(from as int, to as int),
{
    let mut s = String::new();
    let mut i: usize = from;
    while i < to
        invariant
            from <= i <= to <= chars@.len(),
            s@ == chars@.subrange(from as int, i as int),
        decreases to - i,
    {
        push_char(&mut s, chars[i]);
        assert(chars@.subrange(from as int, i as int + 1) =~= chars@.subrange(from as int, i as int).push(chars@[i as int]));
        i += 1;
    }
    s
}

/// Extract the maximal Alpha runs of the stream, case-folded to lowercase:
/// (source file index, run) pairs in stream order. A run ends at a non-Alpha
/// position or at a file boundary; only runs of two or more characters are kept.
pub fn extract_alpha_runs(stream: &CompleteStream) -> (runs: Vec<(usize, String)>)
    ensures
        string_runs_view(runs@) == alpha_runs(stream.positions@),
{
    let chars = alpha_run_chars(stream);
    let mut runs: Vec<(usize, String)> = Vec::new();
    let mut i: usize = 0;
    while i < chars.len()
        invariant
            i <= chars@.len(),
            string_runs_view(runs@) == runs_view(chars@.take(i as int)),
        decreases chars@.len() - i,
    {
        let s = string_of(&chars[i].1, 0, chars[i].1.len());
        assert(chars[i as int].1@.subrange(0, chars[i as int].1@.len() as int) =~= chars[i as int].1@);
        let ghost old_runs = runs@;
        runs.push((chars[i].0, s));
        assert(chars@.take(i as int + 1) =~= chars@.take(i as int).push(chars@[i as int]));
        assert(runs@ == old_runs.push((chars@[i as int].0, s)));
        assert(string_runs_view(runs@) =~= string_runs_view(old_runs).push((chars@[i as int].0, s@)));
        assert(runs_view(chars@.take(i as int + 1)) =~= runs_view(chars@.take(i as int)).push((chars@[i as int].0, chars@[i as int].1@)));
        i += 1;
    }
    assert(chars@.take(chars@.len() as int) =~= chars@);
    runs
}


// ── Laws of run extraction ───────────────────────────────────────────────

/// Every position is classified from its own character.
pub open spec fn classes_observed(ps: Seq<StreamPosition>) -> bool {
    forall|k: int| 0 <= k < ps.len() ==> (#[trigger] ps[k]).char_class == class_of(ps[k].character)
}

/// The run's characters are lowercase ASCII letters.
pub open spec fn lowercase_letters(s: Seq<char>) -> bool {
    forall|i: int| 0 <= i < s.len() ==> is_ascii_lower(#[trigger] s[i])
}

proof fn lemma_lower_letter(c: char)
    requires
        class_of(c) == CharClass::Alpha,
    ensures
        is_ascii_lower(ascii_lower(c)),
{
    if is_ascii_upper(c) {
        let v = (c as u32) + 32;
        assert(97 <= v <= 122);
        vstd::utf8::char_u32_cast(v as char, v as u32);
    }
}

proof fn lemma_trailing_alpha(ps: Seq<StreamPosition>)
    requires
        classes_observed(ps),
    ensures
        forall|i: int| 0 <= i < trailing_run(ps).len() ==> (#[trigger] trailing_run(ps)[i]).char_class
            == CharClass::Alpha && class_of(trailing_run(ps)[i].character) == CharClass::Alpha,
    decreases ps.len(),
{
    if ps.len() > 0 {
        let prev = ps.drop_last();
        assert(classes_observed(prev)) by {
            assert forall|k: int| 0 <= k < prev.len() implies (#[trigger] prev[k]).char_class == class_of(prev[k].character) by {
                assert(prev[k] == ps[k]);
            }
        }
        lemma_trailing_alpha(prev);
        assert(ps.last() == ps[ps.len() - 1]);
    }
}

proof fn lemma_lowered_letters(t: Seq<StreamPosition>)
    requires
        forall|i: int| 0 <= i < t.len() ==> class_of((#[trigger] t[i]).character) == CharClass::Alpha,
    ensures
        lowercase_letters(lowered(t)),
{
    assert forall|i: int| 0 <= i < lowered(t).len() implies is_ascii_lower(#[trigger] lowered(t)[i]) by {
        lemma_lower_letter(t[i].character);
    }
}

proof fn lemma_closed_runs_letters(ps: Seq<StreamPosition>)
    requires
        classes_observed(ps),
    ensures
        forall|r: int|
            0 <= r < closed_runs(ps).len() ==> (#[trigger] closed_runs(ps)[r]).1.len() >= 2
                && lowercase_letters(closed_runs(ps)[r].1),
    decreases ps.len(),
{
    if ps.len() > 0 {
        let prev = ps.drop_last();
        assert(classes_observed(prev)) by {
            assert forall|k: int| 0 <= k < prev.len() implies (#[trigger] prev[k]).char_class == class_of(prev[k].character) by {
                assert(prev[k] == ps[k]);
            }
        }
        lemma_closed_runs_letters(prev);
        let t = trailing_run(prev);
        lemma_trailing_alpha(prev);
        lemma_lowered_letters(t);
        if !continues(t, ps.last()) && t.len() >= 2 {
            let c = closed_runs(ps);
            assert(c == closed_runs(prev) + flush(t));
            assert forall|r: int| 0 <= r < c.len() implies (#[trigger] c[r]).1.len() >= 2 && lowercase_letters(c[r].1) by {
                if r < closed_runs(prev).len() {
                    assert(c[r] == closed_runs(prev)[r]);
                } else {
                    assert(c[r] == run_entry(t));
                }
            }
        } else if !continues(t, ps.last()) {
            assert(closed_runs(ps) =~= closed_runs(prev));
        }
    }
}

/// Runs are case-folded letter runs: over a stream whose classes are observed
/// from its characters, every extracted run has at least two characters and
/// consists of lowercase ASCII letters only (no punctuation, digits or spaces).
pub proof fn law_runs_are_lowercase_letters(ps: Seq<StreamPosition>)
    requires
        classes_observed(ps),
    ensures
        forall|r: int|
            0 <= r < alpha_runs(ps).len() ==> (#[trigger] alpha_runs(ps)[r]).1.len() >= 2
                && lowercase_letters(alpha_runs(ps)[r].1),
{
    lemma_closed_runs_letters(ps);
    let t = trailing_run(ps);
    lemma_trailing_alpha(ps);
    lemma_lowered_letters(t);
    let a = alpha_runs(ps);
    assert forall|r: int| 0 <= r < a.len() implies (#[trigger] a[r]).1.len() >= 2 && lowercase_letters(a[r].1) by {
        if r < closed_runs(ps).len() {
            assert(a[r] == closed_runs(ps)[r]);
        } else {
            assert(a[r] == run_entry(t));
        }
    }
}

proof fn lemma_closed_runs_long(ps: Seq<StreamPosition>)
    ensures
        forall|r: int| 0 <= r < closed_runs(ps).len() ==> (#[trigger] closed_runs(ps)[r]).1.len() >= 2,
    decreases ps.len(),
{
    if ps.len() > 0 {
        let prev = ps.drop_last();
        lemma_closed_runs_long(prev);
        let t = trailing_run(prev);
        if !continues(t, ps.last()) && t.len() >= 2 {
            let c = closed_runs(ps);
            assert forall|r: int| 0 <= r < c.len() implies (#[trigger] c[r]).1.len() >= 2 by {
                if r < closed_runs(prev).len() {
                    assert(c[r] == closed_runs(prev)[r]);
                } else {
                    assert(c[r] == run_entry(t));
                }
            }
        } else if !continues(t, ps.last()) {
            assert(closed_runs(ps) =~= closed_runs(prev));
        }
    }
}

proof fn lemma_runs_len_at_least(runs: Seq<Seq<char>>)
    requires
        forall|r: int| 0 <= r < runs.len() ==> (#[trigger] runs[r]).len() >= 2,
    ensures
        runs_len(runs) >= 2 * runs.len(),
    decreases runs.len(),
{
    if runs.len() > 0 {
        let prev = runs.drop_last();
        assert forall|r: int| 0 <= r < prev.len() implies (#[trigger] prev[r]).len() >= 2 by {
            assert(prev[r] == runs[r]);
        }
        lemma_runs_len_at_least(prev);
        assert(runs.last() == runs[runs.len() - 1]);
    }
}

/// Every extracted run has at least two characters, so the runs hold at least
/// twice as many characters, and so bytes, as there are runs.
pub proof fn law_run_char_count(ps: Seq<StreamPosition>)
    ensures
        runs_len(run_chars(alpha_runs(ps))) >= 2 * alpha_runs(ps).len(),
        runs_bytes(run_chars(alpha_runs(ps))) >= 2 * alpha_runs(ps).len(),
{
    lemma_runs_bytes_bounds(run_chars(alpha_runs(ps)));
    lemma_closed_runs_long(ps);
    let a = alpha_runs(ps);
    let t = trailing_run(ps);
    assert forall|r: int| 0 <= r < a.len() implies (#[trigger] a[r]).1.len() >= 2 by {
        if r < closed_runs(ps).len() {
            assert(a[r] == closed_runs(ps)[r]);
        } else {
            assert(a[r] == run_entry(t));
        }
    }
    let rc = run_chars(a);
    assert forall|r: int| 0 <= r < rc.len() implies (#[trigger] rc[r]).len() >= 2 by {
        assert(rc[r] == a[r].1);
    }
    lemma_runs_len_at_least(rc);
}

/// Two streams that agree position by position in file, class, and character
/// up to ASCII case.
pub open spec fn same_up_to_case(ps1: Seq<StreamPosition>, ps2: Seq<StreamPosition>) -> bool {
    &&& ps1.len() == ps2.len()
    &&& forall|k: int|
        0 <= k < ps1.len() ==> (#[trigger] ps1[k]).source_file_index == ps2[k].source_file_index
            && ps1[k].char_class == ps2[k].char_class && ascii_lower(ps1[k].character)
            == ascii_lower(ps2[k].character)
}

proof fn lemma_same_up_to_case_prefix(ps1: Seq<StreamPosition>, ps2: Seq<StreamPosition>)
    requires
        same_up_to_case(ps1, ps2),
        ps1.len() > 0,
    ensures
        same_up_to_case(ps1.drop_last(), ps2.drop_last()),
{
    let a = ps1.drop_last();
    let b = ps2.drop_last();
    assert forall|k: int| 0 <= k < a.len() implies (#[trigger] a[k]).source_file_index == b[k].source_file_index
        && a[k].char_class == b[k].char_class && ascii_lower(a[k].character) == ascii_lower(b[k].character) by {
        assert(a[k] == ps1[k] && b[k] == ps2[k]);
    }
}

proof fn lemma_case_fold_state(ps1: Seq<StreamPosition>, ps2: Seq<StreamPosition>)
    requires
        same_up_to_case(ps1, ps2),
    ensures
        trailing_run(ps1).len() == trailing_run(ps2).len(),
        lowered(trailing_run(ps1)) == lowered(trailing_run(ps2)),
        trailing_run(ps1).len() > 0 ==> trailing_run(ps1).last().source_file_index == trailing_run(
            ps2,
        ).last().source_file_index,
        closed_runs(ps1) == closed_runs(ps2),
    decreases ps1.len(),
{
    if ps1.len() > 0 {
        lemma_same_up_to_case_prefix(ps1, ps2);
        let p1 = ps1.drop_last();
        let p2 = ps2.drop_last();
        lemma_case_fold_state(p1, p2);
        let t1 = trailing_run(p1);
        let t2 = trailing_run(p2);
        let x1 = ps1.last();
        let x2 = ps2.last();
        assert(x1 == ps1[ps1.len() - 1] && x2 == ps2[ps2.len() - 1]);
        assert(continues(t1, x1) == continues(t2, x2));
        if t1.len() >= 2 {
            assert(flush(t1) == flush(t2));
        } else {
            assert(flush(t1) =~= flush(t2));
        }
        if x1.char_class == CharClass::Alpha {
            if t1.len() > 0 && t1.last().source_file_index != x1.source_file_index {
                assert(lowered(seq![x1]) =~= lowered(seq![x2]));
            } else {
                assert(lowered(t1.push(x1)) =~= lowered(t1).push(ascii_lower(x1.character)));
                assert(lowered(t2.push(x2)) =~= lowered(t2).push(ascii_lower(x2.character)));
            }
        } else {
            assert(lowered(Seq::<StreamPosition>::empty()) =~= Seq::<char>::empty());
        }
    }
}

/// Case folding: streams that differ only in the ASCII case of their letters
/// (same files, same classes) have exactly the same Alpha runs.
pub proof fn law_runs_ignore_case(ps1: Seq<StreamPosition>, ps2: Seq<StreamPosition>)
    requires
        same_up_to_case(ps1, ps2),
    ensures
        alpha_runs(ps1) == alpha_runs(ps2),
{
    lemma_case_fold_state(ps1, ps2);
    let t1 = trailing_run(ps1);
    let t2 = trailing_run(ps2);
    if t1.len() >= 2 {
        assert(flush(t1) == flush(t2));
    } else {
        assert(flush(t1) =~= flush(t2));
    }
}

} // verus!
