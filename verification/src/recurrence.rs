//! Identity recurrence over the stream: observable states, termination states,
//! maximal persistence, bilateral maximality, and exact verification of a
//! recurrence relation against the stream.

use vstd::prelude::*;
use std::collections::BTreeMap;
use std::collections::HashMap;
use crate::observe::{CaseState, CharClass, StreamPosition};
use crate::stream::CompleteStream;
use crate::substrate::{lemma_relations_contain, relations_of, step_relation};

verus! {

/// The observable state of a position: the component compared in recurrence.
/// Provenance (file, position, byte offset) is kept apart.
#[derive(Debug, Clone, Copy, PartialEq, Eq, Hash, Structural)]
pub struct ObservableState {
    pub character: char,
    pub case_state: CaseState,
    pub char_class: CharClass,
}

/// Termination state at the boundary of a recurrence run.
#[derive(Debug, Clone, Copy, PartialEq, Eq, Structural)]
pub enum TerminationState {
    /// The diverging observable state.
    State(ObservableState),
    /// File boundary: no successor exists.
    FileEnd,
    /// File boundary: no predecessor exists.
    FileStart,
}

/// A single canonical maximal recurrence relation R_I = (i, j, K) with its
/// termination states and provenance.
#[derive(Debug, Clone)]
pub struct RecurrenceRelation {
    /// Corpus-global position of the first occurrence (i < j).
    pub i: usize,
    /// Corpus-global position of the second occurrence.
    pub j: usize,
    /// Source file index of occurrence i.
    pub source_i: usize,
    /// Source file index of occurrence j.
    pub source_j: usize,
    /// Maximal persistence length K.
    pub k: usize,
    /// Left termination: state at x_{i-1} and x_{j-1} (or FileStart).
    pub left_term_i: TerminationState,
    pub left_term_j: TerminationState,
    /// Right termination: state at x_{i+K} and x_{j+K} (or FileEnd).
    pub right_term_i: TerminationState,
    pub right_term_j: TerminationState,
}

/// Aggregated statistics of recurrences by persistence length.
#[derive(Debug, Default)]
pub struct RecurrenceStatistics {
    /// Total canonical recurrences found.
    pub total_canonical: u64,
    /// Distribution by K: k → count of canonical recurrences of that length.
    pub k_distribution: BTreeMap<usize, u64>,
    /// Same-source recurrences.
    pub same_source: u64,
    /// Cross-source recurrences.
    pub cross_source: u64,
    /// Maximum K observed.
    pub k_max: usize,
    /// Termination pair counts.
    pub right_term_pairs: HashMap<String, u64>,
    /// Sample recurrences for provenance verification.
    pub samples: BTreeMap<usize, RecurrenceRelation>,
    /// Verification failures (must be 0).
    pub verification_failures: u64,
}

/// Why a recurrence relation does not verify against the stream.
#[derive(Debug, Clone, Copy, PartialEq, Eq, Structural)]
pub enum RecurrenceError {
    /// The position is not in the stream.
    PositionNotInStream(usize),
    /// The first occurrence does not come before the second (i, j).
    OutOfOrder(usize, usize),
    /// Position `start + offset` is not in the stream (start, offset).
    OffsetNotInStream(usize, usize),
    /// The states at offset `r` differ (r, state at i + r, state at j + r).
    StateMismatch(usize, ObservableState, ObservableState),
    /// Occurrence i leaves its file at offset `r`.
    CrossFileAtI(usize),
    /// Occurrence j leaves its file at offset `r`.
    CrossFileAtJ(usize),
    /// The predecessors of the two occurrences agree.
    NotBilaterallyMaximal,
}

// ── Model ────────────────────────────────────────────────────────────────

/// The observable state of a position.
pub open spec fn state_of(p: StreamPosition) -> ObservableState {
    ObservableState { character: p.character, case_state: p.case_state, char_class: p.char_class }
}

/// Position `pos` is the first of its file (or is not in the stream).
pub open spec fn spec_is_file_start(ps: Seq<StreamPosition>, pos: int) -> bool {
    pos == 0 || pos >= ps.len() || ps[pos].source_file_index != ps[pos - 1].source_file_index
}

/// Position `pos` is the last of its file (or is not in the stream).
pub open spec fn spec_is_file_end(ps: Seq<StreamPosition>, pos: int) -> bool {
    pos + 1 >= ps.len() || ps[pos].source_file_index != ps[pos + 1].source_file_index
}

/// Left termination of `pos`: the state of its predecessor in the same file,
/// or `FileStart`.
pub open spec fn spec_left_term(ps: Seq<StreamPosition>, pos: int) -> TerminationState {
    if spec_is_file_start(ps, pos) {
        TerminationState::FileStart
    } else {
        TerminationState::State(state_of(ps[pos - 1]))
    }
}

/// Right termination of a run of length `k` from `pos`: the state at `pos + k`
/// if it lies in the same file, or `FileEnd`.
pub open spec fn spec_right_term(ps: Seq<StreamPosition>, pos: int, k: int) -> TerminationState {
    if pos + k >= ps.len() || ps[pos + k].source_file_index != ps[pos].source_file_index {
        TerminationState::FileEnd
    } else {
        TerminationState::State(state_of(ps[pos + k]))
    }
}

/// The runs from `i` and `j` both continue at offset `r`, within their files,
/// with equal states.
pub open spec fn persists_at(ps: Seq<StreamPosition>, i: int, j: int, r: int) -> bool {
    &&& i + r < ps.len()
    &&& j + r < ps.len()
    &&& ps[i + r].source_file_index == ps[i].source_file_index
    &&& ps[j + r].source_file_index == ps[j].source_file_index
    &&& state_of(ps[i + r]) == state_of(ps[j + r])
}

/// Bilateral maximality: the pair is canonical iff one of the two occurrences
/// starts its file or their predecessors differ.
pub open spec fn spec_bilaterally_maximal(ps: Seq<StreamPosition>, i: int, j: int) -> bool {
    match (spec_left_term(ps, i), spec_left_term(ps, j)) {
        (TerminationState::State(si), TerminationState::State(sj)) => si != sj,
        _ => true,
    }
}

/// The first failing check of offset `r` of a recurrence relation, if any.
pub open spec fn offset_failure(ps: Seq<StreamPosition>, rel: RecurrenceRelation, r: int) -> Option<
    RecurrenceError,
> {
    let i = rel.i as int;
    let j = rel.j as int;
    if i + r >= ps.len() {
        Some(RecurrenceError::OffsetNotInStream(rel.i, r as usize))
    } else if j + r >= ps.len() {
        Some(RecurrenceError::OffsetNotInStream(rel.j, r as usize))
    } else if state_of(ps[i + r]) != state_of(ps[j + r]) {
        Some(RecurrenceError::StateMismatch(r as usize, state_of(ps[i + r]), state_of(ps[j + r])))
    } else if r > 0 && ps[i + r].source_file_index != ps[i].source_file_index {
        Some(RecurrenceError::CrossFileAtI(r as usize))
    } else if r > 0 && ps[j + r].source_file_index != ps[j].source_file_index {
        Some(RecurrenceError::CrossFileAtJ(r as usize))
    } else {
        None
    }
}

/// The first failing offset check among offsets `r..k`, in increasing order.
pub open spec fn first_offset_failure(ps: Seq<StreamPosition>, rel: RecurrenceRelation, r: int) -> Option<
    RecurrenceError,
>
    decreases rel.k - r,
{
    if r >= rel.k {
        None
    } else {
        match offset_failure(ps, rel, r) {
            Some(e) => Some(e),
            None => first_offset_failure(ps, rel, r + 1),
        }
    }
}

/// The outcome of verifying a recurrence relation: the first check that fails,
/// in the order positions, order, offsets `0..k`, bilateral maximality.
pub open spec fn recurrence_check(ps: Seq<StreamPosition>, rel: RecurrenceRelation) -> Result<
    (),
    RecurrenceError,
> {
    if rel.i >= ps.len() {
        Err(RecurrenceError::PositionNotInStream(rel.i))
    } else if rel.j >= ps.len() {
        Err(RecurrenceError::PositionNotInStream(rel.j))
    } else if rel.i >= rel.j {
        Err(RecurrenceError::OutOfOrder(rel.i, rel.j))
    } else {
        match first_offset_failure(ps, rel, 0) {
            Some(e) => Err(e),
            None => if spec_bilaterally_maximal(ps, rel.i as int, rel.j as int) {
                Ok(())
            } else {
                Err(RecurrenceError::NotBilaterallyMaximal)
            },
        }
    }
}

/// A recurrence relation holds in the stream: both occurrences exist, i < j,
/// the K states from i and from j agree pairwise within their files, and the
/// pair is bilaterally maximal.
pub open spec fn recurrence_holds(ps: Seq<StreamPosition>, rel: RecurrenceRelation) -> bool {
    &&& rel.i < ps.len()
    &&& rel.j < ps.len()
    &&& rel.i < rel.j
    &&& forall|r: int| 0 <= r < rel.k ==> #[trigger] persists_at(ps, rel.i as int, rel.j as int, r)
    &&& spec_bilaterally_maximal(ps, rel.i as int, rel.j as int)
}

proof fn lemma_first_offset_failure(ps: Seq<StreamPosition>, rel: RecurrenceRelation, r: int)
    requires
        0 <= r <= rel.k,
    ensures
        first_offset_failure(ps, rel, r) is None <==> forall|q: int|
            r <= q < rel.k ==> #[trigger] offset_failure(ps, rel, q) is None,
    decreases rel.k - r,
{
    if r < rel.k {
        lemma_first_offset_failure(ps, rel, r + 1);
    }
}

/// Verifying a relation succeeds exactly when it holds.
pub proof fn law_recurrence_check(ps: Seq<StreamPosition>, rel: RecurrenceRelation)
    ensures
        recurrence_check(ps, rel) is Ok <==> recurrence_holds(ps, rel),
{
    if rel.i < ps.len() && rel.j < ps.len() && rel.i < rel.j {
        lemma_first_offset_failure(ps, rel, 0);
        if first_offset_failure(ps, rel, 0) is None {
            assert forall|r: int| 0 <= r < rel.k implies #[trigger] persists_at(
                ps,
                rel.i as int,
                rel.j as int,
                r,
            ) by {
                assert(offset_failure(ps, rel, r) is None);
            }
        } else {
            let q = choose|q: int| 0 <= q < rel.k && !(#[trigger] offset_failure(ps, rel, q) is None);
            if recurrence_holds(ps, rel) {
                assert(persists_at(ps, rel.i as int, rel.j as int, q));
            }
        }
    }
}

/// Left termination follows the file: a position whose predecessor lies in
/// another file (or that is the first position of the stream) has no
/// predecessor, `FileStart`; otherwise it is the observable state of the
/// previous position.
pub proof fn law_left_term(ps: Seq<StreamPosition>, pos: int)
    requires
        0 <= pos < ps.len(),
    ensures
        (pos == 0 || ps[pos - 1].source_file_index != ps[pos].source_file_index) ==> spec_left_term(
            ps,
            pos,
        ) == TerminationState::FileStart,
        (pos > 0 && ps[pos - 1].source_file_index == ps[pos].source_file_index) ==> spec_left_term(
            ps,
            pos,
        ) == TerminationState::State(
            (ObservableState {
                character: ps[pos - 1].character,
                case_state: ps[pos - 1].case_state,
                char_class: ps[pos - 1].char_class,
            }),
        ),
{
}

/// A relation whose K states agree within the files verifies exactly when one
/// of its occurrences starts its file or their predecessors in the files
/// differ; when both predecessors lie in their files and are equal it is
/// refused as not bilaterally maximal.
pub proof fn law_bilateral_outcome(ps: Seq<StreamPosition>, rel: RecurrenceRelation)
    requires
        rel.i < rel.j < ps.len(),
        forall|r: int| 0 <= r < rel.k ==> #[trigger] persists_at(ps, rel.i as int, rel.j as int, r),
    ensures
        (rel.i == 0 || ps[rel.i - 1].source_file_index != ps[rel.i as int].source_file_index
            || ps[rel.j - 1].source_file_index != ps[rel.j as int].source_file_index)
            ==> recurrence_check(ps, rel) == Ok::<(), RecurrenceError>(()),
        (rel.i > 0 && ps[rel.i - 1].source_file_index == ps[rel.i as int].source_file_index
            && ps[rel.j - 1].source_file_index == ps[rel.j as int].source_file_index) ==> (
        recurrence_check(ps, rel) == Ok::<(), RecurrenceError>(()) <==> (ps[rel.i - 1].character
            != ps[rel.j - 1].character || ps[rel.i - 1].case_state != ps[rel.j - 1].case_state
            || ps[rel.i - 1].char_class != ps[rel.j - 1].char_class)),
        (rel.i > 0 && ps[rel.i - 1].source_file_index == ps[rel.i as int].source_file_index
            && ps[rel.j - 1].source_file_index == ps[rel.j as int].source_file_index
            && ps[rel.i - 1].character == ps[rel.j - 1].character && ps[rel.i - 1].case_state
            == ps[rel.j - 1].case_state && ps[rel.i - 1].char_class == ps[rel.j - 1].char_class)
            ==> recurrence_check(ps, rel) == Err::<(), RecurrenceError>(
            RecurrenceError::NotBilaterallyMaximal,
        ),
{
    lemma_first_offset_failure(ps, rel, 0);
    assert forall|q: int| 0 <= q < rel.k implies #[trigger] offset_failure(ps, rel, q) is None by {
        assert(persists_at(ps, rel.i as int, rel.j as int, q));
    }
    law_left_term(ps, rel.i as int);
    law_left_term(ps, rel.j as int);
}

/// Provenance of a recurrence of length K that holds: each occurrence runs
/// along K - 1 progression relations, every step from one of its positions to
/// the next being a relation of the substrate.
pub proof fn law_recurrence_provenance(ps: Seq<StreamPosition>, rel: RecurrenceRelation)
    requires
        recurrence_holds(ps, rel),
    ensures
        forall|m: int|
            rel.i <= m < rel.i + rel.k - 1 ==> relations_of(ps).contains(
                #[trigger] step_relation(ps, m),
            ),
        forall|m: int|
            rel.j <= m < rel.j + rel.k - 1 ==> relations_of(ps).contains(
                #[trigger] step_relation(ps, m),
            ),
{
    let i = rel.i as int;
    let j = rel.j as int;
    assert forall|m: int| i <= m < i + rel.k - 1 implies relations_of(ps).contains(
        #[trigger] step_relation(ps, m),
    ) by {
        assert(persists_at(ps, i, j, m - i));
        assert(persists_at(ps, i, j, m - i + 1));
        lemma_relations_contain(ps, m);
    }
    assert forall|m: int| j <= m < j + rel.k - 1 implies relations_of(ps).contains(
        #[trigger] step_relation(ps, m),
    ) by {
        assert(persists_at(ps, i, j, m - j));
        assert(persists_at(ps, i, j, m - j + 1));
        lemma_relations_contain(ps, m);
    }
}

// ── Executable observations ──────────────────────────────────────────────

impl ObservableState {
    /// The observable state of a position.
    pub fn from_position(p: &StreamPosition) -> (r: ObservableState)
        ensures
            r == state_of(*p),
    {
        ObservableState { character: p.character, case_state: p.case_state, char_class: p.char_class }
    }
}

/// The `position` fields, in stream order, of those among the first `n`
/// positions whose observable state is `s`.
pub open spec fn positions_with(ps: Seq<StreamPosition>, s: ObservableState, n: int) -> Seq<usize>
    decreases n,
{
    if n <= 0 {
        seq![]
    } else {
        positions_with(ps, s, n - 1) + if state_of(ps[n - 1]) == s {
            seq![ps[n - 1].position]
        } else {
            seq![]
        }
    }
}

proof fn lemma_positions_with_nonempty(ps: Seq<StreamPosition>, s: ObservableState, q: int, n: int)
    requires
        0 <= q < n,
        state_of(ps[q]) == s,
    ensures
        positions_with(ps, s, n).len() > 0,
    decreases n,
{
    if q < n - 1 {
        lemma_positions_with_nonempty(ps, s, q, n - 1);
    }
}

/// The entry of `states` equal to `s`, if there is one.
fn find_state(states: &Vec<ObservableState>, s: ObservableState) -> (r: Option<usize>)
    ensures
        match r {
            Some(x) => x < states@.len() && states@[x as int] == s,
            None => forall|x: int| 0 <= x < states@.len() ==> states@[x] != s,
        },
{
    let mut e: usize = 0;
    while e < states.len()
        invariant
            e <= states@.len(),
            forall|x: int| 0 <= x < e ==> states@[x] != s,
        decreases states@.len() - e,
    {
        if states[e] == s {
            return Some(e);
        }
        e += 1;
    }
    None
}

/// Index of the stream by observable state: every state that occurs, once,
/// with the positions at which it occurs, in stream order.
pub fn build_state_index(stream: &CompleteStream) -> (index: Vec<(ObservableState, Vec<usize>)>)
    ensures
        forall|e: int|
            0 <= e < index@.len() ==> (#[trigger] index@[e]).1@ == positions_with(
                stream.positions@,
                index@[e].0,
                stream.positions@.len() as int,
            ) && index@[e].1@.len() > 0,
        forall|a: int, b: int|
            0 <= a < b < index@.len() ==> (#[trigger] index@[a]).0 != (#[trigger] index@[b]).0,
        forall|q: int|
            0 <= q < stream.positions@.len() ==> exists|e: int|
                0 <= e < index@.len() && (#[trigger] index@[e]).0 == state_of(
                    #[trigger] stream.positions@[q],
                ),
{
    let ghost ps = stream.positions@;
    let n = stream.positions.len();
    let mut states: Vec<ObservableState> = Vec::new();
    // `first[e]`: a position with state `states[e]`; `slot[q]`: the entry of position `q`.
    let ghost mut first: Seq<int> = seq![];
    let ghost mut slot: Seq<int> = seq![];
    let mut p: usize = 0;
    while p < n
        invariant
            n == ps.len(),
            ps == stream.positions@,
            p <= n,
            forall|a: int, b: int|
                0 <= a < b < states@.len() ==> (#[trigger] states@[a]) != (#[trigger] states@[b]),
            first.len() == states@.len(),
            forall|e: int|
                0 <= e < states@.len() ==> 0 <= #[trigger] first[e] < p && state_of(ps[first[e]])
                    == states@[e],
            slot.len() == p,
            forall|q: int|
                0 <= q < p ==> 0 <= #[trigger] slot[q] < states@.len() && states@[slot[q]]
                    == state_of(ps[q]),
        decreases n - p,
    {
        let s = ObservableState::from_position(&stream.positions[p]);
        match find_state(&states, s) {
            Some(x) => {
                proof {
                    slot = slot.push(x as int);
                }
            },
            None => {
                proof {
                    first = first.push(p as int);
                    slot = slot.push(states@.len() as int);
                }
                states.push(s);
            },
        }
        p += 1;
    }
    let mut index: Vec<(ObservableState, Vec<usize>)> = Vec::new();
    let mut e: usize = 0;
    while e < states.len()
        invariant
            n == ps.len(),
            ps == stream.positions@,
            e <= states@.len(),
            index@.len() == e,
            forall|x: int|
                0 <= x < e ==> (#[trigger] index@[x]).0 == states@[x] && index@[x].1@
                    == positions_with(ps, states@[x], n as int),
        decreases states@.len() - e,
    {
        let s = states[e];
        let mut list: Vec<usize> = Vec::new();
        let mut q: usize = 0;
        while q < n
            invariant
                n == ps.len(),
                ps == stream.positions@,
                q <= n,
                list@ == positions_with(ps, s, q as int),
            decreases n - q,
        {
            if ObservableState::from_position(&stream.positions[q]) == s {
                list.push(stream.positions[q].position);
            }
            q += 1;
        }
        index.push((s, list));
        e += 1;
    }
    proof {
        assert forall|x: int| 0 <= x < index@.len() implies (#[trigger] index@[x]).1@.len() > 0 by {
            lemma_positions_with_nonempty(ps, states@[x], first[x], n as int);
        }
        assert forall|q: int| 0 <= q < ps.len() implies exists|e: int|
            0 <= e < index@.len() && (#[trigger] index@[e]).0 == state_of(#[trigger] ps[q]) by {
            assert(index@[slot[q]].0 == state_of(ps[q]));
        }
    }
    index
}

/// The observable state at a corpus-global position, if it exists.
fn state_at(stream: &CompleteStream, pos: usize) -> (r: Option<ObservableState>)
    ensures
        r == if pos < stream.positions@.len() {
            Some(state_of(stream.positions@[pos as int]))
        } else {
            None
        },
{
    if pos < stream.positions.len() {
        Some(ObservableState::from_position(&stream.positions[pos]))
    } else {
        None
    }
}

/// The source file index at a corpus-global position, if it exists.
fn source_at(stream: &CompleteStream, pos: usize) -> (r: Option<usize>)
    ensures
        r == if pos < stream.positions@.len() {
            Some(stream.positions@[pos as int].source_file_index)
        } else {
            None
        },
{
    if pos < stream.positions.len() {
        Some(stream.positions[pos].source_file_index)
    } else {
        None
    }
}

/// Whether `pos` is the first position of its source file.
fn is_file_start(stream: &CompleteStream, pos: usize) -> (r: bool)
    ensures
        r == spec_is_file_start(stream.positions@, pos as int),
{
    if pos == 0 {
        return true;
    }
    match (source_at(stream, pos), source_at(stream, pos - 1)) {
        (Some(s), Some(prev_s)) => s != prev_s,
        _ => true,
    }
}

/// Whether `pos` is the last position of its source file.
fn is_file_end(stream: &CompleteStream, pos: usize) -> (r: bool)
    requires
        pos < usize::MAX,
    ensures
        r == spec_is_file_end(stream.positions@, pos as int),
{
    if pos + 1 >= stream.len() {
        return true;
    }
    match (source_at(stream, pos), source_at(stream, pos + 1)) {
        (Some(s), Some(next_s)) => s != next_s,
        _ => true,
    }
}

/// Left termination state of position `pos`.
fn left_term(stream: &CompleteStream, pos: usize) -> (r: TerminationState)
    ensures
        r == spec_left_term(stream.positions@, pos as int),
{
    if is_file_start(stream, pos) {
        return TerminationState::FileStart;
    }
    let prev = pos - 1;
    if source_at(stream, prev) == source_at(stream, pos) {
        match state_at(stream, prev) {
            Some(s) => TerminationState::State(s),
            None => TerminationState::FileStart,
        }
    } else {
        TerminationState::FileStart
    }
}

/// Right termination state of a run of length `k` from `pos`.
fn right_term(stream: &CompleteStream, pos: usize, k: usize) -> (r: TerminationState)
    requires
        pos + k <= usize::MAX,
    ensures
        r == spec_right_term(stream.positions@, pos as int, k as int),
{
    let next = pos + k;
    if next >= stream.len() {
        return TerminationState::FileEnd;
    }
    if source_at(stream, next) != source_at(stream, pos) {
        return TerminationState::FileEnd;
    }
    match state_at(stream, next) {
        Some(s) => TerminationState::State(s),
        None => TerminationState::FileEnd,
    }
}

/// The maximal persistence K from positions `i` and `j`: the run continues
/// while both positions stay in their files with equal states. Offset 0 is
/// taken as matching; 0 when either position is not in the stream.
fn compute_k(stream: &CompleteStream, i: usize, j: usize) -> (k: usize)
    ensures
        (i >= stream.positions@.len() || j >= stream.positions@.len()) ==> k == 0,
        (i < stream.positions@.len() && j < stream.positions@.len()) ==> {
            &&& 1 <= k
            &&& forall|r: int| 1 <= r < k ==> #[trigger] persists_at(stream.positions@, i as int, j as int, r)
            &&& !persists_at(stream.positions@, i as int, j as int, k as int)
        },
{
    let source_i = match source_at(stream, i) {
        Some(s) => s,
        None => return 0,
    };
    let source_j = match source_at(stream, j) {
        Some(s) => s,
        None => return 0,
    };
    let ghost ps = stream.positions@;
    let n = stream.positions.len();
    let mut k: usize = 1;
    loop
        invariant
            ps == stream.positions@,
            n == ps.len(),
            i < ps.len(),
            j < ps.len(),
            source_i == ps[i as int].source_file_index,
            source_j == ps[j as int].source_file_index,
            1 <= k,
            i + k <= ps.len(),
            j + k <= ps.len(),
            forall|r: int| 1 <= r < k ==> #[trigger] persists_at(ps, i as int, j as int, r),
        ensures
            1 <= k,
            forall|r: int| 1 <= r < k ==> #[trigger] persists_at(ps, i as int, j as int, r),
            !persists_at(ps, i as int, j as int, k as int),
        decreases ps.len() - k,
    {
        let ni = i + k;
        let nj = j + k;
        if ni >= stream.len() || nj >= stream.len() {
            break;
        }
        if source_at(stream, ni) != Some(source_i) {
            break;
        }
        if source_at(stream, nj) != Some(source_j) {
            break;
        }
        match (state_at(stream, ni), state_at(stream, nj)) {
            (Some(si), Some(sj)) => {
                if si == sj {
                    k += 1;
                } else {
                    break;
                }
            },
            _ => break,
        }
    }
    k
}

/// Bilateral maximality: (i, j) is canonical iff the predecessors differ or
/// at least one of them is the start of its file.
fn is_bilaterally_maximal(stream: &CompleteStream, i: usize, j: usize) -> (r: bool)
    ensures
        r == spec_bilaterally_maximal(stream.positions@, i as int, j as int),
{
    let li = left_term(stream, i);
    let lj = left_term(stream, j);
    match (li, lj) {
        (TerminationState::FileStart, _) => true,
        (_, TerminationState::FileStart) => true,
        (TerminationState::State(si), TerminationState::State(sj)) => si != sj,
        _ => true,
    }
}

/// Verify a single recurrence relation exactly against the stream: both
/// positions exist, i < j, all K state equalities hold within the files, and
/// the pair is bilaterally maximal. Returns the first check that fails.
pub fn verify_recurrence(stream: &CompleteStream, rel: &RecurrenceRelation) -> (r: Result<
    (),
    RecurrenceError,
>)
    ensures
        r == recurrence_check(stream.positions@, *rel),
        r is Ok <==> recurrence_holds(stream.positions@, *rel),
{
    proof {
        law_recurrence_check(stream.positions@, *rel);
    }
    let ghost ps = stream.positions@;
    let src_i = match source_at(stream, rel.i) {
        Some(s) => s,
        None => return Err(RecurrenceError::PositionNotInStream(rel.i)),
    };
    let src_j = match source_at(stream, rel.j) {
        Some(s) => s,
        None => return Err(RecurrenceError::PositionNotInStream(rel.j)),
    };
    if rel.i >= rel.j {
        return Err(RecurrenceError::OutOfOrder(rel.i, rel.j));
    }
    let n = stream.positions.len();
    let mut r: usize = 0;
    while r < rel.k
        invariant
            ps == stream.positions@,
            n == ps.len(),
            rel.i < rel.j < ps.len(),
            src_i == ps[rel.i as int].source_file_index,
            src_j == ps[rel.j as int].source_file_index,
            r <= rel.k,
            r > 0 ==> rel.j + r <= ps.len(),
            first_offset_failure(ps, *rel, 0) == first_offset_failure(ps, *rel, r as int),
            recurrence_check(ps, *rel) is Ok <==> recurrence_holds(ps, *rel),
        decreases rel.k - r,
    {
        let si = match state_at(stream, rel.i + r) {
            Some(s) => s,
            None => return Err(RecurrenceError::OffsetNotInStream(rel.i, r)),
        };
        let sj = match state_at(stream, rel.j + r) {
            Some(s) => s,
            None => return Err(RecurrenceError::OffsetNotInStream(rel.j, r)),
        };
        if si != sj {
            return Err(RecurrenceError::StateMismatch(r, si, sj));
        }
        if r > 0 {
            if source_at(stream, rel.i + r) != Some(src_i) {
                return Err(RecurrenceError::CrossFileAtI(r));
            }
            if source_at(stream, rel.j + r) != Some(src_j) {
                return Err(RecurrenceError::CrossFileAtJ(r));
            }
        }
        r += 1;
    }
    if !is_bilaterally_maximal(stream, rel.i, rel.j) {
        return Err(RecurrenceError::NotBilaterallyMaximal);
    }
    Ok(())
}

} // verus!
