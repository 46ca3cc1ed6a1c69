//! The relational substrate: one relation per adjacent pair of positions of the
//! same source file, with its class and case transitions, and its accounting.

use vstd::prelude::*;
use std::collections::HashSet;
use crate::observe::{CaseState, CharClass, StreamPosition, class_index, case_index, CLASS_COUNT, CASE_COUNT};
use crate::stream::{CompleteStream, stream_of, total_chars, file_block, byte_offset_in, lemma_stream_len};
use crate::tally::{occurrences, occurrences_below, key_view, keys_below, tally, law_tally_total};

verus! {

broadcast use vstd::std_specs::hash::group_hash_axioms;

/// A single relational observation between two adjacent stream positions.
#[derive(Debug, Clone)]
pub struct AdjacentRelation {
    /// The predecessor position.
    pub i: usize,
    /// The successor position.
    pub j: usize,
    /// Class transition: class at i → class at j.
    pub class_from: CharClass,
    pub class_to: CharClass,
    /// Case transition: case at i → case at j.
    pub case_from: CaseState,
    pub case_to: CaseState,
    /// True iff class(x_i) ≠ class(x_j).
    pub class_transition: bool,
    /// True iff case(x_i) ≠ case(x_j).
    pub case_transition: bool,
    /// Source file of the pair; progression does not cross file boundaries.
    pub source_file_index: usize,
}

/// The relational substrate over a complete stream.
pub struct RelationalSubstrate {
    pub relations: Vec<AdjacentRelation>,
    /// Number of source files (F in the accounting invariant).
    pub file_count: usize,
    /// Total stream positions (|X|).
    pub stream_length: usize,
}

/// Result of the accounting verification.
#[derive(Debug)]
pub struct AccountingReport {
    /// Expected: |X| - F (0 when F exceeds |X|).
    pub expected_relations: usize,
    /// Actual: number of relations.
    pub actual_relations: usize,
    /// The actual count equals the expected one.
    pub invariant_holds: bool,
    /// Number of relations whose predecessor position already occurred in an earlier relation.
    pub duplicate_predecessor_positions: usize,
    /// Number of relations with a class transition.
    pub class_transition_loci: usize,
    /// Number of relations with a case transition.
    pub case_transition_loci: usize,
    /// Entry `a * 21 + b`: number of relations from class index `a` to class index `b`.
    pub class_transition_table: Vec<usize>,
    /// Entry `a * 3 + b`: number of relations from case index `a` to case index `b`.
    pub case_transition_table: Vec<usize>,
}

/// The relation observed between two adjacent positions.
pub open spec fn relation_of(a: StreamPosition, b: StreamPosition) -> AdjacentRelation {
    AdjacentRelation {
        i: a.position,
        j: b.position,
        class_from: a.char_class,
        class_to: b.char_class,
        case_from: a.case_state,
        case_to: b.case_state,
        class_transition: a.char_class != b.char_class,
        case_transition: a.case_state != b.case_state,
        source_file_index: a.source_file_index,
    }
}

/// The relations of a sequence of positions: one for each adjacent pair with
/// the same source file, in order.
pub open spec fn relations_of(ps: Seq<StreamPosition>) -> Seq<AdjacentRelation>
    decreases ps.len(),
{
    if ps.len() < 2 {
        seq![]
    } else {
        let prev = relations_of(ps.drop_last());
        let a = ps[ps.len() - 2];
        let b = ps[ps.len() - 1];
        if a.source_file_index == b.source_file_index {
            prev.push(relation_of(a, b))
        } else {
            prev
        }
    }
}

/// Number of relations whose predecessor position occurs in an earlier relation.
pub open spec fn duplicate_predecessors(rels: Seq<AdjacentRelation>) -> nat
    decreases rels.len(),
{
    if rels.len() == 0 {
        0
    } else {
        let prev = rels.drop_last();
        duplicate_predecessors(prev) + if predecessor_set(prev).contains(rels.last().i) {
            1nat
        } else {
            0nat
        }
    }
}

/// The predecessor positions of a sequence of relations.
pub open spec fn predecessor_set(rels: Seq<AdjacentRelation>) -> Set<usize> {
    Set::new(|x: usize| exists|r: int| 0 <= r < rels.len() && rels[r].i == x)
}

/// Number of relations with a class transition.
pub open spec fn class_loci(rels: Seq<AdjacentRelation>) -> nat
    decreases rels.len(),
{
    if rels.len() == 0 {
        0
    } else {
        class_loci(rels.drop_last()) + if rels.last().class_transition {
            1nat
        } else {
            0nat
        }
    }
}

/// Number of relations with a case transition.
pub open spec fn case_loci(rels: Seq<AdjacentRelation>) -> nat
    decreases rels.len(),
{
    if rels.len() == 0 {
        0
    } else {
        case_loci(rels.drop_last()) + if rels.last().case_transition {
            1nat
        } else {
            0nat
        }
    }
}

/// Table key of the class transition of a relation.
pub open spec fn class_pair_key(r: AdjacentRelation) -> nat {
    class_index(r.class_from) * 21 + class_index(r.class_to)
}

/// Table key of the case transition of a relation.
pub open spec fn case_pair_key(r: AdjacentRelation) -> nat {
    case_index(r.case_from) * 3 + case_index(r.case_to)
}

/// The class transition keys of all relations.
pub open spec fn class_pair_keys(rels: Seq<AdjacentRelation>) -> Seq<nat> {
    rels.map_values(|r: AdjacentRelation| class_pair_key(r))
}

/// The case transition keys of all relations.
pub open spec fn case_pair_keys(rels: Seq<AdjacentRelation>) -> Seq<nat> {
    rels.map_values(|r: AdjacentRelation| case_pair_key(r))
}

/// Number of files with at least one character.
pub open spec fn nonempty_files(texts: Seq<Seq<char>>) -> nat
    decreases texts.len(),
{
    if texts.len() == 0 {
        0
    } else {
        nonempty_files(texts.drop_last()) + if texts.last().len() > 0 {
            1nat
        } else {
            0nat
        }
    }
}

impl RelationalSubstrate {
    /// Derive the relational substrate from a stream: one relation per pair of
    /// adjacent positions of the same source file. Progression does not cross
    /// file boundaries.
    pub fn from_stream(stream: &CompleteStream) -> (r: RelationalSubstrate)
        ensures
            r.relations@ == relations_of(stream.positions@),
            r.file_count == stream.source_files@.len(),
            r.stream_length == stream.positions@.len(),
    {
        let mut relations: Vec<AdjacentRelation> = Vec::with_capacity(
            stream.len().saturating_sub(stream.source_files.len()),
        );
        let n = stream.positions.len();
        let ghost ps = stream.positions@;
        let mut i: usize = 0;
        assert(ps.take(1).len() < 2 || ps.len() == 0);
        if n > 0 {
            assert(relations_of(ps.take(1)) =~= Seq::<AdjacentRelation>::empty());
        }
        while i + 1 < n
            invariant
                ps == stream.positions@,
                n == ps.len(),
                n > 0 ==> i + 1 <= n,
                n > 0 ==> relations@ == relations_of(ps.take(i as int + 1)),
                n == 0 ==> i == 0 && relations@.len() == 0,
            decreases n - i,
        {
            let xi = &stream.positions[i];
            let xj = &stream.positions[i + 1];
            assert(ps.take(i as int + 2).drop_last() =~= ps.take(i as int + 1));
            assert(ps.take(i as int + 2)[i as int] == ps[i as int]);
            assert(ps.take(i as int + 2)[i as int + 1] == ps[i as int + 1]);
            if xi.source_file_index == xj.source_file_index {
                relations.push(
                    AdjacentRelation {
                        i: xi.position,
                        j: xj.position,
                        class_from: xi.char_class,
                        class_to: xj.char_class,
                        case_from: xi.case_state,
                        case_to: xj.case_state,
                        class_transition: xi.char_class != xj.char_class,
                        case_transition: xi.case_state != xj.case_state,
                        source_file_index: xi.source_file_index,
                    },
                );
            }
            i += 1;
        }
        if n > 0 {
            assert(ps.take(n as int) =~= ps);
        } else {
            assert(relations_of(ps) =~= Seq::<AdjacentRelation>::empty());
        }
        RelationalSubstrate {
            relations,
            file_count: stream.source_files.len(),
            stream_length: stream.len(),
        }
    }

    /// Verify the accounting invariant |R_P| = |X| - F and count duplicates,
    /// transition loci, and transition tables.
    pub fn verify_accounting(&self) -> (r: AccountingReport)
        ensures
            r.expected_relations == if self.stream_length >= self.file_count {
                (self.stream_length - self.file_count) as usize
            } else {
                0usize
            },
            r.actual_relations == self.relations@.len(),
            r.invariant_holds == (r.actual_relations == r.expected_relations),
            r.duplicate_predecessor_positions == duplicate_predecessors(self.relations@),
            r.class_transition_loci == class_loci(self.relations@),
            r.case_transition_loci == case_loci(self.relations@),
            r.class_transition_table@.len() == CLASS_COUNT * CLASS_COUNT,
            forall|k: int|
                0 <= k < CLASS_COUNT * CLASS_COUNT ==> #[trigger] r.class_transition_table@[k]
                    == occurrences(class_pair_keys(self.relations@), k as nat),
            r.case_transition_table@.len() == CASE_COUNT * CASE_COUNT,
            forall|k: int|
                0 <= k < CASE_COUNT * CASE_COUNT ==> #[trigger] r.case_transition_table@[k]
                    == occurrences(case_pair_keys(self.relations@), k as nat),
    {
        let expected = self.stream_length.saturating_sub(self.file_count);
        let actual = self.relations.len();
        let invariant_holds = actual == expected;
        let ghost rels = self.relations@;

        let mut i_seen: HashSet<usize> = HashSet::new();
        let mut duplicate_i: usize = 0;
        let mut class_transition_count: usize = 0;
        let mut case_transition_count: usize = 0;
        let mut class_keys: Vec<usize> = Vec::new();
        let mut case_keys: Vec<usize> = Vec::new();
        let mut r: usize = 0;
        while r < self.relations.len()
            invariant
                rels == self.relations@,
                r <= rels.len(),
                i_seen@ == predecessor_set(rels.take(r as int)),
                duplicate_i == duplicate_predecessors(rels.take(r as int)),
                class_transition_count == class_loci(rels.take(r as int)),
                case_transition_count == case_loci(rels.take(r as int)),
                duplicate_i <= r,
                class_transition_count <= r,
                case_transition_count <= r,
                key_view(class_keys@) == class_pair_keys(rels.take(r as int)),
                key_view(case_keys@) == case_pair_keys(rels.take(r as int)),
                keys_below(key_view(class_keys@), (CLASS_COUNT * CLASS_COUNT) as nat),
                keys_below(key_view(case_keys@), (CASE_COUNT * CASE_COUNT) as nat),
            decreases rels.len() - r,
        {
            let rel = &self.relations[r];
            let ghost prev = rels.take(r as int);
            let ghost next = rels.take(r as int + 1);
            assert(next.drop_last() =~= prev);
            assert(next.last() == rels[r as int]);
            if !i_seen.insert(rel.i) {
                duplicate_i += 1;
            }
            assert(i_seen@ =~= predecessor_set(next)) by {
                assert forall|x: usize| i_seen@.contains(x) implies predecessor_set(next).contains(x) by {
                    if x != rel.i {
                        let w = choose|w: int| 0 <= w < prev.len() && prev[w].i == x;
                        assert(next[w] == prev[w]);
                    } else {
                        assert(next[r as int] == rel);
                    }
                }
                assert forall|x: usize| predecessor_set(next).contains(x) implies i_seen@.contains(x) by {
                    let w = choose|w: int| 0 <= w < next.len() && next[w].i == x;
                    if w < prev.len() {
                        assert(prev[w] == next[w]);
                        assert(predecessor_set(prev).contains(x));
                    }
                }
            }
            if rel.class_transition {
                class_transition_count += 1;
            }
            if rel.case_transition {
                case_transition_count += 1;
            }
            let ck = rel.class_from.index() * 21 + rel.class_to.index();
            let ek = rel.case_from.index() * 3 + rel.case_to.index();
            let ghost prev_ck = class_keys@;
            let ghost prev_ek = case_keys@;
            class_keys.push(ck);
            case_keys.push(ek);
            assert(class_keys@.drop_last() =~= prev_ck);
            assert(case_keys@.drop_last() =~= prev_ek);
            assert(class_pair_keys(next) =~= class_pair_keys(prev).push(ck as nat));
            assert(case_pair_keys(next) =~= case_pair_keys(prev).push(ek as nat));
            assert(key_view(class_keys@) =~= key_view(prev_ck).push(ck as nat));
            assert(key_view(case_keys@) =~= key_view(prev_ek).push(ek as nat));
            assert forall|j: int| 0 <= j < key_view(class_keys@).len() implies #[trigger] key_view(class_keys@)[j] < (CLASS_COUNT * CLASS_COUNT) as nat by {
                if j < key_view(prev_ck).len() {
                    assert(key_view(class_keys@)[j] == key_view(prev_ck)[j]);
                }
            }
            assert forall|j: int| 0 <= j < key_view(case_keys@).len() implies #[trigger] key_view(case_keys@)[j] < (CASE_COUNT * CASE_COUNT) as nat by {
                if j < key_view(prev_ek).len() {
                    assert(key_view(case_keys@)[j] == key_view(prev_ek)[j]);
                }
            }
            r += 1;
        }
        assert(rels.take(rels.len() as int) =~= rels);
        let class_transition_table = tally(&class_keys, CLASS_COUNT * CLASS_COUNT);
        let case_transition_table = tally(&case_keys, CASE_COUNT * CASE_COUNT);

        AccountingReport {
            expected_relations: expected,
            actual_relations: actual,
            invariant_holds,
            duplicate_predecessor_positions: duplicate_i,
            class_transition_loci: class_transition_count,
            case_transition_loci: case_transition_count,
            class_transition_table,
            case_transition_table,
        }
    }
}


// ── Laws of the substrate ────────────────────────────────────────────────

/// Whether two nonempty position sequences join within one file.
pub open spec fn joins(a: Seq<StreamPosition>, b: Seq<StreamPosition>) -> bool {
    a.len() > 0 && b.len() > 0 && a.last().source_file_index == b[0].source_file_index
}

/// Every relation of a substrate joins two adjacent positions `k`, `k + 1` of
/// one file and records what is observed at both ends; its class transition
/// holds exactly when the classes at the two ends differ, and its case
/// transition exactly when the case states differ.
pub proof fn law_relation_observations(ps: Seq<StreamPosition>)
    ensures
        forall|r: int|
            0 <= r < relations_of(ps).len() ==> {
                let rel = #[trigger] relations_of(ps)[r];
                &&& rel.class_transition == (rel.class_from != rel.class_to)
                &&& rel.case_transition == (rel.case_from != rel.case_to)
                &&& exists|k: int|
                    0 <= k && k + 1 < ps.len() && #[trigger] ps[k].source_file_index
                        == ps[k + 1].source_file_index && rel.i == ps[k].position && rel.j
                        == ps[k + 1].position && rel.class_from == ps[k].char_class
                        && rel.class_to == ps[k + 1].char_class && rel.case_from
                        == ps[k].case_state && rel.case_to == ps[k + 1].case_state
                        && rel.source_file_index == ps[k].source_file_index
            },
    decreases ps.len(),
{
    if ps.len() >= 2 {
        let prev = ps.drop_last();
        law_relation_observations(prev);
        let rels = relations_of(ps);
        let rp = relations_of(prev);
        assert forall|r: int| 0 <= r < rels.len() implies {
            let rel = #[trigger] rels[r];
            &&& rel.class_transition == (rel.class_from != rel.class_to)
            &&& rel.case_transition == (rel.case_from != rel.case_to)
            &&& exists|k: int|
                0 <= k && k + 1 < ps.len() && #[trigger] ps[k].source_file_index
                    == ps[k + 1].source_file_index && rel.i == ps[k].position && rel.j
                    == ps[k + 1].position && rel.class_from == ps[k].char_class
                    && rel.class_to == ps[k + 1].char_class && rel.case_from
                    == ps[k].case_state && rel.case_to == ps[k + 1].case_state
                    && rel.source_file_index == ps[k].source_file_index
        } by {
            if r < rp.len() {
                assert(rels[r] == rp[r]);
                let rel = rp[r];
                let k = choose|k: int|
                    0 <= k && k + 1 < prev.len() && #[trigger] prev[k].source_file_index
                        == prev[k + 1].source_file_index && rel.i == prev[k].position && rel.j
                        == prev[k + 1].position && rel.class_from == prev[k].char_class
                        && rel.class_to == prev[k + 1].char_class && rel.case_from
                        == prev[k].case_state && rel.case_to == prev[k + 1].case_state
                        && rel.source_file_index == prev[k].source_file_index;
                assert(prev[k] == ps[k] && prev[k + 1] == ps[k + 1]);
            } else {
                let k = ps.len() - 2;
                assert(ps[k].source_file_index == ps[k + 1].source_file_index);
            }
        }
    }
}

/// Transition loci are counted one per relation with a transition: no
/// relations have none, and one more relation adds one locus exactly when it
/// has a transition (of class, respectively of case).
pub proof fn law_loci_step(rels: Seq<AdjacentRelation>, x: AdjacentRelation)
    ensures
        class_loci(Seq::<AdjacentRelation>::empty()) == 0,
        case_loci(Seq::<AdjacentRelation>::empty()) == 0,
        class_loci(rels.push(x)) == class_loci(rels) + if x.class_transition {
            1nat
        } else {
            0nat
        },
        case_loci(rels.push(x)) == case_loci(rels) + if x.case_transition {
            1nat
        } else {
            0nat
        },
        class_loci(rels) <= rels.len(),
        case_loci(rels) <= rels.len(),
    decreases rels.len(),
{
    assert(rels.push(x).drop_last() =~= rels);
    if rels.len() > 0 {
        law_loci_step(rels.drop_last(), rels.last());
        assert(rels.drop_last().push(rels.last()) =~= rels);
    }
}

/// In a substrate whose adjacent positions of one file all share their class
/// there is no class transition locus, and likewise for case states.
pub proof fn law_no_transition_no_loci(ps: Seq<StreamPosition>)
    ensures
        (forall|k: int|
            0 <= k && k + 1 < ps.len() && #[trigger] ps[k].source_file_index
                == ps[k + 1].source_file_index ==> ps[k].char_class == ps[k + 1].char_class)
            ==> class_loci(relations_of(ps)) == 0,
        (forall|k: int|
            0 <= k && k + 1 < ps.len() && #[trigger] ps[k].source_file_index
                == ps[k + 1].source_file_index ==> ps[k].case_state == ps[k + 1].case_state)
            ==> case_loci(relations_of(ps)) == 0,
    decreases ps.len(),
{
    if ps.len() >= 2 {
        let prev = ps.drop_last();
        law_no_transition_no_loci(prev);
        let k = ps.len() - 2;
        if forall|k: int|
            0 <= k && k + 1 < ps.len() && #[trigger] ps[k].source_file_index
                == ps[k + 1].source_file_index ==> ps[k].char_class == ps[k + 1].char_class {
            assert forall|j: int|
                0 <= j && j + 1 < prev.len() && #[trigger] prev[j].source_file_index
                    == prev[j + 1].source_file_index implies prev[j].char_class == prev[j + 1].char_class by {
                assert(prev[j] == ps[j] && prev[j + 1] == ps[j + 1]);
            }
            law_loci_step(relations_of(prev), relation_of(ps[k], ps[k + 1]));
        }
        if forall|k: int|
            0 <= k && k + 1 < ps.len() && #[trigger] ps[k].source_file_index
                == ps[k + 1].source_file_index ==> ps[k].case_state == ps[k + 1].case_state {
            assert forall|j: int|
                0 <= j && j + 1 < prev.len() && #[trigger] prev[j].source_file_index
                    == prev[j + 1].source_file_index implies prev[j].case_state == prev[j + 1].case_state by {
                assert(prev[j] == ps[j] && prev[j + 1] == ps[j + 1]);
            }
            law_loci_step(relations_of(prev), relation_of(ps[k], ps[k + 1]));
        }
    }
}

/// The relation of the step from position `m` to position `m + 1`.
pub open spec fn step_relation(ps: Seq<StreamPosition>, m: int) -> AdjacentRelation {
    relation_of(ps[m], ps[m + 1])
}

/// Every step between adjacent positions of one file is a relation.
pub proof fn lemma_relations_contain(ps: Seq<StreamPosition>, m: int)
    requires
        0 <= m,
        m + 1 < ps.len(),
        ps[m].source_file_index == ps[m + 1].source_file_index,
    ensures
        relations_of(ps).contains(step_relation(ps, m)),
    decreases ps.len(),
{
    let rels = relations_of(ps);
    if m + 2 == ps.len() {
        assert(rels[rels.len() - 1] == step_relation(ps, m));
    } else {
        let prev = ps.drop_last();
        lemma_relations_contain(prev, m);
        assert(prev[m] == ps[m] && prev[m + 1] == ps[m + 1]);
        let rp = relations_of(prev);
        let x = choose|x: int| 0 <= x < rp.len() && rp[x] == step_relation(prev, m);
        assert(rels[x] == rp[x]);
    }
}

/// The relations of two sequences laid end to end are those of each, plus one
/// where they join within a file.
pub proof fn lemma_relations_append(a: Seq<StreamPosition>, b: Seq<StreamPosition>)
    ensures
        relations_of(a + b).len() == relations_of(a).len() + relations_of(b).len() + if joins(a, b) {
            1nat
        } else {
            0nat
        },
    decreases b.len(),
{
    if b.len() == 0 {
        assert(a + b =~= a);
    } else if b.len() == 1 {
        if a.len() == 0 {
            assert(a + b =~= b);
        } else {
            assert((a + b).drop_last() =~= a);
            assert((a + b)[(a + b).len() - 2] == a.last());
        }
    } else {
        let b0 = b.drop_last();
        lemma_relations_append(a, b0);
        assert((a + b).drop_last() =~= a + b0);
        assert((a + b)[(a + b).len() - 2] == b[b.len() - 2]);
        assert((a + b)[(a + b).len() - 1] == b[b.len() - 1]);
        assert(b0[0] == b[0]);
    }
}

proof fn lemma_block_relations(text: Seq<char>, file: nat, start: nat)
    requires
        file <= usize::MAX,
    ensures
        relations_of(file_block(text, file, start)).len() + if text.len() > 0 {
            1nat
        } else {
            0nat
        } == text.len(),
    decreases text.len(),
{
    if text.len() > 1 {
        crate::stream::lemma_block_drop_last(text, file, start);
        lemma_block_relations(text.drop_last(), file, start);
    }
}

/// Accounting of the substrate built from texts: the number of relations plus
/// the number of nonempty files equals the number of characters. Progression
/// runs within each file and never across a file boundary.
pub proof fn law_accounting(texts: Seq<Seq<char>>)
    requires
        texts.len() <= usize::MAX,
        total_chars(texts) <= usize::MAX,
    ensures
        relations_of(stream_of(texts)).len() + nonempty_files(texts) == total_chars(texts),
    decreases texts.len(),
{
    if texts.len() > 0 {
        let init = texts.drop_last();
        law_accounting(init);
        lemma_stream_len(init);
        crate::stream::lemma_stream_pointwise(init);
        let a = stream_of(init);
        let blk = file_block(texts.last(), (texts.len() - 1) as nat, total_chars(init));
        lemma_relations_append(a, blk);
        lemma_block_relations(texts.last(), (texts.len() - 1) as nat, total_chars(init));
        if joins(a, blk) {
            assert(a.last() == a[a.len() - 1]);
            assert(false);
        }
    }
}

/// The accounting invariant |R_P| = |X| - F: when every file has at least one
/// character, the substrate of the stream has exactly one relation fewer per
/// file than the stream has positions, and no position is a predecessor twice.
pub proof fn law_accounting_invariant(texts: Seq<Seq<char>>)
    requires
        texts.len() <= usize::MAX,
        total_chars(texts) <= usize::MAX,
        forall|f: int| 0 <= f < texts.len() ==> (#[trigger] texts[f]).len() > 0,
    ensures
        texts.len() <= total_chars(texts),
        relations_of(stream_of(texts)).len() == total_chars(texts) - texts.len(),
        stream_of(texts).len() == total_chars(texts),
        duplicate_predecessors(relations_of(stream_of(texts))) == 0,
{
    law_accounting(texts);
    lemma_all_nonempty(texts);
    lemma_stream_len(texts);
    crate::stream::law_stream_wf(texts);
    law_progression(stream_of(texts));
}

proof fn lemma_all_nonempty(texts: Seq<Seq<char>>)
    requires
        forall|f: int| 0 <= f < texts.len() ==> (#[trigger] texts[f]).len() > 0,
    ensures
        nonempty_files(texts) == texts.len(),
        texts.len() <= total_chars(texts),
    decreases texts.len(),
{
    if texts.len() > 0 {
        let init = texts.drop_last();
        assert forall|f: int| 0 <= f < init.len() implies (#[trigger] init[f]).len() > 0 by {
            assert(init[f] == texts[f]);
        }
        lemma_all_nonempty(init);
        assert(texts.last() == texts[texts.len() - 1]);
    }
}

/// Positions numbered by their index.
pub open spec fn indexed(ps: Seq<StreamPosition>) -> bool {
    forall|k: int| 0 <= k < ps.len() ==> (#[trigger] ps[k]).position == k
}

/// Every relation of a sequence of indexed positions links a position to the
/// next one of the same file and records what is observed at both.
#[verifier::opaque]
pub open spec fn relations_shape(ps: Seq<StreamPosition>) -> bool {
    forall|r: int|
        0 <= r < relations_of(ps).len() ==> {
            let rel = #[trigger] relations_of(ps)[r];
            &&& rel.i + 1 < ps.len()
            &&& rel.j == rel.i + 1
            &&& ps[rel.i as int].source_file_index == ps[rel.j as int].source_file_index
            &&& rel == relation_of(ps[rel.i as int], ps[rel.j as int])
        }
}

/// The predecessors of the relations strictly increase.
#[verifier::opaque]
pub open spec fn predecessors_increase(rels: Seq<AdjacentRelation>) -> bool {
    forall|r1: int, r2: int| 0 <= r1 < r2 < rels.len() ==> (#[trigger] rels[r1]).i < (#[trigger] rels[r2]).i
}

/// Every adjacent pair of one file has its relation.
#[verifier::opaque]
pub open spec fn relations_complete(ps: Seq<StreamPosition>) -> bool {
    forall|k: int, l: int|
        0 <= k && l == k + 1 && l < ps.len() && (#[trigger] ps[k]).source_file_index
            == (#[trigger] ps[l]).source_file_index ==> exists|r: int|
            0 <= r < relations_of(ps).len() && (#[trigger] relations_of(ps)[r]).i == k
}

proof fn lemma_indexed_prefix(ps: Seq<StreamPosition>)
    requires
        indexed(ps),
        ps.len() > 0,
    ensures
        indexed(ps.drop_last()),
{
    let p0 = ps.drop_last();
    assert forall|k: int| 0 <= k < p0.len() implies (#[trigger] p0[k]).position == k by {
        assert(p0[k] == ps[k]);
    }
}

proof fn lemma_relations_shape(ps: Seq<StreamPosition>)
    requires
        indexed(ps),
    ensures
        relations_shape(ps),
    decreases ps.len(),
{
    reveal(relations_shape);
    if ps.len() >= 2 {
        let p0 = ps.drop_last();
        lemma_indexed_prefix(ps);
        lemma_relations_shape(p0);
        let prev = relations_of(p0);
        let rels = relations_of(ps);
        let n = ps.len();
        assert(ps[n - 2] == p0[n - 2]);
        assert forall|r: int| 0 <= r < rels.len() implies {
            let rel = #[trigger] rels[r];
            &&& rel.i + 1 < ps.len()
            &&& rel.j == rel.i + 1
            &&& ps[rel.i as int].source_file_index == ps[rel.j as int].source_file_index
            &&& rel == relation_of(ps[rel.i as int], ps[rel.j as int])
        } by {
            if r < prev.len() {
                assert(rels[r] == prev[r]);
                assert(ps[prev[r].i as int] == p0[prev[r].i as int]);
                assert(ps[prev[r].j as int] == p0[prev[r].j as int]);
            }
        }
    }
}

proof fn lemma_predecessors_increase(ps: Seq<StreamPosition>)
    requires
        indexed(ps),
    ensures
        predecessors_increase(relations_of(ps)),
    decreases ps.len(),
{
    reveal(relations_shape);
    reveal(predecessors_increase);
    if ps.len() >= 2 {
        let p0 = ps.drop_last();
        lemma_indexed_prefix(ps);
        lemma_predecessors_increase(p0);
        lemma_relations_shape(p0);
        let prev = relations_of(p0);
        let rels = relations_of(ps);
        let n = ps.len();
        assert(ps[n - 2] == p0[n - 2]);
        assert forall|r1: int, r2: int|
            0 <= r1 < r2 < rels.len() implies (#[trigger] rels[r1]).i < (#[trigger] rels[r2]).i by {
            assert(rels[r1] == prev[r1]);
            if r2 < prev.len() {
                assert(rels[r2] == prev[r2]);
            }
        }
    }
}

proof fn lemma_relations_complete(ps: Seq<StreamPosition>)
    requires
        indexed(ps),
    ensures
        relations_complete(ps),
    decreases ps.len(),
{
    reveal(relations_complete);
    if ps.len() >= 2 {
        let p0 = ps.drop_last();
        lemma_indexed_prefix(ps);
        lemma_relations_complete(p0);
        let prev = relations_of(p0);
        let rels = relations_of(ps);
        let n = ps.len();
        assert(ps[n - 2] == p0[n - 2]);
        assert forall|k: int, l: int|
            0 <= k && l == k + 1 && l < ps.len() && (#[trigger] ps[k]).source_file_index
                == (#[trigger] ps[l]).source_file_index implies exists|r: int|
                0 <= r < rels.len() && (#[trigger] rels[r]).i == k by {
            if k + 1 < n - 1 {
                assert(p0[k] == ps[k] && p0[l] == ps[l]);
                let w = choose|w: int| 0 <= w < prev.len() && (#[trigger] prev[w]).i == k;
                assert(rels[w] == prev[w]);
            } else {
                assert(rels[rels.len() - 1].i == k);
            }
        }
    }
}

proof fn lemma_no_duplicates(rels: Seq<AdjacentRelation>)
    requires
        predecessors_increase(rels),
    ensures
        duplicate_predecessors(rels) == 0,
    decreases rels.len(),
{
    reveal(predecessors_increase);
    if rels.len() > 0 {
        let prev = rels.drop_last();
        assert(predecessors_increase(prev)) by {
            assert forall|r1: int, r2: int| 0 <= r1 < r2 < prev.len() implies (#[trigger] prev[r1]).i < (#[trigger] prev[r2]).i by {
                assert(prev[r1] == rels[r1] && prev[r2] == rels[r2]);
            }
        }
        lemma_no_duplicates(prev);
        if predecessor_set(prev).contains(rels.last().i) {
            let w = choose|w: int| 0 <= w < prev.len() && prev[w].i == rels.last().i;
            assert(prev[w] == rels[w]);
            assert(rels[w].i < rels[rels.len() - 1].i);
        }
    }
}

/// Progression is strictly sequential and file-local: over positions numbered by
/// their index, every relation links some position `i` to `i + 1` of the same
/// file and records what is observed at both; the predecessors strictly
/// increase, so no position is a predecessor twice; and every adjacent pair of
/// one file has its relation.
pub proof fn law_progression(ps: Seq<StreamPosition>)
    requires
        indexed(ps),
    ensures
        relations_shape(ps),
        predecessors_increase(relations_of(ps)),
        relations_complete(ps),
        duplicate_predecessors(relations_of(ps)) == 0,
{
    lemma_relations_shape(ps);
    lemma_predecessors_increase(ps);
    lemma_relations_complete(ps);
    lemma_no_duplicates(relations_of(ps));
}

/// Law: the class transition table accounts for every relation exactly once,
/// and so does the case transition table.
pub proof fn law_tables_cover_relations(rels: Seq<AdjacentRelation>)
    ensures
        occurrences_below(class_pair_keys(rels), (CLASS_COUNT * CLASS_COUNT) as nat) == rels.len(),
        occurrences_below(case_pair_keys(rels), (CASE_COUNT * CASE_COUNT) as nat) == rels.len(),
{
    assert(keys_below(class_pair_keys(rels), (CLASS_COUNT * CLASS_COUNT) as nat));
    assert(keys_below(case_pair_keys(rels), (CASE_COUNT * CASE_COUNT) as nat));
    law_tally_total(class_pair_keys(rels), (CLASS_COUNT * CLASS_COUNT) as nat);
    law_tally_total(case_pair_keys(rels), (CASE_COUNT * CASE_COUNT) as nat);
}

} // verus!
