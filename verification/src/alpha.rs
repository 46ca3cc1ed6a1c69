//! Alpha-run recurrence: for each K from 1 upward, the canonical (bilaterally
//! maximal) recurrences of K-character sequences in the case-folded Alpha runs.

use vstd::prelude::*;
use crate::kgrams::{
    occ_count, occs, all_occs, kgram, pred_of, kgram_labels, labels_ok, lemma_occs_index,
    lemma_occs_shape, lemma_occs_len, canonical_count, kgram_canonical, count_cross, count_label,
    cross_total, cross_total_of, cross_label, lemma_labels_refine, lemma_cross_total_canonical,
    lemma_cross_total_of_canonical, lemma_cross_total_of_occurs, lemma_cross_total_of_witness,
    lemma_cross_total_witness, lemma_cross_total_of_includes, law_counts_do_not_increase,
};
use crate::runs::{
    alpha_run_chars, alpha_runs, law_run_char_count, lemma_alpha_runs_size, lemma_runs_bytes_bounds,
    lemma_runs_bytes_take, runs_bytes, utf8_size,
    run_chars, runs_view, string_of,
};
use crate::stream::CompleteStream;
use crate::kgrams::LabelCounts;
use crate::labels::{pair_labels, labels_pairs};
use crate::runs::runs_len;

verus! {

/// The characters of runs held as vectors.
pub open spec fn runs_of(runs: Seq<Vec<char>>) -> Seq<Seq<char>> {
    runs.map_values(|v: Vec<char>| v@)
}

/// Code of the predecessor of an occurrence: 0 at the start of its run,
/// otherwise one more than the character's scalar value.
pub open spec fn pred_code(runs: Seq<Seq<char>>, o: (int, int)) -> u32 {
    if o.1 == 0 {
        0
    } else {
        (runs[o.0][o.1 - 1] as u32 + 1) as u32
    }
}

proof fn lemma_pred_code(runs: Seq<Seq<char>>, o1: (int, int), o2: (int, int))
    ensures
        pred_code(runs, o1) == pred_code(runs, o2) <==> pred_of(runs, o1) == pred_of(runs, o2),
{
    if o1.1 != 0 {
        vstd::utf8::char_is_scalar(runs[o1.0][o1.1 - 1]);
        vstd::utf8::char_u32_cast(runs[o1.0][o1.1 - 1], runs[o1.0][o1.1 - 1] as u32);
    }
    if o2.1 != 0 {
        vstd::utf8::char_is_scalar(runs[o2.0][o2.1 - 1]);
        vstd::utf8::char_u32_cast(runs[o2.0][o2.1 - 1], runs[o2.0][o2.1 - 1] as u32);
    }
}

/// A k-gram extends the (k-1)-gram at the same start by one character.
proof fn lemma_kgram_step(runs: Seq<Seq<char>>, k: int, o: (int, int))
    requires
        1 <= k,
        0 <= o.0 < runs.len(),
        0 <= o.1,
        o.1 + k <= runs[o.0].len(),
    ensures
        kgram(runs, k, o) == kgram(runs, k - 1, o).push(runs[o.0][o.1 + k - 1]),
{
    assert(kgram(runs, k, o) =~= kgram(runs, k - 1, o).push(runs[o.0][o.1 + k - 1]));
}

proof fn lemma_push_eq(s1: Seq<char>, x: char, s2: Seq<char>, y: char)
    ensures
        s1.push(x) == s2.push(y) <==> (s1 == s2 && x == y),
{
    if s1.push(x) == s2.push(y) {
        assert(s1.push(x).drop_last() =~= s1);
        assert(s2.push(y).drop_last() =~= s2);
        assert(s1.push(x).last() == x);
    }
}

/// For k >= 1, there are no more occurrences than characters.
proof fn lemma_occs_bound(runs: Seq<Seq<char>>, k: int, m: int)
    requires
        1 <= k,
        0 <= m <= runs.len(),
    ensures
        occs(runs, k, m).len() <= runs_len(runs.take(m)),
    decreases m,
{
    if m > 0 {
        lemma_occs_bound(runs, k, m - 1);
        assert(runs.take(m).drop_last() =~= runs.take(m - 1));
        assert(runs.take(m).last() == runs[m - 1]);
    }
}

/// Labels of (previous label, last character) pairs are labels of k-grams.
proof fn lemma_labels_from_pairs(
    rv: Seq<Seq<char>>,
    k: int,
    prev: Seq<usize>,
    a: Seq<usize>,
    b: Seq<u32>,
    out: Seq<usize>,
)
    requires
        1 <= k,
        k > 1 ==> kgram_labels(rv, k - 1, prev),
        a.len() == all_occs(rv, k).len(),
        b.len() == a.len(),
        out.len() == a.len(),
        forall|i: int| 0 <= i < all_occs(rv, k).len() ==> #[trigger] ab_ok(rv, k, prev, a, b, i),
        labels_pairs(a, b, out, a.len() as int),
    ensures
        kgram_labels(rv, k, out),
{
    let os = all_occs(rv, k);
    lemma_occs_shape(rv, k, rv.len() as int);
    assert forall|i: int, j: int|
        0 <= i < os.len() && 0 <= j < os.len() implies (#[trigger] out[i] == #[trigger] out[j]
        <==> kgram(rv, k, os[i]) == kgram(rv, k, os[j])) by {
        let oi = os[i];
        let oj = os[j];
        assert(out[i] == out[j] <==> (a[i] == a[j] && b[i] == b[j]));
        assert(ab_ok(rv, k, prev, a, b, i));
        assert(ab_ok(rv, k, prev, a, b, j));
        vstd::utf8::char_u32_cast(rv[oi.0][oi.1 + k - 1], b[i]);
        vstd::utf8::char_u32_cast(rv[oj.0][oj.1 + k - 1], b[j]);
        lemma_kgram_step(rv, k, oi);
        lemma_kgram_step(rv, k, oj);
        lemma_push_eq(kgram(rv, k - 1, oi), rv[oi.0][oi.1 + k - 1], kgram(rv, k - 1, oj), rv[oj.0][oj.1 + k - 1]);
        if k > 1 {
            let pi = occs(rv, k - 1, oi.0).len() + oi.1;
            let pj = occs(rv, k - 1, oj.0).len() + oj.1;
            lemma_occs_index(rv, k - 1, rv.len() as int, oi.0, oi.1);
            lemma_occs_index(rv, k - 1, rv.len() as int, oj.0, oj.1);
            assert(all_occs(rv, k - 1)[pi] == oi);
            assert(all_occs(rv, k - 1)[pj] == oj);
            assert(prev[pi] == prev[pj] <==> kgram(rv, k - 1, oi) == kgram(rv, k - 1, oj));
        } else {
            assert(kgram(rv, 0, oi) =~= kgram(rv, 0, oj));
        }
    }
}

/// Entry `i` pairs the (k-1)-gram label and the last character of occurrence `i`.
spec fn ab_ok(rv: Seq<Seq<char>>, k: int, prev: Seq<usize>, a: Seq<usize>, b: Seq<u32>, i: int) -> bool {
    a[i] == a_val(rv, k, prev, all_occs(rv, k)[i]) && b[i] == b_val(rv, k, all_occs(rv, k)[i])
}

/// The (k-1)-gram label of a k-gram occurrence (0 for k = 1).
spec fn a_val(rv: Seq<Seq<char>>, k: int, prev: Seq<usize>, o: (int, int)) -> usize {
    if k > 1 {
        prev[occs(rv, k - 1, o.0).len() + o.1]
    } else {
        0usize
    }
}

/// The last character of a k-gram occurrence, as a code.
spec fn b_val(rv: Seq<Seq<char>>, k: int, o: (int, int)) -> u32 {
    rv[o.0][o.1 + k - 1] as u32
}

/// Number of k-gram occurrences in a run of length `len`.
fn occ_count_of(len: usize, k: usize) -> (c: usize)
    requires
        k >= 1,
    ensures
        c == if len >= k { len - k + 1 } else { 0 },
{
    if len >= k {
        len - k + 1
    } else {
        0
    }
}

/// Labels of the k-grams of all occurrences, from the labels of the
/// (k-1)-grams (unused for k = 1): equal labels exactly for equal k-grams.
fn next_kgram_labels(runs: &Vec<Vec<char>>, k: usize, prev: &Vec<usize>) -> (res: (Vec<usize>, usize))
    requires
        1 <= k,
        runs_len(runs_of(runs@)) <= usize::MAX,
        k > 1 ==> kgram_labels(runs_of(runs@), k - 1, prev@),
    ensures
        kgram_labels(runs_of(runs@), k as int, res.0@),
        forall|i: int| 0 <= i < res.0@.len() ==> #[trigger] res.0@[i] < res.1,
        res.1 <= res.0@.len(),
{
    let ghost rv = runs_of(runs@);
    let mut a: Vec<usize> = Vec::new();
    let mut b: Vec<u32> = Vec::new();
    let mut off_prev: usize = 0;
    let prev_len = prev.len();
    let mut r: usize = 0;
    proof {
        lemma_occs_bound(rv, k as int, rv.len() as int);
        assert(rv.take(rv.len() as int) =~= rv);
        if k > 1 {
            lemma_occs_shape(rv, k - 1, rv.len() as int);
        }
        lemma_occs_shape(rv, k as int, rv.len() as int);
    }
    while r < runs.len()
        invariant
            rv == runs_of(runs@),
            rv.len() == runs@.len(),
            prev_len == prev@.len(),
            1 <= k,
            k > 1 ==> kgram_labels(rv, k - 1, prev@),
            k > 1 ==> forall|q: int| 0 <= q <= rv.len() ==> #[trigger] occs(rv, k - 1, q).len() <= occs(rv, k - 1, rv.len() as int).len(),
            forall|q: int| 0 <= q <= rv.len() ==> #[trigger] occs(rv, k as int, q).len() <= occs(rv, k as int, rv.len() as int).len(),
            occs(rv, k as int, rv.len() as int).len() <= usize::MAX,
            r <= runs@.len(),
            a@.len() == b@.len(),
            a@.len() == occs(rv, k as int, r as int).len(),
            k > 1 ==> off_prev == occs(rv, k - 1, r as int).len(),
            forall|i: int|
                0 <= i < a@.len() ==> #[trigger] a@[i] == a_val(rv, k as int, prev@, occs(rv, k as int, r as int)[i])
                    && b@[i] == b_val(rv, k as int, occs(rv, k as int, r as int)[i]),
        decreases runs@.len() - r,
    {
        let run = &runs[r];
        let ghost base = a@.len();
        let rl = run.len();
        let cnt = occ_count_of(rl, k);
        assert(rv[r as int] == run@);
        assert(cnt == occ_count(rv[r as int], k as int));
        proof {
            let blk = Seq::new(occ_count(rv[r as int], k as int) as nat, |q: int| (r as int, q));
            assert(occs(rv, k as int, r as int + 1) == occs(rv, k as int, r as int) + blk);
            assert forall|i: int| 0 <= i < a@.len() implies #[trigger] a@[i] == a_val(rv, k as int, prev@, occs(rv, k as int, r as int + 1)[i])
                && b@[i] == b_val(rv, k as int, occs(rv, k as int, r as int + 1)[i]) by {
                assert((occs(rv, k as int, r as int) + blk)[i] == occs(rv, k as int, r as int)[i]);
                assert(occs(rv, k as int, r as int + 1)[i] == occs(rv, k as int, r as int)[i]);
                assert(a@[i] == a_val(rv, k as int, prev@, occs(rv, k as int, r as int)[i]));
            }
        }
        let mut p: usize = 0;
        while p < cnt
            invariant
                rv == runs_of(runs@),
                rv.len() == runs@.len(),
                prev_len == prev@.len(),
                1 <= k,
                r < runs@.len(),
                run@ == rv[r as int],
                rl == run@.len(),
                cnt == occ_count(rv[r as int], k as int),
                k > 1 ==> kgram_labels(rv, k - 1, prev@),
                k > 1 ==> off_prev == occs(rv, k - 1, r as int).len(),
                k > 1 ==> forall|q: int| 0 <= q <= rv.len() ==> #[trigger] occs(rv, k - 1, q).len() <= occs(rv, k - 1, rv.len() as int).len(),
                occs(rv, k as int, r as int + 1).len() == base + cnt,
                occs(rv, k as int, r as int + 1).len() <= usize::MAX,
                base == occs(rv, k as int, r as int).len(),
                p <= cnt,
                a@.len() == b@.len(),
                a@.len() == base + p,
                forall|i: int|
                    0 <= i < a@.len() ==> #[trigger] a@[i] == a_val(rv, k as int, prev@, occs(rv, k as int, r as int + 1)[i])
                        && b@[i] == b_val(rv, k as int, occs(rv, k as int, r as int + 1)[i]),
            decreases cnt - p,
        {
            proof {
                lemma_occs_index(rv, k as int, r as int + 1, r as int, p as int);
                if k > 1 {
                    assert(p < occ_count(rv[r as int], k - 1));
                    lemma_occs_index(rv, k - 1, rv.len() as int, r as int, p as int);
                    assert(off_prev + p < prev_len);
                }
                assert(p + k <= run@.len());
                vstd::utf8::char_is_scalar(run@[p + k - 1]);
            }
            let ghost old_a = a@;
            let ghost old_b = b@;
            if k > 1 {
                a.push(prev[off_prev + p]);
            } else {
                a.push(0);
            }
            b.push(run[p + k - 1] as u32);
            proof {
                let ni = base + p;
                assert(occs(rv, k as int, r as int + 1)[ni] == (r as int, p as int));
                assert forall|i: int| 0 <= i < a@.len() implies #[trigger] a@[i] == a_val(rv, k as int, prev@, occs(rv, k as int, r as int + 1)[i])
                    && b@[i] == b_val(rv, k as int, occs(rv, k as int, r as int + 1)[i]) by {
                    if i < ni {
                        assert(a@[i] == old_a[i]);
                        assert(b@[i] == old_b[i]);
                    }
                }
            }
            p += 1;
        }
        if k > 1 {
            let pc = occ_count_of(run.len(), k - 1);
            proof {
                lemma_occs_len(rv, k - 1, r as int);
                assert(occs(rv, k - 1, r as int + 1).len() <= occs(rv, k - 1, rv.len() as int).len());
            }
            proof {
                assert(occs(rv, k - 1, r as int + 1).len() == occs(rv, k - 1, r as int).len() + occ_count(rv[r as int], k - 1));
            }
            off_prev = off_prev + pc;
        }
        r += 1;
    }
    let ghost os = all_occs(rv, k as int);
    assert(a@.len() == os.len());
    assert(r as int == rv.len());
    assert forall|i: int| 0 <= i < os.len() implies #[trigger] ab_ok(rv, k as int, prev@, a@, b@, i) by {
        assert(a@[i] == a_val(rv, k as int, prev@, occs(rv, k as int, r as int)[i]));
    }
    let (out, n) = pair_labels(&a, &b);
    proof {
        lemma_labels_from_pairs(rv, k as int, prev@, a@, b@, out@);
    }
    (out, n)
}

/// The predecessor code of every k-gram occurrence.
fn pred_codes(runs: &Vec<Vec<char>>, k: usize) -> (pc: Vec<u32>)
    requires
        1 <= k,
        runs_len(runs_of(runs@)) <= usize::MAX,
    ensures
        pc@.len() == all_occs(runs_of(runs@), k as int).len(),
        forall|i: int|
            0 <= i < pc@.len() ==> #[trigger] pc@[i] == pred_code(
                runs_of(runs@),
                all_occs(runs_of(runs@), k as int)[i],
            ),
{
    let ghost rv = runs_of(runs@);
    let mut pc: Vec<u32> = Vec::new();
    let mut r: usize = 0;
    proof {
        lemma_occs_bound(rv, k as int, rv.len() as int);
        assert(rv.take(rv.len() as int) =~= rv);
        lemma_occs_shape(rv, k as int, rv.len() as int);
    }
    while r < runs.len()
        invariant
            rv == runs_of(runs@),
            1 <= k,
            forall|q: int| 0 <= q <= rv.len() ==> #[trigger] occs(rv, k as int, q).len() <= occs(rv, k as int, rv.len() as int).len(),
            occs(rv, k as int, rv.len() as int).len() <= usize::MAX,
            r <= runs@.len(),
            pc@.len() == occs(rv, k as int, r as int).len(),
            forall|i: int|
                0 <= i < pc@.len() ==> #[trigger] pc@[i] == pred_code(rv, occs(rv, k as int, r as int)[i]),
        decreases runs@.len() - r,
    {
        let run = &runs[r];
        let ghost base = pc@.len();
        let cnt = occ_count_of(run.len(), k);
        assert(rv[r as int] == run@);
        let mut p: usize = 0;
        while p < cnt
            invariant
                rv == runs_of(runs@),
                1 <= k,
                r < runs@.len(),
                run@ == rv[r as int],
                cnt == occ_count(rv[r as int], k as int),
                occs(rv, k as int, r as int + 1).len() == base + cnt,
                base == occs(rv, k as int, r as int).len(),
                p <= cnt,
                pc@.len() == base + p,
                forall|i: int|
                    0 <= i < pc@.len() ==> #[trigger] pc@[i] == pred_code(rv, occs(rv, k as int, r as int + 1)[i]),
            decreases cnt - p,
        {
            proof {
                lemma_occs_index(rv, k as int, r as int + 1, r as int, p as int);
            }
            if p == 0 {
                pc.push(0);
            } else {
                let c: char = run[p - 1];
                proof {
                    vstd::utf8::char_is_scalar(c);
                }
                let code: u32 = c as u32;
                pc.push(code + 1);
            }
            p += 1;
        }
        r += 1;
    }
    pc
}

/// Labels of the k-grams of all occurrences (equal exactly for equal k-grams)
/// and of the k-grams together with their predecessors.
fn occurrence_labels(runs: &Vec<Vec<char>>, k: usize, prev: &Vec<usize>) -> (res: (Vec<usize>, usize, Vec<usize>, usize))
    requires
        1 <= k,
        runs_len(runs_of(runs@)) <= usize::MAX,
        k > 1 ==> kgram_labels(runs_of(runs@), k - 1, prev@),
    ensures
        labels_ok(runs_of(runs@), k as int, res.0@, res.2@),
        kgram_labels(runs_of(runs@), k as int, res.0@),
        forall|i: int| 0 <= i < res.0@.len() ==> #[trigger] res.0@[i] < res.1,
        forall|i: int| 0 <= i < res.2@.len() ==> #[trigger] res.2@[i] < res.3,
{
    let ghost rv = runs_of(runs@);
    let (kl, nk) = next_kgram_labels(runs, k, prev);
    let pc = pred_codes(runs, k);
    let (gl, ng) = pair_labels(&kl, &pc);
    proof {
        let os = all_occs(rv, k as int);
        assert forall|i: int, j: int|
            0 <= i < os.len() && 0 <= j < os.len() implies (#[trigger] gl@[i] == #[trigger] gl@[j]
            <==> (kgram(rv, k as int, os[i]) == kgram(rv, k as int, os[j]) && pred_of(rv, os[i]) == pred_of(rv, os[j]))) by {
            assert(gl@[i] == gl@[j] <==> (kl@[i] == kl@[j] && pc@[i] == pc@[j]));
            lemma_pred_code(rv, os[i], os[j]);
        }
    }
    (kl, nk, gl, ng)
}


/// The (run, start) of every k-gram occurrence, in order.
fn occurrence_positions(runs: &Vec<Vec<char>>, k: usize) -> (res: (Vec<usize>, Vec<usize>))
    requires
        1 <= k,
        runs_len(runs_of(runs@)) <= usize::MAX,
    ensures
        res.0@.len() == all_occs(runs_of(runs@), k as int).len(),
        res.1@.len() == res.0@.len(),
        forall|i: int|
            0 <= i < res.0@.len() ==> (#[trigger] res.0@[i] as int, res.1@[i] as int) == all_occs(
                runs_of(runs@),
                k as int,
            )[i],
{
    let ghost rv = runs_of(runs@);
    let mut rs: Vec<usize> = Vec::new();
    let mut ps: Vec<usize> = Vec::new();
    let mut r: usize = 0;
    proof {
        lemma_occs_bound(rv, k as int, rv.len() as int);
        assert(rv.take(rv.len() as int) =~= rv);
        lemma_occs_shape(rv, k as int, rv.len() as int);
    }
    while r < runs.len()
        invariant
            rv == runs_of(runs@),
            1 <= k,
            forall|q: int| 0 <= q <= rv.len() ==> #[trigger] occs(rv, k as int, q).len() <= occs(rv, k as int, rv.len() as int).len(),
            occs(rv, k as int, rv.len() as int).len() <= usize::MAX,
            r <= runs@.len(),
            rs@.len() == occs(rv, k as int, r as int).len(),
            ps@.len() == rs@.len(),
            forall|i: int|
                0 <= i < rs@.len() ==> (#[trigger] rs@[i] as int, ps@[i] as int) == occs(rv, k as int, r as int)[i],
        decreases runs@.len() - r,
    {
        let run = &runs[r];
        let ghost base = rs@.len();
        let cnt = occ_count_of(run.len(), k);
        assert(rv[r as int] == run@);
        proof {
            let blk = Seq::new(occ_count(rv[r as int], k as int) as nat, |q: int| (r as int, q));
            assert(occs(rv, k as int, r as int + 1) == occs(rv, k as int, r as int) + blk);
            assert forall|i: int| 0 <= i < rs@.len() implies (#[trigger] rs@[i] as int, ps@[i] as int)
                == occs(rv, k as int, r as int + 1)[i] by {
                assert((occs(rv, k as int, r as int) + blk)[i] == occs(rv, k as int, r as int)[i]);
            }
        }
        let mut p: usize = 0;
        while p < cnt
            invariant
                rv == runs_of(runs@),
                1 <= k,
                r < runs@.len(),
                run@ == rv[r as int],
                cnt == occ_count(rv[r as int], k as int),
                occs(rv, k as int, r as int + 1).len() == base + cnt,
                base == occs(rv, k as int, r as int).len(),
                p <= cnt,
                rs@.len() == base + p,
                ps@.len() == rs@.len(),
                forall|i: int|
                    0 <= i < rs@.len() ==> (#[trigger] rs@[i] as int, ps@[i] as int) == occs(rv, k as int, r as int + 1)[i],
            decreases cnt - p,
        {
            proof {
                lemma_occs_index(rv, k as int, r as int + 1, r as int, p as int);
            }
            rs.push(r);
            ps.push(p);
            p += 1;
        }
        r += 1;
    }
    (rs, ps)
}

/// The ten labels with the largest positive counts, largest first, each label
/// once; a label left out has a count no larger than the tenth.
pub open spec fn top_labels_ok(counts: Seq<u64>, top: Seq<(usize, u64)>) -> bool {
    &&& top.len() <= 10
    &&& forall|x: int|
        0 <= x < top.len() ==> (#[trigger] top[x]).0 < counts.len() && top[x].1 == counts[top[x].0 as int]
            && top[x].1 > 0
    &&& forall|x: int, y: int|
        0 <= x < y < top.len() ==> (#[trigger] top[x]).0 != (#[trigger] top[y]).0 && top[x].1 >= top[y].1
    &&& forall|w: int|
        0 <= w < counts.len() && #[trigger] counts[w] > 0 && (forall|x: int| 0 <= x < top.len() ==> top[x].0 != w)
            ==> top.len() == 10 && counts[w] <= top[9].1
}

/// Select the ten labels with the largest positive counts, largest first;
/// among equal counts the smaller label comes first.
fn top_labels(counts: &Vec<u64>) -> (top: Vec<(usize, u64)>)
    ensures
        top_labels_ok(counts@, top@),
{
    let mut top: Vec<(usize, u64)> = Vec::new();
    let mut v: usize = 0;
    while v < counts.len()
        invariant
            v <= counts@.len(),
            top@.len() <= 10,
            forall|x: int|
                0 <= x < top@.len() ==> (#[trigger] top@[x]).0 < v && top@[x].1 == counts@[top@[x].0 as int]
                    && top@[x].1 > 0,
            forall|x: int, y: int|
                0 <= x < y < top@.len() ==> (#[trigger] top@[x]).0 != (#[trigger] top@[y]).0 && top@[x].1 >= top@[y].1,
            forall|w: int|
                0 <= w < v && #[trigger] counts@[w] > 0 && (forall|x: int| 0 <= x < top@.len() ==> top@[x].0 != w)
                    ==> top@.len() == 10 && counts@[w] <= top@[9].1,
        decreases counts@.len() - v,
    {
        let c = counts[v];
        if c > 0 {
            let mut pos: usize = 0;
            while pos < top.len() && top[pos].1 >= c
                invariant
                    pos <= top@.len(),
                    forall|x: int| 0 <= x < pos ==> (#[trigger] top@[x]).1 >= c,
                decreases top@.len() - pos,
            {
                pos += 1;
            }
            let ghost old_top = top@;
            if top.len() < 10 {
                top.insert(pos, (v, c));
                proof {
                    assert forall|x: int| 0 <= x < top@.len() implies (#[trigger] top@[x]).0 <= v && top@[x].1 == counts@[top@[x].0 as int]
                        && top@[x].1 > 0 by {
                        if x < pos { assert(top@[x] == old_top[x]); }
                        else if x > pos { assert(top@[x] == old_top[x - 1]); }
                    }
                    assert forall|x: int, y: int|
                        0 <= x < y < top@.len() implies (#[trigger] top@[x]).0 != (#[trigger] top@[y]).0 && top@[x].1 >= top@[y].1 by {
                        if y < pos {
                            assert(top@[x] == old_top[x] && top@[y] == old_top[y]);
                        } else if y == pos {
                            assert(top@[x] == old_top[x]);
                        } else if x < pos {
                            assert(top@[x] == old_top[x] && top@[y] == old_top[y - 1]);
                        } else if x == pos {
                            assert(top@[y] == old_top[y - 1]);
                            if pos < old_top.len() { assert(old_top[pos as int].1 < c); }
                        } else {
                            assert(top@[x] == old_top[x - 1] && top@[y] == old_top[y - 1]);
                        }
                    }
                    assert forall|w: int|
                        0 <= w < v + 1 && #[trigger] counts@[w] > 0 && (forall|x: int| 0 <= x < top@.len() ==> top@[x].0 != w)
                        implies top@.len() == 10 && counts@[w] <= top@[9].1 by {
                        assert(top@[pos as int].0 == v);
                        assert forall|x: int| 0 <= x < old_top.len() implies old_top[x].0 != w by {
                            if x < pos { assert(top@[x] == old_top[x]); } else { assert(top@[x + 1] == old_top[x]); }
                        }
                    }
                }
            } else if pos < 10 {
                top.insert(pos, (v, c));
                let ghost mid = top@;
                top.pop();
                proof {
                    assert(mid.len() == 11);
                    assert forall|x: int| 0 <= x < mid.len() implies (#[trigger] mid[x]).1 == (if x < pos { old_top[x].1 } else if x == pos { c } else { old_top[x - 1].1 }) by {
                        if x < pos { assert(mid[x] == old_top[x]); }
                        else if x > pos { assert(mid[x] == old_top[x - 1]); }
                    }
                    assert forall|x: int| 0 <= x < top@.len() implies (#[trigger] top@[x]).0 <= v && top@[x].1 == counts@[top@[x].0 as int]
                        && top@[x].1 > 0 by {
                        assert(top@[x] == mid[x]);
                        if x < pos { assert(mid[x] == old_top[x]); }
                        else if x > pos { assert(mid[x] == old_top[x - 1]); }
                    }
                    assert forall|x: int, y: int|
                        0 <= x < y < top@.len() implies (#[trigger] top@[x]).0 != (#[trigger] top@[y]).0 && top@[x].1 >= top@[y].1 by {
                        assert(top@[x] == mid[x] && top@[y] == mid[y]);
                        if y < pos {
                            assert(mid[x] == old_top[x] && mid[y] == old_top[y]);
                        } else if y == pos {
                            assert(mid[x] == old_top[x]);
                        } else if x < pos {
                            assert(mid[x] == old_top[x] && mid[y] == old_top[y - 1]);
                        } else if x == pos {
                            assert(mid[y] == old_top[y - 1]);
                            assert(old_top[pos as int].1 < c);
                        } else {
                            assert(mid[x] == old_top[x - 1] && mid[y] == old_top[y - 1]);
                        }
                    }
                    // the dropped entry is the old tenth, no larger than the new tenth
                    assert(mid[10] == old_top[9]);
                    assert(top@[9].1 >= old_top[9].1) by {
                        if pos < 9 {
                            assert(top@[9] == mid[9] && mid[9] == old_top[8]);
                        } else {
                            assert(top@[9] == mid[9] && mid[9].1 == c);
                            assert(old_top[9].1 < c);
                        }
                    }
                    assert forall|w: int|
                        0 <= w < v + 1 && #[trigger] counts@[w] > 0 && (forall|x: int| 0 <= x < top@.len() ==> top@[x].0 != w)
                        implies top@.len() == 10 && counts@[w] <= top@[9].1 by {
                        assert(top@[pos as int].0 == v);
                        if w == old_top[9].0 {
                            assert(counts@[w] == old_top[9].1);
                        } else {
                            assert forall|x: int| 0 <= x < old_top.len() implies old_top[x].0 != w by {
                                if x < pos { assert(top@[x] == mid[x] && mid[x] == old_top[x]); }
                                else if x < 9 { assert(top@[x + 1] == mid[x + 1] && mid[x + 1] == old_top[x]); }
                            }
                        }
                    }
                }
            } else {
                proof {
                    assert forall|w: int|
                        0 <= w < v + 1 && #[trigger] counts@[w] > 0 && (forall|x: int| 0 <= x < top@.len() ==> top@[x].0 != w)
                        implies top@.len() == 10 && counts@[w] <= top@[9].1 by {
                        if w == v {
                            assert(top@[9].1 >= c);
                        }
                    }
                }
            }
        }
        proof {
            assert forall|x: int| 0 <= x < top@.len() implies (#[trigger] top@[x]).0 < v + 1 by {}
        }
        v += 1;
    }
    top
}


/// Statistics for one K of the Alpha-run recurrence.
#[derive(Debug, Clone)]
pub struct KStats {
    pub k: usize,
    /// Total canonical bilateral maximal recurrences at this K.
    pub canonical_count: u64,
    /// Top recurring sequences at this K (sequence, count), at most ten.
    pub top_sequences: Vec<(String, u64)>,
    /// A verified sample pair: (context of occurrence a, context of occurrence b, sequence).
    pub sample: Option<(String, String, String)>,
    /// The sample passed verification.
    pub sample_verified: bool,
}

/// The result of the Alpha-run recurrence analysis.
#[derive(Debug)]
pub struct AlphaRecurrenceResult {
    /// Number of Alpha runs processed.
    pub run_count: usize,
    /// Total bytes of the case-folded Alpha runs.
    pub alpha_char_count: usize,
    /// Results per K, from K = 1 to K_max.
    pub k_stats: Vec<KStats>,
    /// Largest K with at least one canonical recurrence.
    pub k_max: usize,
    /// Total canonical recurrences across all K.
    pub total_canonical: u64,
    /// Sample verification failures.
    pub verification_failures: usize,
}

/// The context of an occurrence: its k characters with up to two more on each side.
pub open spec fn context(rv: Seq<Seq<char>>, k: int, o: (int, int)) -> Seq<char> {
    let run = rv[o.0];
    run.subrange(
        if o.1 >= 2 { o.1 - 2 } else { 0 },
        if o.1 + k + 2 <= run.len() { o.1 + k + 2 } else { run.len() as int },
    )
}

/// The view of (sequence, count) entries.
pub open spec fn top_view(top: Seq<(String, u64)>) -> Seq<(Seq<char>, u64)> {
    top.map_values(|e: (String, u64)| (e.0@, e.1))
}

/// The top sequences of K: distinct k-grams that occur, each with its exact
/// positive canonical count, largest count first, at most ten; a k-gram with
/// canonical recurrences that is left out counts no more than the tenth.
pub open spec fn top_sequences_ok(rv: Seq<Seq<char>>, k: int, t: Seq<(Seq<char>, u64)>) -> bool {
    let os = all_occs(rv, k);
    &&& t.len() <= 10
    &&& forall|x: int|
        0 <= x < t.len() ==> (#[trigger] t[x]).1 > 0 && t[x].1 == kgram_canonical(rv, k, t[x].0)
            && exists|j: int| 0 <= j < os.len() && kgram(rv, k, os[j]) == t[x].0
    &&& forall|x: int, y: int|
        0 <= x < y < t.len() ==> (#[trigger] t[x]).0 != (#[trigger] t[y]).0 && t[x].1 >= t[y].1
    &&& forall|j: int|
        0 <= j < os.len() && kgram_canonical(rv, k, #[trigger] kgram(rv, k, os[j])) > 0 && (forall|x: int|
            0 <= x < t.len() ==> t[x].0 != kgram(rv, k, os[j])) ==> t.len() == 10 && kgram_canonical(
            rv,
            k,
            kgram(rv, k, os[j]),
        ) <= t[9].1
}

/// Occurrence `a` is the first whose k-gram has a canonical recurrence.
pub open spec fn is_first_canonical(rv: Seq<Seq<char>>, k: int, a: int) -> bool {
    let os = all_occs(rv, k);
    &&& 0 <= a < os.len()
    &&& kgram_canonical(rv, k, kgram(rv, k, os[a])) > 0
    &&& forall|a2: int| 0 <= a2 < a ==> kgram_canonical(rv, k, #[trigger] kgram(rv, k, os[a2])) == 0
}

/// Occurrence `b` is the first with the k-gram of `a` and another predecessor.
pub open spec fn is_first_partner(rv: Seq<Seq<char>>, k: int, a: int, b: int) -> bool {
    let os = all_occs(rv, k);
    &&& 0 <= b < os.len()
    &&& kgram(rv, k, os[b]) == kgram(rv, k, os[a])
    &&& pred_of(rv, os[b]) != pred_of(rv, os[a])
    &&& forall|b2: int|
        0 <= b2 < b ==> !(#[trigger] kgram(rv, k, os[b2]) == kgram(rv, k, os[a]) && pred_of(rv, os[b2])
            != pred_of(rv, os[a]))
}

/// The sample of K: none without canonical recurrences; otherwise the contexts
/// of the first occurrence `a` whose k-gram recurs canonically and of the first
/// occurrence `b` with that k-gram and another predecessor, and the k-gram.
pub open spec fn sample_ok(rv: Seq<Seq<char>>, k: int, s: Option<(String, String, String)>) -> bool {
    let os = all_occs(rv, k);
    match s {
        None => canonical_count(rv, k) == 0,
        Some(t) => exists|a: int, b: int|
            is_first_canonical(rv, k, a) && is_first_partner(rv, k, a, b) && t.0@ == context(
                rv,
                k,
                os[a],
            ) && t.1@ == context(rv, k, os[b]) && t.2@ == kgram(rv, k, os[a]),
    }
}

/// The statistics of K describe the runs exactly.
pub open spec fn kstats_ok(rv: Seq<Seq<char>>, k: int, s: KStats) -> bool {
    &&& s.k == k
    &&& s.canonical_count == canonical_count(rv, k)
    &&& top_sequences_ok(rv, k, top_view(s.top_sequences@))
    &&& sample_ok(rv, k, s.sample)
    &&& s.sample_verified == (s.sample is Some)
}

/// What the analysis of one K knows about its labels, counts and occurrence positions.
pub open spec fn analysis_ok(
    rv: Seq<Seq<char>>,
    k: int,
    kl: Seq<usize>,
    gl: Seq<usize>,
    nk: usize,
    per_label: Seq<u64>,
    first: Seq<usize>,
    occ_r: Seq<usize>,
    occ_p: Seq<usize>,
) -> bool {
    let os = all_occs(rv, k);
    let n = kl.len() as int;
    &&& labels_ok(rv, k, kl, gl)
    &&& forall|i: int| 0 <= i < n ==> #[trigger] kl[i] < nk
    &&& per_label.len() == nk
    &&& first.len() == nk
    &&& forall|v: int| 0 <= v < nk ==> #[trigger] per_label[v] == cross_total_of(kl, gl, v as usize, n)
    &&& forall|v: int|
        0 <= v < nk && count_label(kl, v as usize, n) > 0 ==> #[trigger] first[v] < n && kl[first[v] as int] == v
    &&& occ_r.len() == n
    &&& occ_p.len() == n
    &&& forall|i: int| 0 <= i < n ==> (#[trigger] occ_r[i] as int, occ_p[i] as int) == os[i]
    &&& forall|i: int|
        0 <= i < n ==> 0 <= (#[trigger] os[i]).0 < rv.len() && 0 <= os[i].1 < occ_count(rv[os[i].0], k)
}

/// Entry `y` of the top sequences is the k-gram of the first occurrence of its label.
spec fn top_entry_ok(
    rv: Seq<Seq<char>>,
    k: int,
    kl: Seq<usize>,
    first: Seq<usize>,
    top: Seq<(usize, u64)>,
    seqs: Seq<(String, u64)>,
    y: int,
) -> bool {
    let f = first[top[y].0 as int] as int;
    &&& 0 <= f < kl.len()
    &&& kl[f] == top[y].0
    &&& seqs[y].0@ == kgram(rv, k, all_occs(rv, k)[f])
    &&& seqs[y].1 == top[y].1
}

/// The top sequences of K as strings with their counts.
fn top_sequences_of(
    runs: &Vec<Vec<char>>,
    k: usize,
    kl: &Vec<usize>,
    gl: &Vec<usize>,
    nk: usize,
    counts: &LabelCounts,
    occ_r: &Vec<usize>,
    occ_p: &Vec<usize>,
) -> (res: Vec<(String, u64)>)
    requires
        1 <= k,
        analysis_ok(runs_of(runs@), k as int, kl@, gl@, nk, counts.per_label@, counts.first@, occ_r@, occ_p@),
    ensures
        top_sequences_ok(runs_of(runs@), k as int, top_view(res@)),
{
    let ghost rv = runs_of(runs@);
    let ghost os = all_occs(rv, k as int);
    let n = kl.len();
    let top = top_labels(&counts.per_label);
    let mut seqs: Vec<(String, u64)> = Vec::new();
    let mut x: usize = 0;
    while x < top.len()
        invariant
            rv == runs_of(runs@),
            os == all_occs(rv, k as int),
            n == kl@.len(),
            analysis_ok(rv, k as int, kl@, gl@, nk, counts.per_label@, counts.first@, occ_r@, occ_p@),
            top_labels_ok(counts.per_label@, top@),
            x <= top@.len(),
            seqs@.len() == x,
            forall|y: int| 0 <= y < x ==> #[trigger] top_entry_ok(rv, k as int, kl@, counts.first@, top@, seqs@, y),
        decreases top@.len() - x,
    {
        let v = top[x].0;
        proof {
            lemma_cross_total_of_occurs(kl@, gl@, v, n as int);
        }
        let f = counts.first[v];
        let r = occ_r[f];
        let p = occ_p[f];
        proof {
            assert((occ_r@[f as int] as int, occ_p@[f as int] as int) == os[f as int]);
            assert(runs@[r as int]@ == rv[r as int]);
        }
        let rl = runs[r].len();
        assert(p + k <= rl);
        let s = string_of(&runs[r], p, p + k);
        let ghost old_seqs = seqs@;
        seqs.push((s, top[x].1));
        proof {
            assert forall|y: int| 0 <= y < x + 1 implies #[trigger] top_entry_ok(rv, k as int, kl@, counts.first@, top@, seqs@, y) by {
                if y < x {
                    assert(top_entry_ok(rv, k as int, kl@, counts.first@, top@, old_seqs, y));
                    assert(seqs@[y] == old_seqs[y]);
                }
            }
        }
        x += 1;
    }
    proof {
        let t = top_view(seqs@);
        assert forall|y: int| 0 <= y < t.len() implies #[trigger] t[y].1 > 0 && t[y].1 == kgram_canonical(rv, k as int, t[y].0)
            && exists|j: int| 0 <= j < os.len() && kgram(rv, k as int, os[j]) == t[y].0 by {
            assert(top_entry_ok(rv, k as int, kl@, counts.first@, top@, seqs@, y));
            let f = counts.first@[top@[y].0 as int] as int;
            lemma_cross_total_of_canonical(rv, k as int, kl@, gl@, f, n as int);
        }
        assert forall|y1: int, y2: int| 0 <= y1 < y2 < t.len() implies (#[trigger] t[y1]).0 != (#[trigger] t[y2]).0 && t[y1].1 >= t[y2].1 by {
            assert(top_entry_ok(rv, k as int, kl@, counts.first@, top@, seqs@, y1));
            assert(top_entry_ok(rv, k as int, kl@, counts.first@, top@, seqs@, y2));
            assert(top@[y1].0 != top@[y2].0);
        }
        assert forall|j: int|
            0 <= j < os.len() && kgram_canonical(rv, k as int, #[trigger] kgram(rv, k as int, os[j])) > 0 && (forall|y: int|
                0 <= y < t.len() ==> t[y].0 != kgram(rv, k as int, os[j])) implies t.len() == 10 && kgram_canonical(
                rv,
                k as int,
                kgram(rv, k as int, os[j]),
            ) <= t[9].1 by {
            let v = kl@[j];
            lemma_cross_total_of_canonical(rv, k as int, kl@, gl@, j, n as int);
            assert(counts.per_label@[v as int] > 0);
            assert forall|y: int| 0 <= y < top@.len() implies top@[y].0 != v by {
                if top@[y].0 == v {
                    assert(top_entry_ok(rv, k as int, kl@, counts.first@, top@, seqs@, y));
                    let f = counts.first@[v as int] as int;
                    assert(t[y].0 == kgram(rv, k as int, os[f]));
                    assert(kl@[f] == kl@[j]);
                }
            }
            assert(top@.len() == 10 && counts.per_label@[v as int] <= top@[9].1);
            assert(top_entry_ok(rv, k as int, kl@, counts.first@, top@, seqs@, 9));
            assert(t[9].1 == top@[9].1);
        }
    }
    seqs
}

/// Draw the sample of K and verify it exactly: the first occurrence whose
/// k-gram recurs canonically and the first occurrence with that k-gram and
/// another predecessor. Returns the sample, whether it verified, and the
/// number of verification failures.
fn sample_of(
    runs: &Vec<Vec<char>>,
    k: usize,
    kl: &Vec<usize>,
    gl: &Vec<usize>,
    nk: usize,
    counts: &LabelCounts,
    occ_r: &Vec<usize>,
    occ_p: &Vec<usize>,
) -> (res: (Option<(String, String, String)>, bool, usize))
    requires
        1 <= k,
        analysis_ok(runs_of(runs@), k as int, kl@, gl@, nk, counts.per_label@, counts.first@, occ_r@, occ_p@),
        counts.total == cross_total(kl@, gl@, kl@.len() as int),
        cross_total(kl@, gl@, kl@.len() as int) == canonical_count(runs_of(runs@), k as int),
    ensures
        sample_ok(runs_of(runs@), k as int, res.0),
        res.1 == (res.0 is Some),
        res.2 == 0,
{
    let ghost rv = runs_of(runs@);
    let ghost os = all_occs(rv, k as int);
    let n = kl.len();
    let mut a: usize = 0;
    while a < n && counts.per_label[kl[a]] == 0
        invariant
            n == kl@.len(),
            a <= n,
            forall|i: int| 0 <= i < kl@.len() ==> #[trigger] kl@[i] < nk,
            counts.per_label@.len() == nk,
            forall|i: int| 0 <= i < a ==> counts.per_label@[#[trigger] kl@[i] as int] == 0,
        decreases n - a,
    {
        a += 1;
    }
    if a >= n {
        proof {
            if cross_total(kl@, gl@, n as int) > 0 {
                lemma_cross_total_witness(kl@, gl@, n as int);
                let j = choose|j: int| 0 <= j < n && #[trigger] cross_label(kl@, gl@, j, j) > 0;
                lemma_cross_total_of_includes(kl@, gl@, j, n as int);
                assert(counts.per_label@[kl@[j] as int] == 0);
            }
        }
        return (None, false, 0);
    }
    let ka = kl[a];
    let ga = gl[a];
    proof {
        lemma_cross_total_of_witness(kl@, gl@, ka, n as int);
        let (i0, j0) = choose|i: int, j: int| 0 <= i < j < n && kl@[j] == ka && kl@[i] == kl@[j] && gl@[i] != gl@[j];
        assert(exists|b2: int| 0 <= b2 < n && kl@[b2] == ka && gl@[b2] != ga) by {
            if gl@[i0] != ga {
                assert(0 <= i0 < n && kl@[i0] == ka && gl@[i0] != ga);
            } else {
                assert(0 <= j0 < n && kl@[j0] == ka && gl@[j0] != ga);
            }
        }
    }
    let mut b: usize = 0;
    while b < n && !(kl[b] == ka && gl[b] != ga)
        invariant
            n == kl@.len(),
            n == gl@.len(),
            b <= n,
            exists|b2: int| 0 <= b2 < n && kl@[b2] == ka && gl@[b2] != ga,
            forall|i: int| 0 <= i < b ==> !(#[trigger] kl@[i] == ka && gl@[i] != ga),
        decreases n - b,
    {
        b += 1;
    }
    assert(b < n);
    let ra = occ_r[a];
    let pa = occ_p[a];
    let rb = occ_r[b];
    let pb = occ_p[b];
    let ghost oa = os[a as int];
    let ghost ob = os[b as int];
    proof {
        assert((occ_r@[a as int] as int, occ_p@[a as int] as int) == oa);
        assert((occ_r@[b as int] as int, occ_p@[b as int] as int) == ob);
        assert(kgram(rv, k as int, ob) == kgram(rv, k as int, oa));
        assert(runs@[ra as int]@ == rv[ra as int]);
        assert(runs@[rb as int]@ == rv[rb as int]);
    }
    let run_a = &runs[ra];
    let run_b = &runs[rb];
    let la = run_a.len();
    let lb = run_b.len();
    let mut verified = true;
    let mut failures: usize = 0;
    let mut q: usize = 0;
    while q < k
        invariant
            q <= k,
            run_a@ == rv[oa.0],
            run_b@ == rv[ob.0],
            la == run_a@.len(),
            lb == run_b@.len(),
            oa == (ra as int, pa as int),
            ob == (rb as int, pb as int),
            pa + k <= la,
            pb + k <= lb,
            kgram(rv, k as int, ob) == kgram(rv, k as int, oa),
            verified,
            failures == 0,
        decreases k - q,
    {
        assert(kgram(rv, k as int, oa)[q as int] == run_a@[pa + q]);
        assert(kgram(rv, k as int, ob)[q as int] == run_b@[pb + q]);
        if run_a[pa + q] != run_b[pb + q] {
            verified = false;
            failures += 1;
            break;
        }
        q += 1;
    }
    if !verified {
        return (None, false, failures);
    }
    let start_a = if pa >= 2 { pa - 2 } else { 0 };
    let end_a = if la - (pa + k) >= 2 { pa + k + 2 } else { la };
    let ctx_a = string_of(run_a, start_a, end_a);
    let start_b = if pb >= 2 { pb - 2 } else { 0 };
    let end_b = if lb - (pb + k) >= 2 { pb + k + 2 } else { lb };
    let ctx_b = string_of(run_b, start_b, end_b);
    let seq = string_of(run_a, pa, pa + k);
    proof {
        lemma_cross_total_of_canonical(rv, k as int, kl@, gl@, a as int, n as int);
        assert(is_first_canonical(rv, k as int, a as int)) by {
            assert forall|a2: int| 0 <= a2 < a implies kgram_canonical(rv, k as int, #[trigger] kgram(rv, k as int, os[a2])) == 0 by {
                lemma_cross_total_of_canonical(rv, k as int, kl@, gl@, a2, n as int);
                assert(counts.per_label@[kl@[a2] as int] == 0);
            }
        }
        assert(is_first_partner(rv, k as int, a as int, b as int)) by {
            assert forall|b2: int| 0 <= b2 < b implies !(#[trigger] kgram(rv, k as int, os[b2]) == kgram(rv, k as int, os[a as int]) && pred_of(rv, os[b2])
                != pred_of(rv, os[a as int])) by {
                assert(!(kl@[b2] == ka && gl@[b2] != ga));
            }
        }
    }
    (Some((ctx_a, ctx_b, seq)), true, 0)
}

/// Analyse one K: count the canonical recurrences of k-grams, select the top
/// sequences, and draw and verify a sample pair. Returns the statistics, the
/// k-gram labels for the next K, and the number of failed sample verifications.
fn analyze_k(runs: &Vec<Vec<char>>, k: usize, prev: &Vec<usize>) -> (res: (KStats, Vec<usize>, usize))
    requires
        1 <= k,
        runs_len(runs_of(runs@)) <= usize::MAX,
        k > 1 ==> kgram_labels(runs_of(runs@), k - 1, prev@),
        canonical_count(runs_of(runs@), k as int) <= u64::MAX,
    ensures
        kstats_ok(runs_of(runs@), k as int, res.0),
        kgram_labels(runs_of(runs@), k as int, res.1@),
        res.2 == 0,
{
    let ghost rv = runs_of(runs@);
    let ghost os = all_occs(rv, k as int);
    let (kl, nk, gl, ng) = occurrence_labels(runs, k, prev);
    proof {
        lemma_labels_refine(rv, k as int, kl@, gl@);
        lemma_cross_total_canonical(rv, k as int, kl@, gl@, kl@.len() as int);
    }
    let counts = count_cross(&kl, nk, &gl, ng);
    let n = kl.len();
    proof {
        lemma_occs_shape(rv, k as int, rv.len() as int);
    }
    let (occ_r, occ_p) = occurrence_positions(runs, k);
    assert(analysis_ok(rv, k as int, kl@, gl@, nk, counts.per_label@, counts.first@, occ_r@, occ_p@));
    let top_sequences = top_sequences_of(runs, k, &kl, &gl, nk, &counts, &occ_r, &occ_p);
    let (sample, sample_verified, failures) = sample_of(runs, k, &kl, &gl, nk, &counts, &occ_r, &occ_p);
    let stats = KStats { k, canonical_count: counts.total, top_sequences, sample, sample_verified };
    (stats, kl, failures)
}


/// Sum of the canonical recurrence counts for K = 1..=m.
pub open spec fn canonical_sum(rv: Seq<Seq<char>>, m: int) -> nat
    decreases m,
{
    if m <= 0 {
        0
    } else {
        canonical_sum(rv, m - 1) + canonical_count(rv, m)
    }
}

/// Partial sums of the canonical counts grow with the number of terms.
pub proof fn lemma_canonical_sum_monotone(rv: Seq<Seq<char>>, m1: int, m2: int)
    requires
        0 <= m1 <= m2,
    ensures
        canonical_sum(rv, m1) <= canonical_sum(rv, m2),
    decreases m2,
{
    if m2 > m1 {
        lemma_canonical_sum_monotone(rv, m1, m2 - 1);
    }
}

/// Largest K analysed.
pub const K_LIMIT: usize = 10000;

/// Run the Alpha-run recurrence analysis: extract the Alpha runs, then for each
/// K from 1 upward count all canonical recurrences of exactly K characters,
/// stopping at the first K without any (the corpus determines K_max; at most
/// `K_LIMIT` values of K are analysed).
pub fn run_alpha_recurrence(stream: &CompleteStream) -> (res: AlphaRecurrenceResult)
    requires
        canonical_sum(run_chars(alpha_runs(stream.positions@)), K_LIMIT as int) <= u64::MAX,
        runs_bytes(run_chars(alpha_runs(stream.positions@))) <= usize::MAX,
    ensures
        res.run_count == alpha_runs(stream.positions@).len(),
        res.alpha_char_count == runs_bytes(run_chars(alpha_runs(stream.positions@))),
        res.alpha_char_count >= 2 * res.run_count,
        res.k_max == res.k_stats@.len(),
        res.k_max <= K_LIMIT,
        forall|i: int|
            0 <= i < res.k_max ==> kstats_ok(
                run_chars(alpha_runs(stream.positions@)),
                i + 1,
                #[trigger] res.k_stats@[i],
            ) && res.k_stats@[i].canonical_count > 0,
        forall|i: int, j: int|
            0 <= i <= j < res.k_max ==> (#[trigger] res.k_stats@[j]).canonical_count
                <= (#[trigger] res.k_stats@[i]).canonical_count,
        res.k_max < K_LIMIT ==> canonical_count(
            run_chars(alpha_runs(stream.positions@)),
            res.k_max + 1,
        ) == 0,
        res.total_canonical == canonical_sum(
            run_chars(alpha_runs(stream.positions@)),
            res.k_max as int,
        ),
        res.verification_failures == 0,
{
    let ghost ps = stream.positions@;
    let plen = stream.positions.len();
    let runs = alpha_run_chars(stream);
    let run_count = runs.len();
    let mut chars: Vec<Vec<char>> = Vec::new();
    let mut alpha_char_count: usize = 0;
    let mut i: usize = 0;
    proof {
        lemma_alpha_runs_size(ps);
        law_run_char_count(ps);
        lemma_runs_bytes_bounds(run_chars(alpha_runs(ps)));
    }
    let ghost all = run_chars(alpha_runs(ps));
    assert(all.len() == runs@.len());
    while i < runs.len()
        invariant
            all == run_chars(alpha_runs(ps)),
            runs_view(runs@) == alpha_runs(ps),
            all.len() == runs@.len(),
            runs_len(all) <= plen,
            i <= runs@.len(),
            runs_of(chars@) == all.take(i as int),
            alpha_char_count == runs_bytes(all.take(i as int)),
            runs_bytes(all) <= usize::MAX,
        decreases runs@.len() - i,
    {
        proof {
            assert(all[i as int] == runs@[i as int].1@);
            assert(all.take(i as int + 1).drop_last() =~= all.take(i as int));
            lemma_runs_bytes_take(all, i as int);
        }
        alpha_char_count = alpha_char_count + utf8_size(&runs[i].1);
        chars.push(runs[i].1.clone());
        assert(runs_of(chars@) =~= all.take(i as int + 1));
        i += 1;
    }
    assert(all.take(runs@.len() as int) =~= all);
    let mut k_stats: Vec<KStats> = Vec::new();
    let mut k_max: usize = 0;
    let mut total_canonical: u64 = 0;
    let mut verification_failures: usize = 0;
    let mut prev: Vec<usize> = Vec::new();
    let mut k: usize = 1;
    loop
        invariant_except_break
            k <= K_LIMIT,
        invariant
            all == runs_of(chars@),
            runs_len(all) <= usize::MAX,
            canonical_sum(all, K_LIMIT as int) <= u64::MAX,
            1 <= k <= K_LIMIT + 1,
            k_max == k - 1,
            k_stats@.len() == k_max,
            forall|j: int| 0 <= j < k_max ==> kstats_ok(all, j + 1, #[trigger] k_stats@[j]) && k_stats@[j].canonical_count > 0,
            total_canonical == canonical_sum(all, k_max as int),
            k > 1 ==> kgram_labels(all, k - 1, prev@),
            verification_failures == 0,
        ensures
            k_stats@.len() == k_max,
            k_max <= K_LIMIT,
            forall|j: int| 0 <= j < k_max ==> kstats_ok(all, j + 1, #[trigger] k_stats@[j]) && k_stats@[j].canonical_count > 0,
            k_max < K_LIMIT ==> canonical_count(all, k_max + 1) == 0,
            total_canonical == canonical_sum(all, k_max as int),
            verification_failures == 0,
        decreases K_LIMIT - k,
    {
        proof {
            lemma_canonical_sum_monotone(all, k as int, K_LIMIT as int);
        }
        let (stats, labels, failures) = analyze_k(&chars, k, &prev);
        verification_failures = verification_failures + failures;
        if stats.canonical_count == 0 {
            break;
        }
        k_max = k;
        total_canonical = total_canonical + stats.canonical_count;
        let ghost old_stats = k_stats@;
        k_stats.push(stats);
        proof {
            assert forall|j: int| 0 <= j < k_max implies kstats_ok(all, j + 1, #[trigger] k_stats@[j]) && k_stats@[j].canonical_count > 0 by {
                if j < k_max - 1 {
                    assert(k_stats@[j] == old_stats[j]);
                }
            }
        }
        prev = labels;
        k += 1;
        if k > K_LIMIT {
            break;
        }
    }
    proof {
        assert forall|i: int, j: int| 0 <= i <= j < k_max implies (#[trigger] k_stats@[j]).canonical_count
            <= (#[trigger] k_stats@[i]).canonical_count by {
            law_counts_do_not_increase(all, i + 1, j + 1);
        }
    }
    AlphaRecurrenceResult {
        run_count,
        alpha_char_count,
        k_stats,
        k_max,
        total_canonical,
        verification_failures,
    }
}


proof fn lemma_canonical_sum_bounded(rv: Seq<Seq<char>>, m: int)
    requires
        m >= 0,
    ensures
        canonical_sum(rv, m) <= m * (runs_len(rv) * runs_len(rv)),
    decreases m,
{
    if m > 0 {
        lemma_canonical_sum_bounded(rv, m - 1);
        let os = all_occs(rv, m);
        lemma_occs_bound(rv, m, rv.len() as int);
        assert(rv.take(rv.len() as int) =~= rv);
        crate::kgrams::lemma_canonical_upto_bounded(rv, m, os, os.len() as int);
        let n = os.len() as int;
        let r = runs_len(rv) as int;
        assert(n * n <= r * r) by (nonlinear_arith)
            requires
                0 <= n <= r,
        ;
        assert((m - 1) * (r * r) + r * r == m * (r * r)) by (nonlinear_arith);
    }
}

/// Capitals are not observable: two streams that differ only in the ASCII case
/// of their letters (same files, same classes) have the same runs, so every
/// figure of the recurrence analysis agrees: the runs and their bytes, and the
/// canonical counts and their sums at every K.
pub proof fn law_recurrence_ignores_case(
    ps1: Seq<crate::observe::StreamPosition>,
    ps2: Seq<crate::observe::StreamPosition>,
)
    requires
        crate::runs::same_up_to_case(ps1, ps2),
    ensures
        alpha_runs(ps1).len() == alpha_runs(ps2).len(),
        run_chars(alpha_runs(ps1)) == run_chars(alpha_runs(ps2)),
        runs_bytes(run_chars(alpha_runs(ps1))) == runs_bytes(run_chars(alpha_runs(ps2))),
        forall|k: int|
            canonical_count(run_chars(alpha_runs(ps1)), k) == #[trigger] canonical_count(
                run_chars(alpha_runs(ps2)),
                k,
            ),
        forall|m: int|
            canonical_sum(run_chars(alpha_runs(ps1)), m) == #[trigger] canonical_sum(
                run_chars(alpha_runs(ps2)),
                m,
            ),
{
    crate::runs::law_runs_ignore_case(ps1, ps2);
}

/// Streams of up to 2^24 positions meet the bounds of `run_alpha_recurrence`:
/// all canonical recurrence counts together fit in a `u64`, and the bytes of
/// the runs in a `usize`.
pub proof fn law_recurrence_counts_fit(ps: Seq<crate::observe::StreamPosition>)
    requires
        ps.len() <= 0x100_0000,
    ensures
        canonical_sum(run_chars(alpha_runs(ps)), K_LIMIT as int) <= u64::MAX,
        runs_bytes(run_chars(alpha_runs(ps))) <= usize::MAX,
{
    let rv = run_chars(alpha_runs(ps));
    lemma_alpha_runs_size(ps);
    lemma_runs_bytes_bounds(rv);
    lemma_canonical_sum_bounded(rv, K_LIMIT as int);
    let r = runs_len(rv) as int;
    assert(10000 * (r * r) <= u64::MAX) by (nonlinear_arith)
        requires
            0 <= r <= 0x100_0000,
    ;
}

} // verus!
