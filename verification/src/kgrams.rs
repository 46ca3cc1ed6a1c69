//! k-gram occurrences in a list of runs and the canonical (bilaterally
//! maximal) recurrences among them, with their counting over labels.

use vstd::prelude::*;

verus! {

// ── Occurrences ──────────────────────────────────────────────────────────

/// Number of k-gram occurrences in a run: the starts `p` with `p + k <= len`.
pub open spec fn occ_count(run: Seq<char>, k: int) -> int {
    if run.len() >= k {
        run.len() - k + 1
    } else {
        0
    }
}

/// The k-gram occurrences (run index, start) of the first `m` runs, in order.
pub open spec fn occs(runs: Seq<Seq<char>>, k: int, m: int) -> Seq<(int, int)>
    decreases m,
{
    if m <= 0 {
        seq![]
    } else {
        occs(runs, k, m - 1) + Seq::new(occ_count(runs[m - 1], k) as nat, |p: int| (m - 1, p))
    }
}

/// All k-gram occurrences of the runs, run by run, start by start.
pub open spec fn all_occs(runs: Seq<Seq<char>>, k: int) -> Seq<(int, int)> {
    occs(runs, k, runs.len() as int)
}

/// The k characters starting at an occurrence.
pub open spec fn kgram(runs: Seq<Seq<char>>, k: int, o: (int, int)) -> Seq<char> {
    runs[o.0].subrange(o.1, o.1 + k)
}

/// A predecessor label of an occurrence: `None` at the start of its run,
/// otherwise the (lowercase) character just before it.
pub type PredecessorLabel = Option<char>;

/// The predecessor of an occurrence: the character before it in its run, or
/// `None` at the start of the run.
pub open spec fn pred_of(runs: Seq<Seq<char>>, o: (int, int)) -> PredecessorLabel {
    if o.1 == 0 {
        None
    } else {
        Some(runs[o.0][o.1 - 1])
    }
}

/// Two occurrences form a canonical recurrence: same k-gram, different predecessors.
pub open spec fn canonical_pair(runs: Seq<Seq<char>>, k: int, a: (int, int), b: (int, int)) -> bool {
    kgram(runs, k, a) == kgram(runs, k, b) && pred_of(runs, a) != pred_of(runs, b)
}

/// Number of occurrences among the first `n` of `os` that form a canonical
/// recurrence with `os[j]`.
pub open spec fn earlier_canonical(
    runs: Seq<Seq<char>>,
    k: int,
    os: Seq<(int, int)>,
    j: int,
    n: int,
) -> nat
    decreases n,
{
    if n <= 0 {
        0
    } else {
        earlier_canonical(runs, k, os, j, n - 1) + if canonical_pair(runs, k, os[n - 1], os[j]) {
            1nat
        } else {
            0nat
        }
    }
}

/// Number of canonical recurrences among the first `n` occurrences: pairs of
/// occurrences, one before the other, with the same k-gram and different predecessors.
pub open spec fn canonical_upto(runs: Seq<Seq<char>>, k: int, os: Seq<(int, int)>, n: int) -> nat
    decreases n,
{
    if n <= 0 {
        0
    } else {
        canonical_upto(runs, k, os, n - 1) + earlier_canonical(runs, k, os, n - 1, n - 1)
    }
}

/// Number of canonical recurrences of length k in the runs.
pub open spec fn canonical_count(runs: Seq<Seq<char>>, k: int) -> nat {
    canonical_upto(runs, k, all_occs(runs, k), all_occs(runs, k).len() as int)
}

/// Number of canonical recurrences among the first `n` occurrences whose k-gram is `g`.
pub open spec fn kgram_canonical_upto(
    runs: Seq<Seq<char>>,
    k: int,
    os: Seq<(int, int)>,
    g: Seq<char>,
    n: int,
) -> nat
    decreases n,
{
    if n <= 0 {
        0
    } else {
        kgram_canonical_upto(runs, k, os, g, n - 1) + if kgram(runs, k, os[n - 1]) == g {
            earlier_canonical(runs, k, os, n - 1, n - 1)
        } else {
            0nat
        }
    }
}

/// Number of canonical recurrences of the k-gram `g`.
pub open spec fn kgram_canonical(runs: Seq<Seq<char>>, k: int, g: Seq<char>) -> nat {
    kgram_canonical_upto(runs, k, all_occs(runs, k), g, all_occs(runs, k).len() as int)
}

// ── Lemmas on occurrences ────────────────────────────────────────────────

/// The occurrences of the first `m` runs: each is a valid start in its run,
/// and it sits at its run's offset plus its start.
pub proof fn lemma_occs_shape(runs: Seq<Seq<char>>, k: int, m: int)
    requires
        0 <= m <= runs.len(),
    ensures
        forall|i: int|
            0 <= i < occs(runs, k, m).len() ==> {
                let o = #[trigger] occs(runs, k, m)[i];
                &&& 0 <= o.0 < m
                &&& 0 <= o.1 < occ_count(runs[o.0], k)
                &&& i == occs(runs, k, o.0).len() + o.1
            },
        forall|r: int| 0 <= r <= m ==> #[trigger] occs(runs, k, r).len() <= occs(runs, k, m).len(),
    decreases m,
{
    if m > 0 {
        lemma_occs_shape(runs, k, m - 1);
        let prev = occs(runs, k, m - 1);
        let blk = Seq::new(occ_count(runs[m - 1], k) as nat, |p: int| (m - 1, p));
        assert(occs(runs, k, m) == prev + blk);
        assert forall|i: int| 0 <= i < occs(runs, k, m).len() implies {
            let o = #[trigger] occs(runs, k, m)[i];
            &&& 0 <= o.0 < m
            &&& 0 <= o.1 < occ_count(runs[o.0], k)
            &&& i == occs(runs, k, o.0).len() + o.1
        } by {
            if i < prev.len() {
                assert(occs(runs, k, m)[i] == prev[i]);
            } else {
                assert(occs(runs, k, m)[i] == blk[i - prev.len()]);
            }
        }
    }
}

/// The occurrence at a run's offset plus a start is that (run, start).
pub proof fn lemma_occs_index(runs: Seq<Seq<char>>, k: int, m: int, r: int, p: int)
    requires
        0 <= r < m <= runs.len(),
        0 <= p < occ_count(runs[r], k),
    ensures
        occs(runs, k, r).len() + p < occs(runs, k, m).len(),
        occs(runs, k, m)[occs(runs, k, r).len() + p] == (r, p),
    decreases m,
{
    let prev = occs(runs, k, m - 1);
    let blk = Seq::new(occ_count(runs[m - 1], k) as nat, |q: int| (m - 1, q));
    assert(occs(runs, k, m) == prev + blk);
    if r < m - 1 {
        lemma_occs_index(runs, k, m - 1, r, p);
        assert(occs(runs, k, m)[occs(runs, k, r).len() + p] == prev[occs(runs, k, r).len() + p]);
    } else {
        assert(occs(runs, k, m)[occs(runs, k, r).len() + p] == blk[p]);
    }
}

/// Number of k-gram occurrences in the first `m` runs.
pub proof fn lemma_occs_len(runs: Seq<Seq<char>>, k: int, m: int)
    requires
        0 <= m < runs.len(),
    ensures
        occs(runs, k, m + 1).len() == occs(runs, k, m).len() + occ_count(runs[m], k),
{
}

// ── Counting over labels ─────────────────────────────────────────────────

/// Number of indices below `n` labelled `v`.
pub open spec fn count_label(l: Seq<usize>, v: usize, n: int) -> nat
    decreases n,
{
    if n <= 0 {
        0
    } else {
        count_label(l, v, n - 1) + if l[n - 1] == v {
            1nat
        } else {
            0nat
        }
    }
}

/// Number of indices below `n` with the k-label of `j` and another g-label.
pub open spec fn cross_label(kl: Seq<usize>, gl: Seq<usize>, j: int, n: int) -> nat
    decreases n,
{
    if n <= 0 {
        0
    } else {
        cross_label(kl, gl, j, n - 1) + if kl[n - 1] == kl[j] && gl[n - 1] != gl[j] {
            1nat
        } else {
            0nat
        }
    }
}

/// Sum over `j < n` of the indices before `j` that share its k-label but not its g-label.
pub open spec fn cross_total(kl: Seq<usize>, gl: Seq<usize>, n: int) -> nat
    decreases n,
{
    if n <= 0 {
        0
    } else {
        cross_total(kl, gl, n - 1) + cross_label(kl, gl, n - 1, n - 1)
    }
}

/// The part of `cross_total` contributed by indices labelled `v`.
pub open spec fn cross_total_of(kl: Seq<usize>, gl: Seq<usize>, v: usize, n: int) -> nat
    decreases n,
{
    if n <= 0 {
        0
    } else {
        cross_total_of(kl, gl, v, n - 1) + if kl[n - 1] == v {
            cross_label(kl, gl, n - 1, n - 1)
        } else {
            0nat
        }
    }
}

/// Equal g-labels imply equal k-labels.
pub open spec fn refines(kl: Seq<usize>, gl: Seq<usize>) -> bool {
    forall|i: int, j: int|
        0 <= i < gl.len() && 0 <= j < gl.len() && #[trigger] gl[i] == #[trigger] gl[j] ==> kl[i]
            == kl[j]
}

proof fn lemma_count_split(kl: Seq<usize>, gl: Seq<usize>, j: int, n: int)
    requires
        refines(kl, gl),
        kl.len() == gl.len(),
        0 <= j < kl.len(),
        n <= kl.len(),
    ensures
        count_label(kl, kl[j], n) == count_label(gl, gl[j], n) + cross_label(kl, gl, j, n),
    decreases n,
{
    if n > 0 {
        lemma_count_split(kl, gl, j, n - 1);
    }
}

proof fn lemma_cross_label_bounded(kl: Seq<usize>, gl: Seq<usize>, j: int, n: int)
    ensures
        cross_label(kl, gl, j, n) <= if n >= 0 { n as nat } else { 0nat },
    decreases n,
{
    if n > 0 {
        lemma_cross_label_bounded(kl, gl, j, n - 1);
    }
}

pub proof fn lemma_cross_total_bounded(kl: Seq<usize>, gl: Seq<usize>, n: int)
    requires
        n >= 0,
    ensures
        cross_total(kl, gl, n) <= n * n,
    decreases n,
{
    if n > 0 {
        lemma_cross_total_bounded(kl, gl, n - 1);
        lemma_cross_label_bounded(kl, gl, n - 1, n - 1);
        assert((n - 1) * (n - 1) + (n - 1) <= n * n) by (nonlinear_arith)
            requires
                n > 0,
        ;
    }
}

proof fn lemma_cross_total_monotone(kl: Seq<usize>, gl: Seq<usize>, m: int, n: int)
    requires
        m <= n,
    ensures
        cross_total(kl, gl, m) <= cross_total(kl, gl, n),
    decreases n - m,
{
    if m < n {
        lemma_cross_total_monotone(kl, gl, m, n - 1);
    }
}

proof fn lemma_cross_total_of_bounded(kl: Seq<usize>, gl: Seq<usize>, v: usize, n: int)
    ensures
        cross_total_of(kl, gl, v, n) <= cross_total(kl, gl, n),
    decreases n,
{
    if n > 0 {
        lemma_cross_total_of_bounded(kl, gl, v, n - 1);
    }
}

proof fn lemma_count_label_bounded(l: Seq<usize>, v: usize, n: int)
    ensures
        count_label(l, v, n) <= if n >= 0 { n as nat } else { 0nat },
    decreases n,
{
    if n > 0 {
        lemma_count_label_bounded(l, v, n - 1);
    }
}

proof fn lemma_count_label_first(l: Seq<usize>, v: usize, n: int, f: int)
    requires
        0 <= f < n,
        l[f] == v,
        forall|i: int| 0 <= i < f ==> l[i] != v,
    ensures
        count_label(l, v, n) > 0,
    decreases n,
{
    if n - 1 > f {
        lemma_count_label_first(l, v, n - 1, f);
    }
}

proof fn lemma_count_label_zero(l: Seq<usize>, v: usize, n: int)
    requires
        count_label(l, v, n) == 0,
    ensures
        forall|i: int| 0 <= i < n ==> l[i] != v,
    decreases n,
{
    if n > 0 {
        lemma_count_label_zero(l, v, n - 1);
    }
}

/// Result of counting canonical recurrences over labels.
pub struct LabelCounts {
    /// Sum of the cross counts of all indices.
    pub total: u64,
    /// Per k-label: the cross counts of its indices.
    pub per_label: Vec<u64>,
    /// Per k-label that occurs: its first index.
    pub first: Vec<usize>,
}

/// Count, for index `j`, the earlier indices with the same k-label but another
/// g-label, summed overall and per k-label; and record the first index of each
/// k-label.
pub fn count_cross(kl: &Vec<usize>, nk: usize, gl: &Vec<usize>, ng: usize) -> (res: LabelCounts)
    requires
        kl@.len() == gl@.len(),
        cross_total(kl@, gl@, kl@.len() as int) <= u64::MAX,
        forall|i: int| 0 <= i < kl@.len() ==> #[trigger] kl@[i] < nk,
        forall|i: int| 0 <= i < gl@.len() ==> #[trigger] gl@[i] < ng,
        refines(kl@, gl@),
    ensures
        res.total == cross_total(kl@, gl@, kl@.len() as int),
        res.per_label@.len() == nk,
        forall|v: int|
            0 <= v < nk ==> #[trigger] res.per_label@[v] == cross_total_of(
                kl@,
                gl@,
                v as usize,
                kl@.len() as int,
            ),
        res.first@.len() == nk,
        forall|v: int|
            0 <= v < nk && count_label(kl@, v as usize, kl@.len() as int) > 0 ==> {
                let f = #[trigger] res.first@[v];
                &&& f < kl@.len()
                &&& kl@[f as int] == v
                &&& forall|i: int| 0 <= i < f ==> kl@[i] != v
            },
{
    let n = kl.len();
    let mut seen_k: Vec<u64> = Vec::new();
    let mut per_label: Vec<u64> = Vec::new();
    let mut first: Vec<usize> = Vec::new();
    let mut v: usize = 0;
    while v < nk
        invariant
            v <= nk,
            seen_k@.len() == v,
            per_label@.len() == v,
            first@.len() == v,
            forall|w: int| 0 <= w < v ==> #[trigger] seen_k@[w] == 0,
            forall|w: int| 0 <= w < v ==> #[trigger] per_label@[w] == 0,
        decreases nk - v,
    {
        seen_k.push(0);
        per_label.push(0);
        first.push(0);
        v += 1;
    }
    let mut seen_g: Vec<u64> = Vec::new();
    let mut w: usize = 0;
    while w < ng
        invariant
            w <= ng,
            seen_g@.len() == w,
            forall|x: int| 0 <= x < w ==> #[trigger] seen_g@[x] == 0,
        decreases ng - w,
    {
        seen_g.push(0);
        w += 1;
    }
    let mut total: u64 = 0;
    let mut j: usize = 0;
    while j < n
        invariant
            n == kl@.len(),
            kl@.len() == gl@.len(),
            cross_total(kl@, gl@, n as int) <= u64::MAX,
            j <= n,
            forall|i: int| 0 <= i < kl@.len() ==> #[trigger] kl@[i] < nk,
            forall|i: int| 0 <= i < gl@.len() ==> #[trigger] gl@[i] < ng,
            refines(kl@, gl@),
            seen_k@.len() == nk,
            seen_g@.len() == ng,
            per_label@.len() == nk,
            first@.len() == nk,
            forall|x: int| 0 <= x < nk ==> #[trigger] seen_k@[x] == count_label(kl@, x as usize, j as int),
            forall|x: int| 0 <= x < ng ==> #[trigger] seen_g@[x] == count_label(gl@, x as usize, j as int),
            forall|x: int| 0 <= x < nk ==> #[trigger] per_label@[x] == cross_total_of(kl@, gl@, x as usize, j as int),
            total == cross_total(kl@, gl@, j as int),
            forall|x: int|
                0 <= x < nk && count_label(kl@, x as usize, j as int) > 0 ==> {
                    let f = #[trigger] first@[x];
                    &&& f < j
                    &&& kl@[f as int] == x
                    &&& forall|i: int| 0 <= i < f ==> kl@[i] != x
                },
        decreases n - j,
    {
        let kv = kl[j];
        let gv = gl[j];
        proof {
            lemma_count_split(kl@, gl@, j as int, j as int);
            lemma_count_label_bounded(kl@, kv, j as int);
            lemma_count_label_bounded(gl@, gv, j as int);
            lemma_cross_total_monotone(kl@, gl@, j as int + 1, n as int);
            lemma_cross_total_of_bounded(kl@, gl@, kv, j as int + 1);
            if count_label(kl@, kv, j as int) == 0 {
                lemma_count_label_zero(kl@, kv, j as int);
            }
        }
        let c = seen_k[kv] - seen_g[gv];
        total = total + c;
        let pl = per_label[kv];
        per_label.set(kv, pl + c);
        if seen_k[kv] == 0 {
            first.set(kv, j);
        }
        let sk = seen_k[kv];
        seen_k.set(kv, sk + 1);
        let sg = seen_g[gv];
        seen_g.set(gv, sg + 1);
        proof {
            let nj = j as int + 1;
            assert forall|x: int| 0 <= x < nk && count_label(kl@, x as usize, nj) > 0 implies {
                let f = #[trigger] first@[x];
                &&& f < nj
                &&& kl@[f as int] == x
                &&& forall|i: int| 0 <= i < f ==> kl@[i] != x
            } by {
                if x != kv as int {
                    assert(count_label(kl@, x as usize, nj) == count_label(kl@, x as usize, j as int));
                }
            }
        }
        j += 1;
    }
    LabelCounts { total, per_label, first }
}


// ── Labels of occurrences ────────────────────────────────────────────────

/// `kl` labels the k-gram of each occurrence and `gl` its k-gram together with
/// its predecessor: equal labels exactly for equal k-grams (and predecessors).
pub open spec fn labels_ok(runs: Seq<Seq<char>>, k: int, kl: Seq<usize>, gl: Seq<usize>) -> bool {
    let os = all_occs(runs, k);
    &&& kl.len() == os.len()
    &&& gl.len() == os.len()
    &&& forall|i: int, j: int|
        0 <= i < os.len() && 0 <= j < os.len() ==> (#[trigger] kl[i] == #[trigger] kl[j] <==> kgram(
            runs,
            k,
            os[i],
        ) == kgram(runs, k, os[j]))
    &&& forall|i: int, j: int|
        0 <= i < os.len() && 0 <= j < os.len() ==> (#[trigger] gl[i] == #[trigger] gl[j] <==> (
        kgram(runs, k, os[i]) == kgram(runs, k, os[j]) && pred_of(runs, os[i]) == pred_of(
            runs,
            os[j],
        )))
}

/// Labels of k-grams only.
pub open spec fn kgram_labels(runs: Seq<Seq<char>>, k: int, kl: Seq<usize>) -> bool {
    let os = all_occs(runs, k);
    &&& kl.len() == os.len()
    &&& forall|i: int, j: int|
        0 <= i < os.len() && 0 <= j < os.len() ==> (#[trigger] kl[i] == #[trigger] kl[j] <==> kgram(
            runs,
            k,
            os[i],
        ) == kgram(runs, k, os[j]))
}

pub proof fn lemma_labels_refine(runs: Seq<Seq<char>>, k: int, kl: Seq<usize>, gl: Seq<usize>)
    requires
        labels_ok(runs, k, kl, gl),
    ensures
        refines(kl, gl),
{
    let os = all_occs(runs, k);
    assert forall|i: int, j: int|
        0 <= i < gl.len() && 0 <= j < gl.len() && #[trigger] gl[i] == #[trigger] gl[j] implies kl[i]
        == kl[j] by {
        assert(kgram(runs, k, os[i]) == kgram(runs, k, os[j]));
    }
}

pub proof fn lemma_cross_label_canonical(
    runs: Seq<Seq<char>>,
    k: int,
    kl: Seq<usize>,
    gl: Seq<usize>,
    j: int,
    n: int,
)
    requires
        labels_ok(runs, k, kl, gl),
        0 <= j < kl.len(),
        n <= kl.len(),
    ensures
        cross_label(kl, gl, j, n) == earlier_canonical(runs, k, all_occs(runs, k), j, n),
    decreases n,
{
    if n > 0 {
        lemma_cross_label_canonical(runs, k, kl, gl, j, n - 1);
        let os = all_occs(runs, k);
        assert((kl[n - 1] == kl[j] && gl[n - 1] != gl[j]) == canonical_pair(runs, k, os[n - 1], os[j]));
    }
}

pub proof fn lemma_cross_total_canonical(
    runs: Seq<Seq<char>>,
    k: int,
    kl: Seq<usize>,
    gl: Seq<usize>,
    n: int,
)
    requires
        labels_ok(runs, k, kl, gl),
        n <= kl.len(),
    ensures
        cross_total(kl, gl, n) == canonical_upto(runs, k, all_occs(runs, k), n),
    decreases n,
{
    if n > 0 {
        lemma_cross_total_canonical(runs, k, kl, gl, n - 1);
        lemma_cross_label_canonical(runs, k, kl, gl, n - 1, n - 1);
    }
}

pub proof fn lemma_cross_total_of_canonical(
    runs: Seq<Seq<char>>,
    k: int,
    kl: Seq<usize>,
    gl: Seq<usize>,
    j0: int,
    n: int,
)
    requires
        labels_ok(runs, k, kl, gl),
        0 <= j0 < kl.len(),
        n <= kl.len(),
    ensures
        cross_total_of(kl, gl, kl[j0], n) == kgram_canonical_upto(
            runs,
            k,
            all_occs(runs, k),
            kgram(runs, k, all_occs(runs, k)[j0]),
            n,
        ),
    decreases n,
{
    if n > 0 {
        lemma_cross_total_of_canonical(runs, k, kl, gl, j0, n - 1);
        lemma_cross_label_canonical(runs, k, kl, gl, n - 1, n - 1);
        let os = all_occs(runs, k);
        assert((kl[n - 1] == kl[j0]) == (kgram(runs, k, os[n - 1]) == kgram(runs, k, os[j0])));
    }
}

/// A label with a positive cross count has an index `j` and an earlier index
/// `i` with the same k-label and different g-labels.
pub proof fn lemma_cross_total_of_witness(kl: Seq<usize>, gl: Seq<usize>, v: usize, n: int)
    requires
        cross_total_of(kl, gl, v, n) > 0,
    ensures
        exists|i: int, j: int|
            0 <= i < j < n && kl[j] == v && kl[i] == kl[j] && gl[i] != gl[j],
    decreases n,
{
    if n > 0 {
        if cross_total_of(kl, gl, v, n - 1) > 0 {
            lemma_cross_total_of_witness(kl, gl, v, n - 1);
        } else {
            lemma_cross_label_witness(kl, gl, n - 1, n - 1);
        }
    }
}

proof fn lemma_cross_label_witness(kl: Seq<usize>, gl: Seq<usize>, j: int, n: int)
    requires
        cross_label(kl, gl, j, n) > 0,
    ensures
        exists|i: int| 0 <= i < n && kl[i] == kl[j] && gl[i] != gl[j],
    decreases n,
{
    if n > 0 {
        if cross_label(kl, gl, j, n - 1) > 0 {
            lemma_cross_label_witness(kl, gl, j, n - 1);
        }
    }
}

/// A label with a positive cross count occurs.
pub proof fn lemma_cross_total_of_occurs(kl: Seq<usize>, gl: Seq<usize>, v: usize, n: int)
    requires
        cross_total_of(kl, gl, v, n) > 0,
    ensures
        count_label(kl, v, n) > 0,
    decreases n,
{
    if n > 0 {
        if cross_total_of(kl, gl, v, n - 1) > 0 {
            lemma_cross_total_of_occurs(kl, gl, v, n - 1);
        }
    }
}

/// Without occurrences of a label there are no cross counts for it.
pub proof fn lemma_cross_total_of_absent(kl: Seq<usize>, gl: Seq<usize>, v: usize, n: int)
    requires
        forall|i: int| 0 <= i < n ==> kl[i] != v,
    ensures
        cross_total_of(kl, gl, v, n) == 0,
    decreases n,
{
    if n > 0 {
        lemma_cross_total_of_absent(kl, gl, v, n - 1);
    }
}


/// A positive cross total has an index with a positive cross count.
pub proof fn lemma_cross_total_witness(kl: Seq<usize>, gl: Seq<usize>, n: int)
    requires
        cross_total(kl, gl, n) > 0,
    ensures
        exists|j: int| 0 <= j < n && #[trigger] cross_label(kl, gl, j, j) > 0,
    decreases n,
{
    if n > 0 {
        if cross_total(kl, gl, n - 1) > 0 {
            lemma_cross_total_witness(kl, gl, n - 1);
            let j = choose|j: int| 0 <= j < n - 1 && #[trigger] cross_label(kl, gl, j, j) > 0;
            assert(0 <= j < n && cross_label(kl, gl, j, j) > 0);
        } else {
            assert(cross_label(kl, gl, n - 1, n - 1) > 0);
        }
    }
}

/// The cross count of an index is part of the total of its label.
pub proof fn lemma_cross_total_of_includes(kl: Seq<usize>, gl: Seq<usize>, j: int, n: int)
    requires
        0 <= j < n,
    ensures
        cross_total_of(kl, gl, kl[j], n) >= cross_label(kl, gl, j, j),
    decreases n,
{
    if n - 1 > j {
        lemma_cross_total_of_includes(kl, gl, j, n - 1);
    }
}


// ── Natural termination ──────────────────────────────────────────────────

proof fn lemma_earlier_canonical_witness(runs: Seq<Seq<char>>, k: int, os: Seq<(int, int)>, j: int, n: int)
    requires
        earlier_canonical(runs, k, os, j, n) > 0,
    ensures
        exists|i: int| 0 <= i < n && #[trigger] canonical_pair(runs, k, os[i], os[j]),
    decreases n,
{
    if n > 0 && earlier_canonical(runs, k, os, j, n - 1) > 0 {
        lemma_earlier_canonical_witness(runs, k, os, j, n - 1);
    }
}

proof fn lemma_earlier_canonical_positive(runs: Seq<Seq<char>>, k: int, os: Seq<(int, int)>, i: int, j: int, n: int)
    requires
        0 <= i < n,
        canonical_pair(runs, k, os[i], os[j]),
    ensures
        earlier_canonical(runs, k, os, j, n) > 0,
    decreases n,
{
    if n - 1 > i {
        lemma_earlier_canonical_positive(runs, k, os, i, j, n - 1);
    }
}

proof fn lemma_canonical_upto_monotone(runs: Seq<Seq<char>>, k: int, os: Seq<(int, int)>, m: int, n: int)
    requires
        0 <= m <= n,
    ensures
        canonical_upto(runs, k, os, m) <= canonical_upto(runs, k, os, n),
    decreases n,
{
    if n > m {
        lemma_canonical_upto_monotone(runs, k, os, m, n - 1);
    }
}

/// There is a canonical recurrence among the first `n` occurrences exactly
/// when two of them, one before the other, form a canonical pair.
pub proof fn lemma_canonical_upto_positive(runs: Seq<Seq<char>>, k: int, os: Seq<(int, int)>, n: int)
    requires
        n >= 0,
    ensures
        canonical_upto(runs, k, os, n) > 0 <==> exists|i: int, j: int|
            0 <= i < j < n && #[trigger] canonical_pair(runs, k, os[i], os[j]),
    decreases n,
{
    if n > 0 {
        lemma_canonical_upto_positive(runs, k, os, n - 1);
        if earlier_canonical(runs, k, os, n - 1, n - 1) > 0 {
            lemma_earlier_canonical_witness(runs, k, os, n - 1, n - 1);
            let i = choose|i: int| 0 <= i < n - 1 && #[trigger] canonical_pair(runs, k, os[i], os[n - 1]);
            assert(0 <= i < n - 1 < n && canonical_pair(runs, k, os[i], os[n - 1]));
        }
        if exists|i: int, j: int| 0 <= i < j < n && #[trigger] canonical_pair(runs, k, os[i], os[j]) {
            let (i, j) = choose|i: int, j: int| 0 <= i < j < n && #[trigger] canonical_pair(runs, k, os[i], os[j]);
            if j < n - 1 {
                assert(0 <= i < j < n - 1 && canonical_pair(runs, k, os[i], os[j]));
            } else {
                lemma_earlier_canonical_positive(runs, k, os, i, n - 1, n - 1);
            }
        }
    }
}

/// Occurrence order is (run, start) order.
proof fn lemma_occ_order(runs: Seq<Seq<char>>, k: int, i: int, j: int)
    requires
        0 <= i < j < all_occs(runs, k).len(),
    ensures
        all_occs(runs, k)[i].0 < all_occs(runs, k)[j].0 || (all_occs(runs, k)[i].0 == all_occs(
            runs,
            k,
        )[j].0 && all_occs(runs, k)[i].1 < all_occs(runs, k)[j].1),
{
    let m = runs.len() as int;
    lemma_occs_shape(runs, k, m);
    let oi = all_occs(runs, k)[i];
    let oj = all_occs(runs, k)[j];
    if oi.0 > oj.0 {
        lemma_occs_len(runs, k, oj.0);
        assert(occs(runs, k, oj.0 + 1).len() <= occs(runs, k, oi.0).len()) by {
            lemma_occs_prefix_monotone(runs, k, oj.0 + 1, oi.0);
        }
    }
}

proof fn lemma_occs_prefix_monotone(runs: Seq<Seq<char>>, k: int, a: int, b: int)
    requires
        0 <= a <= b <= runs.len(),
    ensures
        occs(runs, k, a).len() <= occs(runs, k, b).len(),
    decreases b,
{
    if b > a {
        lemma_occs_prefix_monotone(runs, k, a, b - 1);
    }
}

/// Natural termination: a canonical recurrence of length k + 1 contains one of
/// length k, so once some K has no canonical recurrence, no longer K has one.
pub proof fn law_natural_termination(runs: Seq<Seq<char>>, k: int)
    requires
        k >= 1,
    ensures
        canonical_count(runs, k + 1) > 0 ==> canonical_count(runs, k) > 0,
{
    let os1 = all_occs(runs, k + 1);
    let os0 = all_occs(runs, k);
    if canonical_count(runs, k + 1) > 0 {
        lemma_canonical_upto_positive(runs, k + 1, os1, os1.len() as int);
        let (i, j) = choose|i: int, j: int| 0 <= i < j < os1.len() && #[trigger] canonical_pair(runs, k + 1, os1[i], os1[j]);
        let oi = os1[i];
        let oj = os1[j];
        lemma_occs_shape(runs, k + 1, runs.len() as int);
        lemma_occ_order(runs, k + 1, i, j);
        let i0 = occs(runs, k, oi.0).len() + oi.1;
        let j0 = occs(runs, k, oj.0).len() + oj.1;
        lemma_occs_index(runs, k, runs.len() as int, oi.0, oi.1);
        lemma_occs_index(runs, k, runs.len() as int, oj.0, oj.1);
        if oi.0 < oj.0 {
            lemma_occs_len(runs, k, oi.0);
            lemma_occs_prefix_monotone(runs, k, oi.0 + 1, oj.0);
        }
        assert(i0 < j0);
        assert(kgram(runs, k, oi) =~= kgram(runs, k + 1, oi).subrange(0, k));
        assert(kgram(runs, k, oj) =~= kgram(runs, k + 1, oj).subrange(0, k));
        assert(canonical_pair(runs, k, os0[i0], os0[j0]));
        lemma_canonical_upto_positive(runs, k, os0, os0.len() as int);
    }
}

/// Where an occurrence of length k + 1 sits among the occurrences of length k:
/// the same (run, start).
pub open spec fn shorter_index(runs: Seq<Seq<char>>, k: int, i: int) -> int {
    let o = all_occs(runs, k + 1)[i];
    occs(runs, k, o.0).len() + o.1
}

/// Number of occurrences of length k before the image of the first `t`
/// occurrences of length k + 1.
pub open spec fn shorter_bound(runs: Seq<Seq<char>>, k: int, t: int) -> int {
    if t <= 0 {
        0
    } else {
        shorter_index(runs, k, t - 1) + 1
    }
}

proof fn lemma_shorter_index(runs: Seq<Seq<char>>, k: int, i: int)
    requires
        k >= 1,
        0 <= i < all_occs(runs, k + 1).len(),
    ensures
        0 <= shorter_index(runs, k, i) < all_occs(runs, k).len(),
        all_occs(runs, k)[shorter_index(runs, k, i)] == all_occs(runs, k + 1)[i],
        i > 0 ==> shorter_index(runs, k, i - 1) < shorter_index(runs, k, i),
{
    lemma_occs_shape(runs, k + 1, runs.len() as int);
    let o = all_occs(runs, k + 1)[i];
    lemma_occs_index(runs, k, runs.len() as int, o.0, o.1);
    if i > 0 {
        let q = all_occs(runs, k + 1)[i - 1];
        lemma_occ_order(runs, k + 1, i - 1, i);
        lemma_occs_index(runs, k, runs.len() as int, q.0, q.1);
        if q.0 < o.0 {
            lemma_occs_len(runs, k, q.0);
            lemma_occs_prefix_monotone(runs, k, q.0 + 1, o.0);
        }
    }
}

proof fn lemma_earlier_canonical_monotone(
    runs: Seq<Seq<char>>,
    k: int,
    os: Seq<(int, int)>,
    j: int,
    m: int,
    n: int,
)
    requires
        m <= n,
    ensures
        earlier_canonical(runs, k, os, j, m) <= earlier_canonical(runs, k, os, j, n),
    decreases n - m,
{
    if m < n {
        lemma_earlier_canonical_monotone(runs, k, os, j, m, n - 1);
    }
}

proof fn lemma_earlier_shorter(runs: Seq<Seq<char>>, k: int, j: int, t: int)
    requires
        k >= 1,
        0 <= j < all_occs(runs, k + 1).len(),
        0 <= t <= all_occs(runs, k + 1).len(),
    ensures
        earlier_canonical(runs, k + 1, all_occs(runs, k + 1), j, t) <= earlier_canonical(
            runs,
            k,
            all_occs(runs, k),
            shorter_index(runs, k, j),
            shorter_bound(runs, k, t),
        ),
    decreases t,
{
    if t > 0 {
        let os1 = all_occs(runs, k + 1);
        let os0 = all_occs(runs, k);
        let jj = shorter_index(runs, k, j);
        let x = shorter_index(runs, k, t - 1);
        lemma_earlier_shorter(runs, k, j, t - 1);
        lemma_shorter_index(runs, k, t - 1);
        lemma_shorter_index(runs, k, j);
        assert(shorter_bound(runs, k, t - 1) <= x);
        lemma_earlier_canonical_monotone(runs, k, os0, jj, shorter_bound(runs, k, t - 1), x);
        if canonical_pair(runs, k + 1, os1[t - 1], os1[j]) {
            lemma_occs_shape(runs, k + 1, runs.len() as int);
            assert(0 <= os1[t - 1].1 < occ_count(runs[os1[t - 1].0], k + 1));
            assert(0 <= os1[j].1 < occ_count(runs[os1[j].0], k + 1));
            assert(kgram(runs, k, os1[t - 1]) =~= kgram(runs, k + 1, os1[t - 1]).subrange(0, k));
            assert(kgram(runs, k, os1[j]) =~= kgram(runs, k + 1, os1[j]).subrange(0, k));
            assert(canonical_pair(runs, k, os0[x], os0[jj]));
        }
    }
}

proof fn lemma_canonical_shorter(runs: Seq<Seq<char>>, k: int, n: int)
    requires
        k >= 1,
        0 <= n <= all_occs(runs, k + 1).len(),
    ensures
        canonical_upto(runs, k + 1, all_occs(runs, k + 1), n) <= canonical_upto(
            runs,
            k,
            all_occs(runs, k),
            shorter_bound(runs, k, n),
        ),
    decreases n,
{
    if n > 0 {
        let os0 = all_occs(runs, k);
        let x = shorter_index(runs, k, n - 1);
        let b = shorter_bound(runs, k, n - 1);
        lemma_canonical_shorter(runs, k, n - 1);
        lemma_shorter_index(runs, k, n - 1);
        if n > 1 {
            lemma_shorter_index(runs, k, n - 2);
        }
        assert(b <= x);
        lemma_earlier_shorter(runs, k, n - 1, n - 1);
        lemma_earlier_canonical_monotone(runs, k, os0, x, b, x);
        lemma_canonical_upto_monotone(runs, k, os0, b, x);
    }
}

proof fn lemma_counts_step(runs: Seq<Seq<char>>, k: int)
    requires
        k >= 1,
    ensures
        canonical_count(runs, k + 1) <= canonical_count(runs, k),
{
    let n1 = all_occs(runs, k + 1).len() as int;
    let n0 = all_occs(runs, k).len() as int;
    lemma_canonical_shorter(runs, k, n1);
    if n1 > 0 {
        lemma_shorter_index(runs, k, n1 - 1);
    }
    lemma_canonical_upto_monotone(runs, k, all_occs(runs, k), shorter_bound(runs, k, n1), n0);
}

/// Longer recurrences are never more numerous: each canonical recurrence of
/// length k + 1 begins with one of length k, so the counts do not increase with K.
pub proof fn law_counts_do_not_increase(runs: Seq<Seq<char>>, k: int, k2: int)
    requires
        1 <= k <= k2,
    ensures
        canonical_count(runs, k2) <= canonical_count(runs, k),
    decreases k2 - k,
{
    if k2 > k {
        law_counts_do_not_increase(runs, k, k2 - 1);
        lemma_counts_step(runs, k2 - 1);
    }
}

/// Once a length has no canonical recurrence, no longer length has one.
pub proof fn law_no_recurrence_beyond(runs: Seq<Seq<char>>, k: int, k2: int)
    requires
        1 <= k <= k2,
        canonical_count(runs, k) == 0,
    ensures
        canonical_count(runs, k2) == 0,
    decreases k2 - k,
{
    if k2 > k {
        law_no_recurrence_beyond(runs, k, k2 - 1);
        law_natural_termination(runs, k2 - 1);
    }
}


proof fn lemma_earlier_canonical_bounded(runs: Seq<Seq<char>>, k: int, os: Seq<(int, int)>, j: int, n: int)
    requires
        n >= 0,
    ensures
        earlier_canonical(runs, k, os, j, n) <= n,
    decreases n,
{
    if n > 0 {
        lemma_earlier_canonical_bounded(runs, k, os, j, n - 1);
    }
}

/// Among n occurrences there are at most n * n canonical recurrences.
pub proof fn lemma_canonical_upto_bounded(runs: Seq<Seq<char>>, k: int, os: Seq<(int, int)>, n: int)
    requires
        n >= 0,
    ensures
        canonical_upto(runs, k, os, n) <= n * n,
    decreases n,
{
    if n > 0 {
        lemma_canonical_upto_bounded(runs, k, os, n - 1);
        lemma_earlier_canonical_bounded(runs, k, os, n - 1, n - 1);
        assert((n - 1) * (n - 1) + (n - 1) <= n * n) by (nonlinear_arith)
            requires
                n > 0,
        ;
    }
}

} // verus!
