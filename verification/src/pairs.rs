//! Pairs across groups: of the occurrences of one k-gram, split by their
//! predecessors into groups, the canonical recurrences are all pairs less the
//! pairs within one group.

use vstd::prelude::*;
use crate::kgrams::{
    all_occs, count_label, cross_label, cross_total_of, kgram, kgram_canonical, labels_ok,
    lemma_cross_total_of_canonical,
};

verus! {

/// Number of unordered pairs among `n` items.
pub open spec fn pairs(n: nat) -> nat
    decreases n,
{
    if n == 0 {
        0
    } else {
        pairs((n - 1) as nat) + (n - 1) as nat
    }
}

/// Sum of the group sizes.
pub open spec fn size_sum(s: Seq<u64>) -> nat
    decreases s.len(),
{
    if s.len() == 0 {
        0
    } else {
        size_sum(s.drop_last()) + s.last() as nat
    }
}

/// Pairs within a group, summed over the groups.
pub open spec fn within_pairs(s: Seq<u64>) -> nat
    decreases s.len(),
{
    if s.len() == 0 {
        0
    } else {
        within_pairs(s.drop_last()) + pairs(s.last() as nat)
    }
}

/// Pairs whose members lie in two different groups.
pub open spec fn across_pairs(s: Seq<u64>) -> nat
    decreases s.len(),
{
    if s.len() == 0 {
        0
    } else {
        across_pairs(s.drop_last()) + size_sum(s.drop_last()) * (s.last() as nat)
    }
}

/// `pairs` in closed form.
pub proof fn lemma_pairs_closed(n: nat)
    ensures
        2 * pairs(n) == n * (n - 1),
    decreases n,
{
    if n > 0 {
        let m = (n - 1) as nat;
        lemma_pairs_closed(m);
        assert(pairs(n) == pairs(m) + m);
        assert(m * (m - 1) + 2 * m == n * (n - 1)) by (nonlinear_arith)
            requires
                m + 1 == n,
        ;
    } else {
        assert(n * (n - 1) == 0) by (nonlinear_arith)
            requires
                n == 0,
        ;
    }
}

/// The pairs of two joined sets: those within each and those across.
pub proof fn lemma_pairs_add(a: nat, b: nat)
    ensures
        pairs(a + b) == pairs(a) + pairs(b) + a * b,
    decreases b,
{
    if b > 0 {
        let c = (b - 1) as nat;
        lemma_pairs_add(a, c);
        assert(pairs(a + b) == pairs(a + c) + (a + c));
        assert(pairs(b) == pairs(c) + c);
        assert(a * c + a == a * b) by (nonlinear_arith)
            requires
                c + 1 == b,
        ;
    } else {
        assert(a * b == 0) by (nonlinear_arith)
            requires
                b == 0,
        ;
    }
}

proof fn lemma_pairs_monotone(a: nat, b: nat)
    requires
        a <= b,
    ensures
        pairs(a) <= pairs(b),
{
    lemma_pairs_add(a, (b - a) as nat);
}

/// Every pair of items lies either within one group or across two groups.
pub proof fn law_cross_group_pairs(s: Seq<u64>)
    ensures
        across_pairs(s) + within_pairs(s) == pairs(size_sum(s)),
    decreases s.len(),
{
    if s.len() > 0 {
        law_cross_group_pairs(s.drop_last());
        lemma_pairs_add(size_sum(s.drop_last()), s.last() as nat);
    }
}

proof fn lemma_size_sum_prefix(s: Seq<u64>, i: int)
    requires
        0 <= i <= s.len(),
    ensures
        size_sum(s.take(i)) <= size_sum(s),
    decreases s.len(),
{
    if i < s.len() {
        assert(s.take(i) =~= s.drop_last().take(i));
        lemma_size_sum_prefix(s.drop_last(), i);
    } else {
        assert(s.take(i) =~= s);
    }
}

/// Raising one group by one item adds one item and, within that group, as
/// many pairs as it had items.
pub proof fn lemma_sizes_update(s: Seq<u64>, g: int, x: u64)
    requires
        0 <= g < s.len(),
        x == s[g] + 1,
    ensures
        size_sum(s.update(g, x)) == size_sum(s) + 1,
        within_pairs(s.update(g, x)) == within_pairs(s) + s[g],
    decreases s.len(),
{
    let t = s.update(g, x);
    if g == s.len() - 1 {
        assert(t.drop_last() =~= s.drop_last());
    } else {
        assert(t.drop_last() =~= s.drop_last().update(g, x));
        lemma_sizes_update(s.drop_last(), g, x);
    }
}

/// Groups that are all empty hold no items and no pairs.
pub proof fn lemma_sizes_empty(s: Seq<u64>)
    requires
        forall|i: int| 0 <= i < s.len() ==> s[i] == 0,
    ensures
        size_sum(s) == 0,
        within_pairs(s) == 0,
        across_pairs(s) == 0,
    decreases s.len(),
{
    if s.len() > 0 {
        lemma_sizes_empty(s.drop_last());
    }
}

/// Number of pairs across groups: all pairs of items less the pairs within a group.
pub fn count_cross_group_pairs(group_sizes: &[u64]) -> (res: u64)
    requires
        size_sum(group_sizes@) <= u64::MAX,
        size_sum(group_sizes@) * (size_sum(group_sizes@) - 1) <= u64::MAX,
        size_sum(group_sizes@) >= 2 ==> forall|i: int|
            0 <= i < group_sizes@.len() ==> #[trigger] group_sizes@[i] >= 1,
    ensures
        res == pairs(size_sum(group_sizes@)) - within_pairs(group_sizes@),
        res == across_pairs(group_sizes@),
{
    let ghost s = group_sizes@;
    let n = group_sizes.len();
    proof {
        law_cross_group_pairs(s);
    }
    let mut total: u64 = 0;
    let mut i: usize = 0;
    while i < n
        invariant
            n == s.len(),
            s == group_sizes@,
            i <= n,
            total == size_sum(s.take(i as int)),
            size_sum(s) <= u64::MAX,
        decreases n - i,
    {
        proof {
            assert(s.take(i as int + 1).drop_last() =~= s.take(i as int));
            lemma_size_sum_prefix(s, i as int + 1);
        }
        total = total + group_sizes[i];
        i += 1;
    }
    proof {
        assert(s.take(n as int) =~= s);
    }
    if total < 2 {
        proof {
            reveal_with_fuel(pairs, 2);
            assert(pairs(total as nat) == 0);
        }
        return 0;
    }
    proof {
        lemma_pairs_closed(total as nat);
    }
    let total_pairs = total * (total - 1) / 2;
    let mut within: u64 = 0;
    let mut i: usize = 0;
    while i < n
        invariant
            n == s.len(),
            s == group_sizes@,
            i <= n,
            total == size_sum(s),
            total >= 2,
            total * (total - 1) <= u64::MAX,
            total_pairs == pairs(total as nat),
            forall|m: int| 0 <= m < s.len() ==> #[trigger] s[m] >= 1,
            within == within_pairs(s.take(i as int)),
        decreases n - i,
    {
        let ghost t = s.take(i as int + 1);
        proof {
            assert(t.drop_last() =~= s.take(i as int));
            lemma_size_sum_prefix(s, i as int + 1);
            law_cross_group_pairs(t);
            lemma_pairs_monotone(size_sum(t), total as nat);
            lemma_pairs_closed(s[i as int] as nat);
        }
        let g = group_sizes[i];
        assert(g * (g - 1) <= total * (total - 1)) by (nonlinear_arith)
            requires
                1 <= g <= total,
        ;
        within = within + g * (g - 1) / 2;
        i += 1;
    }
    proof {
        assert(s.take(n as int) =~= s);
    }
    total_pairs - within
}

// ── Groups given by labels ───────────────────────────────────────────────

/// Number of indices below `n` with k-label `v` and g-label `w`.
pub open spec fn count_both(kl: Seq<usize>, gl: Seq<usize>, v: usize, w: int, n: int) -> nat
    decreases n,
{
    if n <= 0 {
        0
    } else {
        count_both(kl, gl, v, w, n - 1) + if kl[n - 1] == v && gl[n - 1] == w {
            1nat
        } else {
            0nat
        }
    }
}

/// Sizes of the g-groups among the indices below `n` with k-label `v`: one
/// entry per g-label below `ng`.
pub open spec fn group_sizes(kl: Seq<usize>, gl: Seq<usize>, v: usize, ng: nat, n: int) -> Seq<u64> {
    Seq::new(ng, |w: int| count_both(kl, gl, v, w, n) as u64)
}

proof fn lemma_count_both_bounded(kl: Seq<usize>, gl: Seq<usize>, v: usize, w: int, n: int)
    requires
        n >= 0,
    ensures
        count_both(kl, gl, v, w, n) <= n,
    decreases n,
{
    if n > 0 {
        lemma_count_both_bounded(kl, gl, v, w, n - 1);
    }
}

/// The earlier indices sharing the k-label of `m` either share its g-label or not.
proof fn lemma_cross_label_split(kl: Seq<usize>, gl: Seq<usize>, m: int, t: int)
    requires
        0 <= m < kl.len(),
    ensures
        cross_label(kl, gl, m, t) + count_both(kl, gl, kl[m], gl[m] as int, t) == count_label(
            kl,
            kl[m],
            t,
        ),
    decreases t,
{
    if t > 0 {
        lemma_cross_label_split(kl, gl, m, t - 1);
    }
}

proof fn lemma_group_sizes_step(kl: Seq<usize>, gl: Seq<usize>, v: usize, ng: nat, n: int)
    requires
        0 < n <= kl.len(),
        n <= u64::MAX,
        gl[n - 1] < ng,
    ensures
        kl[n - 1] != v ==> group_sizes(kl, gl, v, ng, n) =~= group_sizes(kl, gl, v, ng, n - 1),
        kl[n - 1] == v ==> group_sizes(kl, gl, v, ng, n) =~= group_sizes(kl, gl, v, ng, n - 1).update(
            gl[n - 1] as int,
            (group_sizes(kl, gl, v, ng, n - 1)[gl[n - 1] as int] + 1) as u64,
        ),
{
    let g = gl[n - 1] as int;
    lemma_count_both_bounded(kl, gl, v, g, n - 1);
}

/// Over labels, the cross count of a k-label is the number of pairs across
/// the g-groups of its indices.
pub proof fn lemma_cross_total_of_groups(kl: Seq<usize>, gl: Seq<usize>, v: usize, ng: nat, n: int)
    requires
        0 <= n <= kl.len(),
        n <= u64::MAX,
        forall|i: int| 0 <= i < n ==> #[trigger] gl[i] < ng,
    ensures
        size_sum(group_sizes(kl, gl, v, ng, n)) == count_label(kl, v, n),
        cross_total_of(kl, gl, v, n) == across_pairs(group_sizes(kl, gl, v, ng, n)),
    decreases n,
{
    let s = group_sizes(kl, gl, v, ng, n);
    if n == 0 {
        lemma_sizes_empty(s);
    } else {
        lemma_cross_total_of_groups(kl, gl, v, ng, n - 1);
        let p = group_sizes(kl, gl, v, ng, n - 1);
        assert(gl[n - 1] < ng);
        lemma_group_sizes_step(kl, gl, v, ng, n);
        if kl[n - 1] == v {
            let g = gl[n - 1] as int;
            lemma_count_both_bounded(kl, gl, v, g, n - 1);
            lemma_sizes_update(p, g, (p[g] + 1) as u64);
            law_cross_group_pairs(p);
            law_cross_group_pairs(s);
            lemma_cross_label_split(kl, gl, n - 1, n - 1);
            assert(pairs(size_sum(p) + 1) == pairs(size_sum(p)) + size_sum(p));
        }
    }
}

/// For each k-gram, the canonical recurrences are all pairs of its
/// occurrences less the pairs within one predecessor group; the groups are
/// those of labels that tell k-gram and predecessor apart.
pub proof fn law_canonical_by_groups(
    runs: Seq<Seq<char>>,
    k: int,
    kl: Seq<usize>,
    gl: Seq<usize>,
    ng: nat,
    j0: int,
)
    requires
        labels_ok(runs, k, kl, gl),
        0 <= j0 < kl.len(),
        kl.len() <= u64::MAX,
        forall|i: int| 0 <= i < gl.len() ==> #[trigger] gl[i] < ng,
    ensures
        ({
            let s = group_sizes(kl, gl, kl[j0], ng, kl.len() as int);
            &&& size_sum(s) == count_label(kl, kl[j0], kl.len() as int)
            &&& kgram_canonical(runs, k, kgram(runs, k, all_occs(runs, k)[j0])) == pairs(
                size_sum(s),
            ) - within_pairs(s)
        }),
{
    let n = kl.len() as int;
    lemma_cross_total_of_canonical(runs, k, kl, gl, j0, n);
    lemma_cross_total_of_groups(kl, gl, kl[j0], ng, n);
    law_cross_group_pairs(group_sizes(kl, gl, kl[j0], ng, n));
}

} // verus!
