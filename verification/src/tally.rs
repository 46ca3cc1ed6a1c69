//! Counting how often each key of a small key space occurs in a sequence.

use vstd::prelude::*;

verus! {

/// Number of entries of `keys` equal to `k`.
pub open spec fn occurrences(keys: Seq<nat>, k: nat) -> nat
    decreases keys.len(),
{
    if keys.len() == 0 {
        0
    } else {
        occurrences(keys.drop_last(), k) + if keys.last() == k {
            1nat
        } else {
            0nat
        }
    }
}

/// Sum of the occurrence counts of the keys `0..width`.
pub open spec fn occurrences_below(keys: Seq<nat>, width: nat) -> nat
    decreases width,
{
    if width == 0 {
        0
    } else {
        occurrences_below(keys, (width - 1) as nat) + occurrences(keys, (width - 1) as nat)
    }
}

/// Every key lies in `0..width`.
pub open spec fn keys_below(keys: Seq<nat>, width: nat) -> bool {
    forall|i: int| 0 <= i < keys.len() ==> #[trigger] keys[i] < width
}

/// A key never occurs more often than the sequence is long.
pub proof fn lemma_occurrences_bounded(keys: Seq<nat>, k: nat)
    ensures
        occurrences(keys, k) <= keys.len(),
    decreases keys.len(),
{
    if keys.len() > 0 {
        lemma_occurrences_bounded(keys.drop_last(), k);
    }
}

/// Appending one key adds one occurrence of that key and none of any other.
pub proof fn lemma_occurrences_push(keys: Seq<nat>, x: nat, k: nat)
    ensures
        occurrences(keys.push(x), k) == occurrences(keys, k) + if x == k {
            1nat
        } else {
            0nat
        },
{
    assert(keys.push(x).drop_last() =~= keys);
}

proof fn lemma_occurrences_below_push(keys: Seq<nat>, x: nat, width: nat)
    ensures
        occurrences_below(keys.push(x), width) == occurrences_below(keys, width) + if x < width {
            1nat
        } else {
            0nat
        },
    decreases width,
{
    if width > 0 {
        lemma_occurrences_below_push(keys, x, (width - 1) as nat);
        lemma_occurrences_push(keys, x, (width - 1) as nat);
    }
}

/// Law: a tally over a key space that holds every key accounts for every entry
/// exactly once: the counts of all keys sum to the number of entries.
pub proof fn law_tally_total(keys: Seq<nat>, width: nat)
    requires
        keys_below(keys, width),
    ensures
        occurrences_below(keys, width) == keys.len(),
    decreases keys.len(),
{
    if keys.len() == 0 {
        assert(occurrences_below(keys, width) == 0) by {
            lemma_zero_below(keys, width);
        }
    } else {
        let ks = keys.drop_last();
        assert(keys_below(ks, width)) by {
            assert forall|i: int| 0 <= i < ks.len() implies #[trigger] ks[i] < width by {
                assert(ks[i] == keys[i]);
            }
        }
        law_tally_total(ks, width);
        assert(keys.last() == keys[keys.len() - 1]);
        lemma_occurrences_below_push(ks, keys.last(), width);
        assert(ks.push(keys.last()) =~= keys);
    }
}

proof fn lemma_zero_below(keys: Seq<nat>, width: nat)
    requires
        keys.len() == 0,
    ensures
        occurrences_below(keys, width) == 0,
    decreases width,
{
    if width > 0 {
        lemma_zero_below(keys, (width - 1) as nat);
    }
}

/// The keys of a vector of indices, as natural numbers.
pub open spec fn key_view(keys: Seq<usize>) -> Seq<nat> {
    keys.map_values(|x: usize| x as nat)
}

/// Count, for each key in `0..width`, how many entries of `keys` equal it.
pub fn tally(keys: &Vec<usize>, width: usize) -> (counts: Vec<usize>)
    requires
        keys_below(key_view(keys@), width as nat),
    ensures
        counts@.len() == width,
        forall|k: int| 0 <= k < width ==> #[trigger] counts@[k] == occurrences(key_view(keys@), k as nat),
{
    let mut counts: Vec<usize> = Vec::new();
    let mut w: usize = 0;
    while w < width
        invariant
            w <= width,
            counts@.len() == w,
            forall|k: int| 0 <= k < w ==> #[trigger] counts@[k] == 0,
        decreases width - w,
    {
        counts.push(0);
        w += 1;
    }
    let mut i: usize = 0;
    while i < keys.len()
        invariant
            i <= keys.len(),
            counts@.len() == width,
            keys_below(key_view(keys@), width as nat),
            forall|k: int| 0 <= k < width ==> #[trigger] counts@[k] == occurrences(key_view(keys@.take(i as int)), k as nat),
        decreases keys.len() - i,
    {
        let key = keys[i];
        assert(key_view(keys@)[i as int] == key as nat);
        assert(key_view(keys@.take(i as int + 1)) =~= key_view(keys@.take(i as int)).push(key as nat));
        proof {
            assert forall|k: int| 0 <= k < width implies #[trigger] occurrences(key_view(keys@.take(i as int + 1)), k as nat)
                == occurrences(key_view(keys@.take(i as int)), k as nat) + if key == k { 1nat } else { 0nat } by {
                lemma_occurrences_push(key_view(keys@.take(i as int)), key as nat, k as nat);
            }
            lemma_occurrences_bounded(key_view(keys@.take(i as int)), key as nat);
        }
        let c = counts[key];
        counts.set(key, c + 1);
        i += 1;
    }
    assert(keys@.take(keys@.len() as int) =~= keys@);
    counts
}

} // verus!
