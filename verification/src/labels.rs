//! Dense labelling of pairs: equal pairs get equal labels, different pairs
//! different labels.

use vstd::prelude::*;
use std::collections::HashMap;

verus! {

broadcast use vstd::std_specs::hash::group_hash_axioms;

/// The number that encodes the pair (a, b).
pub open spec fn pair_key(a: usize, b: u32) -> int {
    a as int * 0x1_0000_0000 + b as int
}

/// Distinct pairs have distinct keys.
pub proof fn lemma_pair_key_injective(a1: usize, b1: u32, a2: usize, b2: u32)
    ensures
        pair_key(a1, b1) == pair_key(a2, b2) <==> (a1 == a2 && b1 == b2),
{
    if a1 < a2 {
        assert(a1 as int * 0x1_0000_0000 + 0x1_0000_0000 <= a2 as int * 0x1_0000_0000) by (nonlinear_arith)
            requires
                a1 < a2,
        ;
    } else if a2 < a1 {
        assert(a2 as int * 0x1_0000_0000 + 0x1_0000_0000 <= a1 as int * 0x1_0000_0000) by (nonlinear_arith)
            requires
                a2 < a1,
        ;
    }
}

/// Labels agree exactly where the pairs agree.
pub open spec fn labels_pairs(a: Seq<usize>, b: Seq<u32>, out: Seq<usize>, n: int) -> bool {
    &&& forall|i: int, j: int|
        0 <= i < n && 0 <= j < n ==> (#[trigger] out[i] == #[trigger] out[j] <==> (a[i] == a[j]
            && b[i] == b[j]))
}

/// Label the pairs (a[i], b[i]): equal pairs get equal labels and different
/// pairs different labels. Labels are dense: all lie below the returned count,
/// which is at most the number of pairs.
pub fn pair_labels(a: &Vec<usize>, b: &Vec<u32>) -> (res: (Vec<usize>, usize))
    requires
        a@.len() == b@.len(),
    ensures
        res.0@.len() == a@.len(),
        labels_pairs(a@, b@, res.0@, a@.len() as int),
        forall|i: int| 0 <= i < a@.len() ==> #[trigger] res.0@[i] < res.1,
        res.1 <= a@.len(),
{
    let mut dict: HashMap<u128, usize> = HashMap::new();
    let mut out: Vec<usize> = Vec::new();
    let mut next: usize = 0;
    let mut idx: usize = 0;
    while idx < a.len()
        invariant
            a@.len() == b@.len(),
            idx <= a@.len(),
            out@.len() == idx,
            next <= idx,
            forall|i: int| 0 <= i < idx ==> #[trigger] out@[i] < next,
            forall|i: int|
                0 <= i < idx ==> dict@.contains_key(#[trigger] pair_key(a@[i], b@[i]) as u128)
                    && dict@[pair_key(a@[i], b@[i]) as u128] == out@[i],
            forall|key: u128|
                #[trigger] dict@.contains_key(key) ==> exists|i: int|
                    0 <= i < idx && pair_key(a@[i], b@[i]) as u128 == key,
            labels_pairs(a@, b@, out@, idx as int),
        decreases a@.len() - idx,
    {
        let x: usize = a[idx];
        let y: u32 = b[idx];
        let key: u128 = (x as u128) * 0x1_0000_0000u128 + (y as u128);
        assert(key == pair_key(x, y) as u128);
        let ghost old_dict = dict@;
        let ghost old_out = out@;
        let label: usize;
        match dict.get(&key) {
            Some(v) => {
                label = *v;
                proof {
                    let w = choose|w: int| 0 <= w < idx && pair_key(a@[w], b@[w]) as u128 == key;
                    lemma_pair_key_injective(a@[w], b@[w], x, y);
                    assert(out@[w] == label);
                    assert forall|i: int| 0 <= i < idx implies (out@[i] == label <==> (a@[i] == x
                        && b@[i] == y)) by {
                        assert(out@[i] == out@[w] <==> (a@[i] == a@[w] && b@[i] == b@[w]));
                    }
                }
            },
            None => {
                label = next;
                dict.insert(key, next);
                next = next + 1;
                proof {
                    assert forall|i: int| 0 <= i < idx implies !(a@[i] == x && b@[i] == y) by {
                        if a@[i] == x && b@[i] == y {
                            assert(old_dict.contains_key(pair_key(a@[i], b@[i]) as u128));
                        }
                    }
                }
            },
        }
        out.push(label);
        proof {
            let ni = idx as int;
            assert(a@[ni] == x && b@[ni] == y);
            assert forall|i: int, j: int|
                0 <= i < ni + 1 && 0 <= j < ni + 1 implies (#[trigger] out@[i] == #[trigger] out@[j]
                <==> (a@[i] == a@[j] && b@[i] == b@[j])) by {
                if i < ni && j < ni {
                    assert(out@[i] == old_out[i] && out@[j] == old_out[j]);
                    assert(old_out[i] == old_out[j] <==> (a@[i] == a@[j] && b@[i] == b@[j]));
                } else if i < ni {
                    assert(out@[i] == old_out[i]);
                } else if j < ni {
                    assert(out@[j] == old_out[j]);
                }
            }
            assert forall|i: int|
                0 <= i < ni + 1 implies dict@.contains_key(#[trigger] pair_key(a@[i], b@[i]) as u128)
                && dict@[pair_key(a@[i], b@[i]) as u128] == out@[i] by {
                if i < ni {
                    assert(out@[i] == old_out[i]);
                    assert(old_dict.contains_key(pair_key(a@[i], b@[i]) as u128));
                    if !(old_dict.contains_key(key)) {
                        lemma_pair_key_injective(a@[i], b@[i], x, y);
                    }
                }
            }
            assert forall|k2: u128| #[trigger] dict@.contains_key(k2) implies exists|i: int|
                0 <= i < ni + 1 && pair_key(a@[i], b@[i]) as u128 == k2 by {
                if k2 != key {
                    assert(old_dict.contains_key(k2));
                    let w = choose|w: int| 0 <= w < ni && pair_key(a@[w], b@[w]) as u128 == k2;
                    assert(0 <= w < ni + 1 && pair_key(a@[w], b@[w]) as u128 == k2);
                } else {
                    assert(pair_key(a@[ni], b@[ni]) as u128 == k2);
                }
            }
        }
        idx = idx + 1;
    }
    (out, next)
}

} // verus!
