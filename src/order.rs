//! Lexicographic order on key sequences, and a sort that is proved to
//! produce the unique strictly increasing arrangement of distinct keys.

use vstd::prelude::*;

verus! {

/// Strict lexicographic order; a proper prefix comes first.
pub open spec fn seq_lt(a: Seq<u64>, b: Seq<u64>) -> bool
    decreases a.len(),
{
    if a.len() == 0 {
        b.len() > 0
    } else if b.len() == 0 {
        false
    } else if a[0] != b[0] {
        a[0] < b[0]
    } else {
        seq_lt(a.drop_first(), b.drop_first())
    }
}

pub proof fn lemma_seq_lt_irreflexive(a: Seq<u64>)
    ensures
        !seq_lt(a, a),
    decreases a.len(),
{
    if a.len() > 0 {
        lemma_seq_lt_irreflexive(a.drop_first());
    }
}

pub proof fn lemma_seq_lt_asymmetric(a: Seq<u64>, b: Seq<u64>)
    requires
        seq_lt(a, b),
    ensures
        !seq_lt(b, a),
    decreases a.len(),
{
    if a.len() > 0 && b.len() > 0 && a[0] == b[0] {
        lemma_seq_lt_asymmetric(a.drop_first(), b.drop_first());
    }
}

pub proof fn lemma_seq_lt_transitive(a: Seq<u64>, b: Seq<u64>, c: Seq<u64>)
    requires
        seq_lt(a, b),
        seq_lt(b, c),
    ensures
        seq_lt(a, c),
    decreases a.len(),
{
    if a.len() > 0 && b.len() > 0 && c.len() > 0 && a[0] == b[0] && b[0] == c[0] {
        lemma_seq_lt_transitive(a.drop_first(), b.drop_first(), c.drop_first());
    }
}

pub proof fn lemma_seq_lt_total(a: Seq<u64>, b: Seq<u64>)
    requires
        a != b,
    ensures
        seq_lt(a, b) || seq_lt(b, a),
    decreases a.len(),
{
    if a.len() > 0 && b.len() > 0 && a[0] == b[0] {
        if a.drop_first() == b.drop_first() {
            assert(a =~= seq![a[0]] + a.drop_first());
            assert(b =~= seq![b[0]] + b.drop_first());
        }
        lemma_seq_lt_total(a.drop_first(), b.drop_first());
    } else if a.len() == 0 && b.len() == 0 {
        assert(a =~= b);
    }
}

/// Compares two key sequences in the order `seq_lt`.
pub fn key_lt(a: &Vec<u64>, b: &Vec<u64>) -> (r: bool)
    ensures
        r == seq_lt(a@, b@),
{
    let mut i: usize = 0;
    assert(a@.skip(0) =~= a@);
    assert(b@.skip(0) =~= b@);
    while i < a.len() && i < b.len() && a[i] == b[i]
        invariant
            i <= a.len(),
            i <= b.len(),
            seq_lt(a@, b@) == seq_lt(a@.skip(i as int), b@.skip(i as int)),
        decreases a.len() - i,
    {
        assert(a@.skip(i as int).drop_first() =~= a@.skip(i + 1));
        assert(b@.skip(i as int).drop_first() =~= b@.skip(i + 1));
        i = i + 1;
    }
    if i == b.len() {
        false
    } else if i == a.len() {
        true
    } else {
        a[i] < b[i]
    }
}

/// The keys, taken in the order given by `perm`, rise strictly.
pub open spec fn rises_by(keys: Seq<Seq<u64>>, perm: Seq<usize>) -> bool {
    forall|i: int, j: int|
        0 <= i < j < perm.len() ==> seq_lt(#[trigger] keys[perm[i] as int], #[trigger] keys[perm[j] as int])
}

/// `perm` lists each index of `0..n` once.
pub open spec fn is_arrangement(perm: Seq<usize>, n: nat) -> bool {
    &&& perm.len() == n
    &&& forall|i: int| 0 <= i < perm.len() ==> perm[i] < n
    &&& forall|k: usize| k < n ==> #[trigger] perm.contains(k)
}

/// No two keys are equal.
pub open spec fn keys_distinct(keys: Seq<Seq<u64>>) -> bool {
    forall|i: int, j: int| 0 <= i < keys.len() && 0 <= j < keys.len() && i != j ==> keys[i] != keys[j]
}

/// Returns the indices of `keys` in increasing key order.
pub fn sorted_order(keys: &Vec<Vec<u64>>) -> (perm: Vec<usize>)
    requires
        keys_distinct(keys@.map_values(|k: Vec<u64>| k@)),
    ensures
        is_arrangement(perm@, keys@.len() as nat),
        rises_by(keys@.map_values(|k: Vec<u64>| k@), perm@),
{
    let ghost ks = keys@.map_values(|k: Vec<u64>| k@);
    let mut perm: Vec<usize> = Vec::new();
    let mut k: usize = 0;
    while k < keys.len()
        invariant
            k <= keys.len(),
            ks == keys@.map_values(|k: Vec<u64>| k@),
            keys_distinct(ks),
            is_arrangement(perm@, k as nat),
            rises_by(ks, perm@),
        decreases keys.len() - k,
    {
        let mut p: usize = 0;
        while p < perm.len() && key_lt(&keys[perm[p]], &keys[k])
            invariant
                p <= perm.len(),
                perm.len() == k,
                k < keys.len(),
                ks == keys@.map_values(|k: Vec<u64>| k@),
                forall|i: int| 0 <= i < perm.len() ==> perm[i] < k,
                forall|i: int| 0 <= i < p ==> seq_lt(#[trigger] ks[perm[i] as int], ks[k as int]),
            decreases perm.len() - p,
        {
            p = p + 1;
        }
        proof {
            if p < perm.len() {
                let j = perm[p as int];
                assert(ks[j as int] != ks[k as int]);
                lemma_seq_lt_total(ks[j as int], ks[k as int]);
                assert(seq_lt(ks[k as int], ks[j as int]));
                assert forall|i: int| p <= i < perm.len() implies seq_lt(ks[k as int], #[trigger] ks[perm[i] as int]) by {
                    if i > p {
                        lemma_seq_lt_transitive(ks[k as int], ks[j as int], ks[perm[i] as int]);
                    }
                }
            }
        }
        let ghost before = perm@;
        perm.insert(p, k);
        proof {
            assert(perm@ == before.insert(p as int, k));
            assert forall|i: int, j: int| 0 <= i < j < perm@.len() implies seq_lt(
                #[trigger] ks[perm@[i] as int],
                #[trigger] ks[perm@[j] as int],
            ) by {
                if j < p {
                } else if j == p {
                } else if i < p {
                    lemma_seq_lt_transitive(ks[perm@[i] as int], ks[k as int], ks[perm@[j] as int]);
                } else if i == p {
                } else {
                    assert(perm@[i] == before[i - 1] && perm@[j] == before[j - 1]);
                }
            }
            assert forall|q: usize| q < k + 1 implies #[trigger] perm@.contains(q) by {
                if q == k {
                    assert(perm@[p as int] == k);
                } else {
                    assert(before.contains(q));
                    let w = choose|w: int| 0 <= w < before.len() && before[w] == q;
                    if w < p {
                        assert(perm@[w] == q);
                    } else {
                        assert(perm@[w + 1] == q);
                    }
                }
            }
        }
        k = k + 1;
    }
    perm
}

} // verus!
