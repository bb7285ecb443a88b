//! The order in which the dictionaries of a directory are opened: by the
//! bytes of their sub-directory names.
use std::cmp::Ordering;
use vstd::multiset::Multiset;
use vstd::prelude::*;
use vstd::seq_lib::{lemma_multiset_commutative, to_multiset_build, to_multiset_remove};

use crate::collation::{lemma_lex_at_flip, lemma_lex_at_trans, lex, lex_at};

verus! {

broadcast use {vstd::multiset::group_multiset_axioms, vstd::seq_lib::group_to_multiset_ensures};

/// Compares two byte strings lexicographically.
pub fn bytes_cmp(a: &[u8], b: &[u8]) -> (r: Ordering)
    ensures
        r == lex(a@, b@),
{
    let mut i: usize = 0;
    while i < a.len() && i < b.len() && a[i] == b[i]
        invariant
            0 <= i <= a@.len(),
            i <= b@.len(),
            lex_at(a@, b@, 0) == lex_at(a@, b@, i as int),
        decreases a@.len() - i,
    {
        i = i + 1;
    }
    if i >= a.len() && i >= b.len() {
        Ordering::Equal
    } else if i >= a.len() {
        Ordering::Less
    } else if i >= b.len() {
        Ordering::Greater
    } else if a[i] < b[i] {
        Ordering::Less
    } else {
        Ordering::Greater
    }
}

/// The positions `0..n`.
pub open spec fn positions(n: nat) -> Seq<usize> {
    Seq::new(n, |i: int| i as usize)
}

/// The positions of `names` in ascending order of the names' bytes: a
/// rearrangement of `0..names.len()` under which the names do not descend.
pub fn name_order(names: &Vec<Vec<u8>>) -> (r: Vec<usize>)
    ensures
        r@.to_multiset() == positions(names@.len()).to_multiset(),
        forall|k: int| 0 <= k < r@.len() ==> #[trigger] r@[k] < names@.len(),
        forall|a: int, b: int| 0 <= a < b < r@.len() ==> lex(names@[r@[a] as int]@, names@[r@[b] as int]@) != Ordering::Greater,
{
    let n = names.len();
    let ghost full = positions(n as nat);
    let mut rem: Vec<usize> = Vec::new();
    let mut j: usize = 0;
    while j < n
        invariant
            0 <= j <= n,
            n == names@.len(),
            full == positions(n as nat),
            rem@ == full.subrange(0, j as int),
        decreases n - j,
    {
        rem.push(j);
        j = j + 1;
    }
    assert(rem@ =~= full);
    let mut out: Vec<usize> = Vec::new();
    proof {
        lemma_multiset_commutative(out@, rem@);
        assert(out@.to_multiset() =~= Multiset::empty());
    }
    while rem.len() > 0
        invariant
            n == names@.len(),
            full == positions(n as nat),
            out@.to_multiset().add(rem@.to_multiset()) == full.to_multiset(),
            forall|k: int| 0 <= k < out@.len() ==> #[trigger] out@[k] < n,
            forall|k: int| 0 <= k < rem@.len() ==> #[trigger] rem@[k] < n,
            forall|a: int, b: int| 0 <= a < b < out@.len() ==> lex(names@[out@[a] as int]@, names@[out@[b] as int]@) != Ordering::Greater,
            forall|a: int, b: int| 0 <= a < out@.len() && 0 <= b < rem@.len() ==> lex(names@[out@[a] as int]@, names@[rem@[b] as int]@) != Ordering::Greater,
        decreases rem@.len(),
    {
        let mut m: usize = 0;
        let mut k: usize = 1;
        proof {
            lemma_lex_at_flip(names@[rem@[0] as int]@, names@[rem@[0] as int]@, 0);
        }
        while k < rem.len()
            invariant
                n == names@.len(),
                0 <= m < k <= rem@.len(),
                forall|q: int| 0 <= q < rem@.len() ==> #[trigger] rem@[q] < n,
                forall|q: int| 0 <= q < k ==> lex(names@[rem@[m as int] as int]@, names@[rem@[q] as int]@) != Ordering::Greater,
            decreases rem@.len() - k,
        {
            let c = bytes_cmp(names[rem[m]].as_slice(), names[rem[k]].as_slice());
            if matches!(c, Ordering::Greater) {
                proof {
                    let nk = names@[rem@[k as int] as int]@;
                    let nm = names@[rem@[m as int] as int]@;
                    lemma_lex_at_flip(nm, nk, 0);
                    assert forall|q: int| 0 <= q < k + 1 implies lex(nk, names@[rem@[q] as int]@) != Ordering::Greater by {
                        if q < k {
                            lemma_lex_at_trans(nk, nm, names@[rem@[q] as int]@, 0);
                        } else {
                            lemma_lex_at_flip(nk, nk, 0);
                        }
                    }
                }
                m = k;
            }
            k = k + 1;
        }
        let ghost r0 = rem@;
        let ghost o0 = out@;
        let v = rem.remove(m);
        out.push(v);
        proof {
            to_multiset_remove(r0, m as int);
            to_multiset_build(o0, v);
            assert(out@ =~= o0.push(v));
            assert(rem@ =~= r0.remove(m as int));
            assert(r0.to_multiset().count(v) > 0);
            assert(out@.to_multiset().add(rem@.to_multiset()) =~= o0.to_multiset().add(r0.to_multiset()));
            assert forall|a: int, b: int| 0 <= a < out@.len() && 0 <= b < rem@.len() implies lex(names@[out@[a] as int]@, names@[rem@[b] as int]@) != Ordering::Greater by {
                let bb = if b < m { b } else { b + 1 };
                assert(rem@[b] == r0[bb]);
                if a < o0.len() {
                    assert(out@[a] == o0[a]);
                }
            }
            assert forall|a: int, b: int| 0 <= a < b < out@.len() implies lex(names@[out@[a] as int]@, names@[out@[b] as int]@) != Ordering::Greater by {
                if b == o0.len() {
                    assert(out@[a] == o0[a]);
                    assert(out@[b] == r0[m as int]);
                } else {
                    assert(out@[a] == o0[a] && out@[b] == o0[b]);
                }
            }
        }
    }
    proof {
        assert(rem@.to_multiset() =~= Multiset::empty());
        assert(out@.to_multiset().add(Multiset::empty()) =~= out@.to_multiset());
    }
    out
}

} // verus!
