//! Ranking: the best `k` entries of a list under a total preorder.
//!
//! Several analyses list their findings best first and keep only the top
//! few. Each kind of finding says how two of them compare through
//! [`Ranked`]; [`top_ranked`] sorts a list of them and keeps a prefix.
use vstd::prelude::*;

verus! {

broadcast use vstd::seq_lib::to_multiset_insert;

/// A kind of finding that can be ranked: `ranks_le(a, b)` says that `a`
/// may be listed before `b`. Among the findings that `rank_ok` admits, the
/// relation is total and transitive.
pub trait Ranked: Sized {
    spec fn rank_ok(self) -> bool;

    spec fn ranks_le(self, other: Self) -> bool;

    /// Whether `self` may be listed before `other`.
    fn ranks_before(&self, other: &Self) -> (b: bool)
        requires
            self.rank_ok(),
            other.rank_ok(),
        ensures
            b == self.ranks_le(*other),
    ;

    proof fn lemma_ranks_total(a: Self, b: Self)
        requires
            a.rank_ok(),
            b.rank_ok(),
        ensures
            a.ranks_le(b) || b.ranks_le(a),
    ;

    proof fn lemma_ranks_trans(a: Self, b: Self, c: Self)
        requires
            a.rank_ok(),
            b.rank_ok(),
            c.rank_ok(),
            a.ranks_le(b),
            b.ranks_le(c),
        ensures
            a.ranks_le(c),
    ;
}

/// Whether every entry of `s` can be ranked.
pub open spec fn all_rank_ok<T: Ranked>(s: Seq<T>) -> bool {
    forall|i: int| 0 <= i < s.len() ==> (#[trigger] s[i]).rank_ok()
}

/// Whether `s` lists its entries in ranking order.
pub open spec fn is_ranked<T: Ranked>(s: Seq<T>) -> bool {
    forall|i: int, j: int| 0 <= i < j < s.len() ==> (#[trigger] s[i]).ranks_le(#[trigger] s[j])
}

/// The smaller of `k` and `n`.
pub open spec fn min_len(k: int, n: int) -> int {
    if k < n {
        k
    } else {
        n
    }
}

/// Whether `r` is the first `k` entries of some ranking-ordered
/// rearrangement of `c`.
pub open spec fn is_top<T: Ranked>(r: Seq<T>, c: Seq<T>, k: int) -> bool {
    exists|s: Seq<T>|
        #![trigger s.to_multiset()]
        s.to_multiset() == c.to_multiset() && is_ranked(s) && r == s.take(min_len(k, s.len() as int))
}

/// Sort `v` into ranking order and keep its first `k` entries.
pub fn top_ranked<T: Ranked>(v: Vec<T>, k: usize) -> (r: Vec<T>)
    requires
        all_rank_ok(v@),
    ensures
        is_top(r@, v@, k as int),
{
    let ghost c = v@;
    let mut rest = v;
    let mut sorted: Vec<T> = Vec::new();
    proof {
        broadcast use vstd::seq_lib::group_to_multiset_ensures, vstd::multiset::group_multiset_axioms;

        assert(c.to_multiset() =~= sorted@.to_multiset().add(rest@.to_multiset()));
    }
    while rest.len() > 0
        invariant
            c.to_multiset() == sorted@.to_multiset().add(rest@.to_multiset()),
            is_ranked(sorted@),
            all_rank_ok(sorted@),
            all_rank_ok(rest@),
        decreases rest.len(),
    {
        let ghost rest0 = rest@;
        let x = rest.pop().unwrap();
        proof {
            assert(rest0 =~= rest@.push(x));
            assert(rest0[rest0.len() - 1] == x);
            vstd::seq_lib::to_multiset_build(rest@, x);
        }
        let mut p = sorted.len();
        while p > 0 && !sorted[p - 1].ranks_before(&x)
            invariant
                p <= sorted@.len(),
                is_ranked(sorted@),
                all_rank_ok(sorted@),
                x.rank_ok(),
                forall|q: int| p <= q < sorted@.len() ==> !(#[trigger] sorted@[q]).ranks_le(x),
            decreases p,
        {
            p = p - 1;
        }
        proof {
            let s = sorted@;
            assert forall|q: int| 0 <= q < p implies (#[trigger] s[q]).ranks_le(x) by {
                if q < p - 1 {
                    T::lemma_ranks_trans(s[q], s[p - 1], x);
                }
            }
            assert forall|q: int| p <= q < s.len() implies x.ranks_le(#[trigger] s[q]) by {
                T::lemma_ranks_total(s[q], x);
            }
            let s2 = s.insert(p as int, x);
            assert forall|i: int, j: int| 0 <= i < j < s2.len() implies (#[trigger] s2[i]).ranks_le(
                #[trigger] s2[j],
            ) by {
                if i < p && j == p {
                } else if i == p {
                    assert(s2[j] == s[j - 1]);
                } else if j < p {
                    assert(s2[i] == s[i] && s2[j] == s[j]);
                } else if i < p {
                    assert(s2[i] == s[i] && s2[j] == s[j - 1]);
                    T::lemma_ranks_trans(s[i], x, s[j - 1]);
                } else {
                    assert(s2[i] == s[i - 1] && s2[j] == s[j - 1]);
                }
            }
        }
        let ghost s0 = sorted@;
        sorted.insert(p, x);
        proof {
            broadcast use vstd::multiset::group_multiset_axioms;

            assert(sorted@.to_multiset() == s0.to_multiset().insert(x));
            assert(c.to_multiset() =~= sorted@.to_multiset().add(rest@.to_multiset()));
        }
    }
    proof {
        broadcast use vstd::seq_lib::group_to_multiset_ensures, vstd::multiset::group_multiset_axioms;

        assert(rest@ =~= Seq::<T>::empty());
        assert(c.to_multiset() =~= sorted@.to_multiset());
    }
    let ghost s = sorted@;
    if k < sorted.len() {
        sorted.truncate(k);
    }
    proof {
        assert(sorted@ =~= s.take(min_len(k as int, s.len() as int)));
    }
    sorted
}

} // verus!
