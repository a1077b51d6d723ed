//! A verified selection sort over any total preorder, used for the ordered
//! listings the store serves.  Equal elements keep their relative order,
//! because the scan always picks the first minimal element.

use vstd::prelude::*;
use vstd::multiset::Multiset;
use vstd::seq_lib::group_to_multiset_ensures;

verus! {

/// A total preorder on rows: any two rows compare, and `le` is transitive.
pub trait TotalLe: Sized {
    spec fn le_spec(&self, other: &Self) -> bool;

    proof fn lemma_connex(a: &Self, b: &Self)
        ensures
            a.le_spec(b) || b.le_spec(a),
    ;

    proof fn lemma_trans(a: &Self, b: &Self, c: &Self)
        requires
            a.le_spec(b),
            b.le_spec(c),
        ensures
            a.le_spec(c),
    ;

    fn le(&self, other: &Self) -> (r: bool)
        ensures
            r == self.le_spec(other),
    ;
}

/// Every element is `le` every later element.
pub open spec fn sorted_le<T: TotalLe>(s: Seq<T>) -> bool {
    forall|i: int, j: int| 0 <= i < j < s.len() ==> s[i].le_spec(&s[j])
}

/// Sort by `le`, keeping exactly the input rows.
pub fn sort_rows<T: TotalLe>(input: Vec<T>) -> (r: Vec<T>)
    ensures
        sorted_le(r@),
        r@.to_multiset() == input@.to_multiset(),
        r@.len() == input@.len(),
{
    broadcast use group_to_multiset_ensures;
    broadcast use vstd::multiset::group_multiset_axioms;

    let mut src = input;
    let mut out: Vec<T> = Vec::new();
    proof {
        assert(out@.to_multiset().add(src@.to_multiset()) =~= src@.to_multiset());
    }
    let ghost total = src@.to_multiset();
    while src.len() > 0
        invariant
            out@.to_multiset().add(src@.to_multiset()) == total,
            total.len() == out@.len() + src@.len(),
            sorted_le(out@),
            forall|i: int, j: int|
                0 <= i < out@.len() && 0 <= j < src@.len() ==> out@[i].le_spec(&src@[j]),
        decreases src@.len(),
    {
        let mut m: usize = 0;
        let mut k: usize = 1;
        proof {
            T::lemma_connex(&src@[0], &src@[0]);
        }
        while k < src.len()
            invariant
                0 <= m < src@.len(),
                m < k,
                1 <= k <= src@.len(),
                forall|t: int| 0 <= t < k ==> src@[m as int].le_spec(&src@[t]),
            decreases src@.len() - k,
        {
            if !src[m].le(&src[k]) {
                proof {
                    T::lemma_connex(&src@[k as int], &src@[m as int]);
                    T::lemma_connex(&src@[k as int], &src@[k as int]);
                    assert forall|t: int| 0 <= t < k implies src@[k as int].le_spec(&src@[t]) by {
                        T::lemma_trans(&src@[k as int], &src@[m as int], &src@[t]);
                    }
                }
                m = k;
            }
            k = k + 1;
        }
        let ghost src_before = src@;
        let x = src.remove(m);
        proof {
            assert(src@ == src_before.remove(m as int));
            assert(src_before[m as int] == x);
            assert(src_before.contains(x));
            src_before.to_multiset_ensures();
            assert(src_before.to_multiset().count(x) > 0);
            assert(src@.to_multiset() == src_before.to_multiset().remove(x));
            // counts restore: insert then remove of a contained element
            vstd::seq_lib::to_multiset_build(out@, x);
            assert(out@.push(x).to_multiset() == out@.to_multiset().insert(x));
            assert forall|a: T|
                out@.push(x).to_multiset().add(src@.to_multiset()).count(a) == out@.to_multiset().add(
                    src_before.to_multiset(),
                ).count(a) by {
                assert(out@.to_multiset().insert(x).count(a) == out@.to_multiset().count(a) + if a
                    == x {
                    1int
                } else {
                    0int
                });
                assert(src_before.to_multiset().remove(x).count(a) == src_before.to_multiset().count(
                    a,
                ) - if a == x {
                    1int
                } else {
                    0int
                });
            }
            assert(out@.push(x).to_multiset().add(src@.to_multiset()) =~= out@.to_multiset().add(
                src_before.to_multiset(),
            ));
            // the removed element stays below everything left
            assert forall|j: int| 0 <= j < src@.len() implies x.le_spec(&src@[j]) by {
                if j < m {
                    assert(src@[j] == src_before[j]);
                } else {
                    assert(src@[j] == src_before[j + 1]);
                }
            }
        }
        let ghost out_before = out@;
        out.push(x);
        proof {
            assert(out@ == out_before.push(x));
            assert forall|i: int, j: int| 0 <= i < j < out@.len() implies out@[i].le_spec(
                &out@[j],
            ) by {
                if j < out_before.len() {
                    assert(out@[i] == out_before[i]);
                    assert(out@[j] == out_before[j]);
                } else {
                    assert(out@[j] == x);
                    if i < out_before.len() {
                        assert(out@[i] == out_before[i]);
                        assert(out_before[i].le_spec(&src_before[m as int]));
                    }
                }
            }
            assert forall|i: int, j: int|
                0 <= i < out@.len() && 0 <= j < src@.len() implies out@[i].le_spec(&src@[j]) by {
                if i < out_before.len() {
                    assert(out@[i] == out_before[i]);
                    if j < m {
                        assert(src@[j] == src_before[j]);
                    } else {
                        assert(src@[j] == src_before[j + 1]);
                    }
                } else {
                    assert(out@[i] == x);
                }
            }
        }
    }
    proof {
        assert(src@.to_multiset() =~= Multiset::<T>::empty());
        assert(out@.to_multiset() =~= total);
    }
    out
}

/// A value sitting at two positions counts at least twice.
pub proof fn lemma_two_indices_count<A>(s: Seq<A>, i: int, j: int)
    requires
        0 <= i < j < s.len(),
        s[i] == s[j],
    ensures
        s.to_multiset().count(s[i]) >= 2,
{
    broadcast use group_to_multiset_ensures;
    broadcast use vstd::multiset::group_multiset_axioms;

    let s2 = s.remove(j);
    assert(s2.to_multiset() == s.to_multiset().remove(s[j]));
    assert(s2[i] == s[i]);
    assert(s2.contains(s[i]));
    s2.to_multiset_ensures();
    assert(s2.to_multiset().count(s[i]) > 0);
    assert(s.to_multiset().remove(s[j]).count(s[i]) == s.to_multiset().count(s[i]) - 1);
}

/// A value counting at least twice sits at two positions.
pub proof fn lemma_count_two_indices<A>(s: Seq<A>, v: A)
    requires
        s.to_multiset().count(v) >= 2,
    ensures
        exists|i: int, j: int| 0 <= i < j < s.len() && #[trigger] s[i] == v && #[trigger] s[j] == v,
{
    broadcast use group_to_multiset_ensures;
    broadcast use vstd::multiset::group_multiset_axioms;

    s.to_multiset_ensures();
    assert(s.contains(v));
    let i = choose|i: int| 0 <= i < s.len() && s[i] == v;
    let s2 = s.remove(i);
    assert(s2.to_multiset() == s.to_multiset().remove(v));
    assert(s2.to_multiset().count(v) >= 1);
    s2.to_multiset_ensures();
    assert(s2.contains(v));
    let j2 = choose|j: int| 0 <= j < s2.len() && s2[j] == v;
    if j2 < i {
        assert(s[j2] == s2[j2]);
        assert(s[j2] == v && s[i] == v);
    } else {
        assert(s[j2 + 1] == s2[j2]);
        assert(s[i] == v && s[j2 + 1] == v);
    }
}

} // verus!
