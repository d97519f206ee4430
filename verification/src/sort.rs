//! A verified insertion sort over any total preorder.

use vstd::prelude::*;
use vstd::seq_lib::lemma_multiset_commutative;
use vstd::multiset::Multiset;

verus! {

/// A total, transitive "comes before or equal" relation.
pub trait SortOrd: Sized {
    /// Whether `self` may stand before `other` in sorted order.
    spec fn le_spec(self, other: Self) -> bool;

    /// The relation is total.
    proof fn lemma_total(a: Self, b: Self)
        ensures
            a.le_spec(b) || b.le_spec(a),
    ;

    /// The relation is transitive.
    proof fn lemma_trans(a: Self, b: Self, c: Self)
        requires
            a.le_spec(b),
            b.le_spec(c),
        ensures
            a.le_spec(c),
    ;

    /// Decides the relation.
    fn le(&self, other: &Self) -> (r: bool)
        ensures
            r == self.le_spec(*other),
    ;
}

/// Whether the sequence is sorted by the element order.
pub open spec fn seq_sorted<T: SortOrd>(s: Seq<T>) -> bool {
    forall|i: int, j: int| 0 <= i < j < s.len() ==> #[trigger] s[i].le_spec(#[trigger] s[j])
}

/// Removing an element and re-inserting it elsewhere permutes the sequence.
pub proof fn lemma_seq_remove_insert_multiset<T>(s: Seq<T>, i: int, j: int)
    requires
        0 <= i < s.len(),
        0 <= j <= s.len() - 1,
    ensures
        s.remove(i).insert(j, s[i]).to_multiset() =~= s.to_multiset(),
{
    broadcast use vstd::seq_lib::group_to_multiset_ensures;

    let x = s[i];
    let r = s.remove(i);
    assert(r.to_multiset() =~= s.to_multiset().remove(x));
    let a = r.subrange(0, j);
    let b = r.subrange(j, r.len() as int);
    assert(r =~= a + b);
    assert(r.insert(j, x) =~= a + (seq![x] + b));
    lemma_multiset_commutative(a, b);
    lemma_multiset_commutative(a, seq![x] + b);
    lemma_multiset_commutative(seq![x], b);
    assert(seq![x].to_multiset() =~= Multiset::<T>::empty().insert(x)) by {
        assert(seq![x] =~= Seq::<T>::empty().push(x));
        assert(Seq::<T>::empty().to_multiset() =~= Multiset::<T>::empty());
    }
    assert(s.contains(x));
    assert(s.to_multiset().count(x) > 0);
    assert(r.insert(j, x).to_multiset() =~= r.to_multiset().insert(x));
    assert(s.to_multiset().remove(x).insert(x) =~= s.to_multiset());
}

/// Sorts the vector by the element order: afterwards it is sorted and holds
/// the same elements, with multiplicity.
pub fn insertion_sort<T: SortOrd>(v: &mut Vec<T>)
    ensures
        final(v)@.len() == old(v)@.len(),
        seq_sorted(final(v)@),
        final(v)@.to_multiset() == old(v)@.to_multiset(),
{
    let mut i: usize = 1;
    while i < v.len()
        invariant
            1 <= i,
            v@.len() == old(v)@.len(),
            v@.to_multiset() == old(v)@.to_multiset(),
            forall|a: int, b: int| 0 <= a < b < i && b < v@.len() ==> #[trigger] v@[a].le_spec(#[trigger] v@[b]),
        decreases v@.len() - i,
    {
        let ghost pre = v@;
        let mut j: usize = 0;
        while j < i && v[j].le(&v[i])
            invariant
                i < v@.len(),
                v@ == pre,
                j <= i,
                forall|k: int| 0 <= k < j ==> #[trigger] v@[k].le_spec(v@[i as int]),
            decreases i - j,
        {
            j += 1;
        }
        let ghost gi = i as int;
        let ghost gj = j as int;
        let ghost x = pre[gi];
        proof {
            // Everything in positions [j, i) comes strictly after x.
            assert forall|k: int| gj <= k < gi implies x.le_spec(#[trigger] pre[k]) by {
                if !pre[k].le_spec(x) {
                    T::lemma_total(pre[k], x);
                } else {
                    if gj < i {
                        // pre[j] does not precede x, yet pre[j] <= pre[k] <= x would force it.
                        if gj < k {
                            T::lemma_trans(pre[gj], pre[k], x);
                        }
                        assert(false);
                    } else {
                        assert(false);
                    }
                }
            }
        }
        let x_exec = v.remove(i);
        v.insert(j, x_exec);
        proof {
            assert(v@ =~= pre.remove(gi).insert(gj, x));
            lemma_seq_remove_insert_multiset(pre, gi, gj);
            assert(v@.to_multiset() == old(v)@.to_multiset());
            // The prefix of length i + 1 is sorted.
            assert forall|a: int, b: int|
                0 <= a < b < gi + 1 && b < v@.len() implies #[trigger] v@[a].le_spec(
                #[trigger] v@[b],
            ) by {
                let va = if a < gj { pre[a] } else if a == gj { x } else { pre[a - 1] };
                let vb = if b < gj { pre[b] } else if b == gj { x } else { pre[b - 1] };
                assert(v@[a] == va);
                assert(v@[b] == vb);
                if b < gj {
                } else if b == gj {
                } else {
                    if a == gj {
                        assert(x.le_spec(pre[b - 1]));
                    } else if a < gj {
                        assert(pre[a].le_spec(pre[b - 1])) by {
                            if a < b - 1 {
                            } else {
                                assert(a == b - 1);
                                assert(a < gj && gj <= b - 1);
                                assert(false);
                            }
                        }
                    }
                }
            }
        }
        i += 1;
    }
}

} // verus!
