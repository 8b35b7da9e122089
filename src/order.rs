use vstd::prelude::*;
use vstd::std_specs::cmp::OrdSpec;
use std::cmp::Ordering;

verus! {

/// `a` orders at or below `b` by the type's `Ord`.
pub open spec fn le<T: Ord>(a: T, b: T) -> bool {
    a.cmp_spec(&b) != Ordering::Greater
}

/// `a` orders strictly below `b` by the type's `Ord`.
pub open spec fn lt<T: Ord>(a: T, b: T) -> bool {
    a.cmp_spec(&b) == Ordering::Less
}

/// Values never decrease along the sequence.
pub open spec fn sorted<T: Ord>(s: Seq<T>) -> bool {
    forall|a: int, b: int| 0 <= a < b < s.len() ==> #[trigger] le(s[a], s[b])
}

/// The type's `cmp` is a total order, as `Ord` documents: the executable
/// comparison agrees with `cmp_spec`, reversing the arguments reverses the
/// result, and `le` is reflexive and transitive.
pub open spec fn total_order<T: Ord>() -> bool {
    &&& T::obeys_cmp_spec()
    &&& forall|a: T, b: T| #[trigger] a.cmp_spec(&b) == Ordering::Less <==> b.cmp_spec(&a) == Ordering::Greater
    &&& forall|a: T| #[trigger] a.cmp_spec(&a) == Ordering::Equal
    &&& forall|a: T, b: T, c: T| #[trigger] le(a, b) && #[trigger] le(b, c) ==> le(a, c)
}

pub proof fn lemma_total<T: Ord>(a: T, b: T)
    requires
        total_order::<T>(),
    ensures
        le(a, b) || le(b, a),
        lt(a, b) <==> !le(b, a),
{
    assert(a.cmp_spec(&b) == Ordering::Less <==> b.cmp_spec(&a) == Ordering::Greater);
    assert(b.cmp_spec(&a) == Ordering::Less <==> a.cmp_spec(&b) == Ordering::Greater);
}

pub proof fn lemma_trans<T: Ord>(a: T, b: T, c: T)
    requires
        total_order::<T>(),
        le(a, b),
        le(b, c),
    ensures
        le(a, c),
{
}

pub proof fn lemma_refl<T: Ord>(a: T)
    requires
        total_order::<T>(),
    ensures
        le(a, a),
{
    assert(a.cmp_spec(&a) == Ordering::Equal);
}

/// Values that compare equal are the same value, as for the integer types.
pub open spec fn equal_is_identity<T: Ord>() -> bool {
    forall|a: T, b: T| #[trigger] a.cmp_spec(&b) == Ordering::Equal ==> a == b
}

/// Where comparing equal means being the same value, a multiset has one
/// sorted arrangement: two sorted sequences with the same values are equal.
pub proof fn lemma_sorted_unique<T: Ord>(p: Seq<T>, q: Seq<T>)
    requires
        total_order::<T>(),
        equal_is_identity::<T>(),
        sorted(p),
        sorted(q),
        p.to_multiset() == q.to_multiset(),
    ensures
        p == q,
    decreases p.len(),
{
    broadcast use vstd::seq_lib::group_to_multiset_ensures;
    assert(p.len() == p.to_multiset().len() && q.len() == q.to_multiset().len());
    if p.len() == 0 {
        assert(q.len() == 0);
        assert(p =~= q);
    } else {
        assert(q.len() == p.len());
        assert(p.to_multiset().count(q[0]) > 0 && p.contains(q[0]));
        assert(q.to_multiset().count(p[0]) > 0 && q.contains(p[0]));
        let i = choose|i: int| 0 <= i < p.len() && p[i] == q[0];
        let j = choose|j: int| 0 <= j < q.len() && q[j] == p[0];
        lemma_refl(p[0]);
        lemma_refl(q[0]);
        if i > 0 {
            assert(le(p[0], p[i]));
        }
        if j > 0 {
            assert(le(q[0], q[j]));
        }
        assert(le(p[0], q[0]) && le(q[0], p[0]));
        assert(p[0].cmp_spec(&q[0]) == Ordering::Equal);
        assert(p[0] == q[0]);
        let p1 = p.remove(0);
        let q1 = q.remove(0);
        assert(p1.to_multiset() == p.to_multiset().remove(p[0]));
        assert(q1.to_multiset() == q.to_multiset().remove(q[0]));
        assert(sorted(p1)) by {
            assert forall|a: int, b: int| 0 <= a < b < p1.len() implies #[trigger] le(p1[a], p1[b]) by {
                assert(p1[a] == p[a + 1] && p1[b] == p[b + 1]);
                assert(le(p[a + 1], p[b + 1]));
            }
        }
        assert(sorted(q1)) by {
            assert forall|a: int, b: int| 0 <= a < b < q1.len() implies #[trigger] le(q1[a], q1[b]) by {
                assert(q1[a] == q[a + 1] && q1[b] == q[b + 1]);
                assert(le(q[a + 1], q[b + 1]));
            }
        }
        lemma_sorted_unique(p1, q1);
        assert(p =~= q) by {
            assert forall|k: int| 0 <= k < p.len() implies p[k] == q[k] by {
                if k > 0 {
                    assert(p[k] == p1[k - 1] && q[k] == q1[k - 1]);
                }
            }
        }
    }
}

} // verus!
