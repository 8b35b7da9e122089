//! The bounded heap: a max-heap that admits values only while it has room,
//! or when they order below its current maximum.
use vstd::prelude::*;
use vstd::multiset::Multiset;
use std::cmp::Ordering;
use crate::order::{le, lt, sorted, total_order, lemma_total, lemma_trans};
use crate::heap_array::{is_heap, parent, lemma_root_max, sift_up, sift_down, sort_heap};

verus! {

broadcast use {vstd::seq_lib::group_to_multiset_ensures, vstd::multiset::group_multiset_axioms};

/// `m` is held in `ms` and orders at or above everything held there.
pub open spec fn is_max_of<T: Ord>(m: T, ms: Multiset<T>) -> bool {
    &&& ms.contains(m)
    &&& forall|x: T| #[trigger] ms.contains(x) ==> le(x, m)
}

/// `value` orders strictly below a maximum of `ms`.
pub open spec fn below_max<T: Ord>(value: T, ms: Multiset<T>) -> bool {
    exists|m: T| #[trigger] is_max_of(m, ms) && lt(value, m)
}

/// What one insertion of `value` does to the held values `before` of a heap
/// with limit `limit`: below the limit the value is added; at the limit it is
/// compared with a maximum `m`, which it replaces if it orders strictly below
/// it, and is dropped otherwise.
pub open spec fn insert_step<T: Ord>(limit: nat, before: Multiset<T>, value: T, after: Multiset<T>) -> bool {
    if before.len() < limit {
        after == before.insert(value)
    } else {
        exists|m: T| #[trigger] is_max_of(m, before) && after == (if lt(value, m) {
            before.remove(m).insert(value)
        } else {
            before
        })
    }
}

/// Keeps the `limit` smallest values inserted so far, in a max-heap held in a `Vec`.
pub struct LimitedBinaryHeap<T: Ord> {
    binary_heap: Vec<T>,
    limit: usize,
    filled: bool,
}

impl<T: Ord> View for LimitedBinaryHeap<T> {
    type V = Multiset<T>;

    /// The values held.
    closed spec fn view(&self) -> Multiset<T> {
        self.binary_heap@.to_multiset()
    }
}

impl<T: Ord> LimitedBinaryHeap<T> {
    /// The most values the heap holds.
    pub closed spec fn limit(&self) -> nat {
        self.limit as nat
    }

    /// The heap has reached its limit; it stays there.
    pub closed spec fn is_full(&self) -> bool {
        self.filled
    }

    /// The element type is totally ordered, the limit is positive and never
    /// exceeded, the flag records whether it is reached, and the storage is a
    /// max-heap.
    pub closed spec fn wf(&self) -> bool {
        &&& total_order::<T>()
        &&& self.limit >= 1
        &&& self.binary_heap.len() <= self.limit
        &&& self.filled <==> self.binary_heap.len() == self.limit
        &&& is_heap(self.binary_heap@)
    }

    /// An empty heap that will hold at most `limit` values.
    pub fn new(limit: usize) -> (r: LimitedBinaryHeap<T>)
        requires
            total_order::<T>(),
            limit >= 1,
        ensures
            r.wf(),
            r.limit() == limit,
            r@ == Multiset::<T>::empty(),
            !r.is_full(),
    {
        // The storage grows with the values held rather than being reserved up
        // front: reserving `limit` slots would panic for very large limits.
        let r = LimitedBinaryHeap { binary_heap: Vec::new(), limit, filled: false };
        assert(r.binary_heap@.to_multiset() =~= Multiset::<T>::empty());
        r
    }

    proof fn lemma_root_is_max(&self)
        requires
            self.wf(),
            self.binary_heap.len() > 0,
        ensures
            is_max_of(self.binary_heap@[0], self@),
    {
        let s = self.binary_heap@;
        assert(s.contains(s[0]));
        assert forall|x: T| #[trigger] self@.contains(x) implies le(x, s[0]) by {
            assert(s.contains(x));
            let k = choose|k: int| 0 <= k < s.len() && s[k] == x;
            lemma_root_max(s, s.len() as int, k);
        }
    }

    /// Offers `value` to the heap. Below the limit it is always kept; at the
    /// limit it replaces the current maximum if it orders strictly below it,
    /// and is dropped otherwise, leaving the heap as it was.
    pub fn insert(&mut self, value: T)
        requires
            old(self).wf(),
        ensures
            final(self).wf(),
            final(self).limit() == old(self).limit(),
            insert_step(old(self).limit(), old(self)@, value, final(self)@),
            old(self).is_full() ==> final(self).is_full(),
            final(self).is_full() <==> final(self)@.len() == final(self).limit(),
            old(self).is_full() && !below_max(value, old(self)@) ==> *final(self) == *old(self),
    {
        let ghost before = self@;
        if self.filled {
            proof { self.lemma_root_is_max(); }
            match value.cmp(&self.binary_heap[0]) {
                Ordering::Less => {
                    let ghost s = self.binary_heap@;
                    let mut value = value;
                    std::mem::swap(&mut self.binary_heap[0], &mut value);
                    let ghost t = self.binary_heap@;
                    assert(t =~= s.update(0, t[0]));
                    assert forall|k: int| 0 < k < t.len() && parent(k) != 0 implies #[trigger] le(t[k], t[parent(k)]) by {
                        assert(le(s[k], s[parent(k)]));
                    }
                    let end = self.binary_heap.len();
                    sift_down(&mut self.binary_heap, 0, end);
                    proof {
                        let u = self.binary_heap@;
                        assert(u =~= u.subrange(0, end as int));
                        assert(t =~= t.subrange(0, end as int));
                        assert(t.to_multiset() == before.insert(t[0]).remove(s[0]));
                        assert(before.insert(t[0]).remove(s[0]) =~= before.remove(s[0]).insert(t[0]));
                        assert(is_max_of(s[0], before) && lt(t[0], s[0]));
                        assert(self@ == (if lt(t[0], s[0]) { before.remove(s[0]).insert(t[0]) } else { before }));
                    }
                },
                _ => {
                    proof {
                        let root = self.binary_heap@[0];
                        lemma_total(value, root);
                        assert(is_max_of(root, before) && self@ == (if lt(value, root) { before.remove(root).insert(value) } else { before }));
                        if below_max(value, before) {
                            let m = choose|m: T| #[trigger] is_max_of(m, before) && lt(value, m);
                            assert(before.contains(root));
                            assert(le(root, m));
                            lemma_total(value, m);
                            lemma_trans(root, value, m);
                            assert(le(m, root));
                            lemma_trans(m, root, value);
                        }
                    }
                },
            }
        } else {
            if self.binary_heap.len() + 1 == self.limit {
                self.filled = true;
            }
            let ghost s = self.binary_heap@;
            self.binary_heap.push(value);
            let n = self.binary_heap.len();
            assert forall|k: int| 0 < k < n && k != n - 1 implies #[trigger] le(self.binary_heap@[k], self.binary_heap@[parent(k)]) by {
                assert(le(s[k], s[parent(k)]));
            }
            sift_up(&mut self.binary_heap, n - 1);
        }
    }

    /// Consumes the heap and returns the values it holds in ascending order.
    pub fn into_sorted_vec(self) -> (r: Vec<T>)
        requires
            self.wf(),
        ensures
            sorted(r@),
            r@.to_multiset() == self@,
    {
        let mut v = self.binary_heap;
        sort_heap(&mut v);
        v
    }
}

} // verus!
