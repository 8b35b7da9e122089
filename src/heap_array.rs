//! Max-heap operations on a `Vec`, with the heap property stated over its view.
use vstd::prelude::*;
use std::cmp::Ordering;
use crate::order::{le, sorted, total_order, lemma_total, lemma_trans, lemma_refl};

verus! {

broadcast use vstd::seq_lib::group_to_multiset_ensures;

pub open spec fn parent(k: int) -> int {
    (k - 1) / 2
}

/// Within the first `n` slots, every value orders at or below its parent.
pub open spec fn heap_prefix<T: Ord>(s: Seq<T>, n: int) -> bool {
    forall|k: int| 0 < k < n ==> #[trigger] le(s[k], s[parent(k)])
}

pub open spec fn is_heap<T: Ord>(s: Seq<T>) -> bool {
    heap_prefix(s, s.len() as int)
}

pub open spec fn swapped<T>(s: Seq<T>, i: int, j: int) -> Seq<T> {
    s.update(i, s[j]).update(j, s[i])
}

pub proof fn lemma_swap_multiset<T>(s: Seq<T>, i: int, j: int)
    requires
        0 <= i < s.len(),
        0 <= j < s.len(),
    ensures
        swapped(s, i, j).to_multiset() == s.to_multiset(),
{
    broadcast use vstd::multiset::group_multiset_axioms;
    let s1 = s.update(i, s[j]);
    assert(s1.to_multiset() == s.to_multiset().insert(s[j]).remove(s[i]));
    assert(s1.update(j, s[i]).to_multiset() == s1.to_multiset().insert(s[i]).remove(s1[j]));
    if i == j {
        assert(swapped(s, i, j) =~= s);
    } else {
        assert(s1[j] == s[j]);
        assert(s.to_multiset().count(s[i]) > 0);
        assert(s.to_multiset().count(s[j]) > 0);
        assert(swapped(s, i, j).to_multiset() =~= s.to_multiset());
    }
}

/// The first slot of a heap prefix holds a value at or above all others in it.
pub proof fn lemma_root_max<T: Ord>(s: Seq<T>, n: int, k: int)
    requires
        total_order::<T>(),
        heap_prefix(s, n),
        0 <= k < n,
        n <= s.len(),
    ensures
        le(s[k], s[0]),
    decreases k,
{
    if k == 0 {
        lemma_refl(s[0]);
    } else {
        assert(le(s[k], s[parent(k)]));
        lemma_root_max(s, n, parent(k));
        lemma_trans(s[k], s[parent(k)], s[0]);
    }
}

/// Exchanges the values in slots `i` and `j`.
pub fn swap_at<T>(v: &mut Vec<T>, i: usize, j: usize)
    requires
        i < j < old(v).len(),
    ensures
        final(v)@ == swapped(old(v)@, i as int, j as int),
{
    let ghost s = v@;
    let last_idx = v.len() - 1;
    let mut hand = v.pop().unwrap();
    if j == last_idx {
        std::mem::swap(&mut v[i], &mut hand);
        v.push(hand);
    } else {
        std::mem::swap(&mut v[i], &mut hand);
        std::mem::swap(&mut v[j], &mut hand);
        std::mem::swap(&mut v[i], &mut hand);
        v.push(hand);
    }
    assert(v@ =~= swapped(s, i as int, j as int));
}

/// Heap order holds in the first `n` slots except between slot `h` and its parent;
/// the children of `h` order at or below that parent.
pub open spec fn heap_but_up<T: Ord>(s: Seq<T>, n: int, h: int) -> bool {
    &&& forall|k: int| 0 < k < n && k != h ==> #[trigger] le(s[k], s[parent(k)])
    &&& forall|k: int| 0 < k < n && parent(k) == h && h > 0 ==> #[trigger] le(s[k], s[parent(h)])
}

/// Heap order holds in the first `n` slots except between slot `h` and its children;
/// those children order at or below the parent of `h`.
pub open spec fn heap_but_down<T: Ord>(s: Seq<T>, n: int, h: int) -> bool {
    &&& forall|k: int| 0 < k < n && parent(k) != h ==> #[trigger] le(s[k], s[parent(k)])
    &&& forall|k: int| 0 < k < n && parent(k) == h && h > 0 ==> #[trigger] le(s[k], s[parent(h)])
}

/// Moves the value in slot `h` up until the whole vector is a heap.
pub fn sift_up<T: Ord>(v: &mut Vec<T>, h: usize)
    requires
        total_order::<T>(),
        h < old(v).len(),
        heap_but_up(old(v)@, old(v).len() as int, h as int),
    ensures
        final(v).len() == old(v).len(),
        is_heap(final(v)@),
        final(v)@.to_multiset() == old(v)@.to_multiset(),
{
    let ghost s0 = v@;
    let n = v.len();
    let mut i = h;
    while i > 0
        invariant
            total_order::<T>(),
            v.len() == n,
            i < n,
            heap_but_up(v@, n as int, i as int),
            v@.to_multiset() == s0.to_multiset(),
        ensures
            heap_prefix(v@, n as int),
        decreases i,
    {
        let p = (i - 1) / 2;
        match v[i].cmp(&v[p]) {
            Ordering::Greater => {
                let ghost s = v@;
                proof {
                    lemma_swap_multiset(s, p as int, i as int);
                    lemma_total(s[i as int], s[p as int]);
                }
                swap_at(v, p, i);
                let ghost t = v@;
                assert forall|k: int| 0 < k < n && k != p implies #[trigger] le(t[k], t[parent(k)]) by {
                    if k == i {
                    } else if parent(k) == i {
                        assert(le(s[k], s[parent(i as int)]));
                    } else if parent(k) == p {
                        assert(le(s[k], s[p as int]));
                        lemma_trans(s[k], s[p as int], s[i as int]);
                    } else {
                        assert(le(s[k], s[parent(k)]));
                    }
                }
                assert forall|k: int| 0 < k < n && parent(k) == p && p > 0 implies #[trigger] le(t[k], t[parent(p as int)]) by {
                    assert(le(s[p as int], s[parent(p as int)]));
                    if k != i {
                        assert(le(s[k], s[p as int]));
                        lemma_trans(s[k], s[p as int], s[parent(p as int)]);
                    }
                }
                i = p;
            },
            _ => {
                proof { lemma_total(v@[i as int], v@[p as int]); }
                break;
            },
        }
    }
}

/// Moves the value in slot `h` down until the first `end` slots form a heap;
/// slots from `end` on are untouched.
pub fn sift_down<T: Ord>(v: &mut Vec<T>, h: usize, end: usize)
    requires
        total_order::<T>(),
        h < end <= old(v).len(),
        heap_but_down(old(v)@, end as int, h as int),
    ensures
        final(v).len() == old(v).len(),
        heap_prefix(final(v)@, end as int),
        final(v)@.subrange(0, end as int).to_multiset() == old(v)@.subrange(0, end as int).to_multiset(),
        final(v)@.subrange(end as int, final(v).len() as int) == old(v)@.subrange(end as int, old(v).len() as int),
{
    let ghost s0 = v@;
    let n = v.len();
    let mut i = h;
    loop
        invariant
            total_order::<T>(),
            v.len() == n,
            s0.len() == n,
            i < end <= n,
            heap_but_down(v@, end as int, i as int),
            v@.subrange(0, end as int).to_multiset() == s0.subrange(0, end as int).to_multiset(),
            v@.subrange(end as int, n as int) == s0.subrange(end as int, n as int),
        ensures
            heap_prefix(v@, end as int),
        decreases end - i,
    {
        if i >= end / 2 {
            assert forall|k: int| 0 < k < end implies #[trigger] le(v@[k], v@[parent(k)]) by {
                assert(parent(k) != i);
            }
            break;
        }
        let l = 2 * i + 1;
        let mut c = l;
        if l + 1 < end {
            match v[l + 1].cmp(&v[l]) {
                Ordering::Greater => { c = l + 1; },
                _ => {},
            }
        }
        let ghost s = v@;
        assert(forall|k: int| 0 < k < end && parent(k) == i ==> le(s[k], s[c as int])) by {
            if l + 1 < end {
                lemma_total(s[l as int + 1], s[l as int]);
            }
            assert forall|k: int| 0 < k < end && parent(k) == i implies le(s[k], s[c as int]) by {
                if k == c {
                    lemma_refl(s[k]);
                }
            }
        }
        match v[c].cmp(&v[i]) {
            Ordering::Greater => {
                proof {
                    lemma_swap_multiset(s.subrange(0, end as int), i as int, c as int);
                    assert(swapped(s, i as int, c as int).subrange(0, end as int)
                        =~= swapped(s.subrange(0, end as int), i as int, c as int));
                    lemma_total(s[c as int], s[i as int]);
                }
                swap_at(v, i, c);
                let ghost t = v@;
                assert(t.subrange(end as int, n as int) =~= s.subrange(end as int, n as int));
                assert forall|k: int| 0 < k < end && parent(k) != c implies #[trigger] le(t[k], t[parent(k)]) by {
                    if k == c {
                    } else if parent(k) == i {
                        assert(le(s[k], s[c as int]));
                    } else if k == i {
                        assert(le(s[c as int], s[parent(i as int)]));
                    } else {
                        assert(le(s[k], s[parent(k)]));
                    }
                }
                assert forall|k: int| 0 < k < end && parent(k) == c && c > 0 implies #[trigger] le(t[k], t[parent(c as int)]) by {
                    assert(le(s[k], s[c as int]));
                }
                i = c;
            },
            _ => {
                let ghost s = v@;
                proof { lemma_total(s[c as int], s[i as int]); }
                assert forall|k: int| 0 < k < end implies #[trigger] le(s[k], s[parent(k)]) by {
                    if parent(k) == i {
                        assert(le(s[k], s[c as int]));
                        lemma_trans(s[k], s[c as int], s[i as int]);
                    }
                }
                break;
            },
        }
    }
}

/// A bound on every value of a sequence is a bound on every value of a
/// sequence with the same multiset.
pub proof fn lemma_bound_by_multiset<T: Ord>(p: Seq<T>, q: Seq<T>, x: T)
    requires
        p.to_multiset() == q.to_multiset(),
        forall|j: int| 0 <= j < q.len() ==> #[trigger] le(q[j], x),
    ensures
        forall|a: int| 0 <= a < p.len() ==> #[trigger] le(p[a], x),
{
    assert forall|a: int| 0 <= a < p.len() implies #[trigger] le(p[a], x) by {
        assert(p.contains(p[a]));
        assert(q.to_multiset().count(p[a]) > 0);
        assert(q.contains(p[a]));
        let j = choose|j: int| 0 <= j < q.len() && q[j] == p[a];
        assert(le(q[j], x));
    }
}

/// Sorts a heap in place into ascending order.
pub fn sort_heap<T: Ord>(v: &mut Vec<T>)
    requires
        total_order::<T>(),
        is_heap(old(v)@),
    ensures
        sorted(final(v)@),
        final(v)@.to_multiset() == old(v)@.to_multiset(),
{
    let ghost s0 = v@;
    let n = v.len();
    let mut end = n;
    while end > 1
        invariant
            total_order::<T>(),
            v.len() == n,
            end <= n,
            heap_prefix(v@, end as int),
            forall|a: int, b: int| end <= a < b < n ==> #[trigger] le(v@[a], v@[b]),
            forall|a: int, b: int| 0 <= a < end <= b < n ==> #[trigger] le(v@[a], v@[b]),
            v@.to_multiset() == s0.to_multiset(),
        decreases end,
    {
        let ghost s = v@;
        assert forall|k: int| 0 <= k < end implies #[trigger] le(s[k], s[0]) by {
            lemma_root_max(s, end as int, k);
        }
        proof { lemma_swap_multiset(s, 0, end - 1); }
        swap_at(v, 0, end - 1);
        let ghost t = v@;
        assert forall|k: int| 0 < k < end - 1 && parent(k) != 0 implies #[trigger] le(t[k], t[parent(k)]) by {
            assert(le(s[k], s[parent(k)]));
        }
        sift_down(v, 0, end - 1);
        let ghost u = v@;
        let ghost m = end - 1;
        proof {
            assert forall|j: int| 0 <= j < t.subrange(0, m).len() implies #[trigger] le(t.subrange(0, m)[j], t[m]) by {
                if j == 0 {
                    lemma_refl(s[0]);
                    assert(le(s[m], s[0]));
                } else {
                    assert(le(s[j], s[0]));
                }
            }
            lemma_bound_by_multiset(u.subrange(0, m), t.subrange(0, m), t[m]);
            assert forall|a: int, b: int| m <= a < b < n implies #[trigger] le(u[a], u[b]) by {
                assert(u[a] == u.subrange(m, n as int)[a - m]);
                assert(u[b] == u.subrange(m, n as int)[b - m]);
                assert(u[a] == t[a] && u[b] == t[b]);
                if a == m {
                    assert(le(s[0], s[b]));
                } else {
                    assert(le(s[a], s[b]));
                }
            }
            assert forall|a: int, b: int| 0 <= a < m <= b < n implies #[trigger] le(u[a], u[b]) by {
                assert(le(u.subrange(0, m)[a], t[m]));
                assert(u[b] == u.subrange(m, n as int)[b - m]);
                assert(u[b] == t[b]);
                if b > m {
                    assert(le(s[0], s[b]));
                    lemma_trans(u[a], t[m], u[b]);
                } else {
                }
            }
            assert(u =~= u.subrange(0, m) + u.subrange(m, n as int));
            assert(t =~= t.subrange(0, m) + t.subrange(m, n as int));
            vstd::seq_lib::lemma_multiset_commutative(u.subrange(0, m), u.subrange(m, n as int));
            vstd::seq_lib::lemma_multiset_commutative(t.subrange(0, m), t.subrange(m, n as int));
        }
        end = end - 1;
    }
    proof {
        assert forall|a: int, b: int| 0 <= a < b < n implies #[trigger] le(v@[a], v@[b]) by {
            if a >= end {
            } else {
                assert(a == 0 && b >= 1);
            }
        }
    }
}

} // verus!
