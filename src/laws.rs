//! What holds of a whole run of insertions into a `LimitedBinaryHeap`.
use vstd::prelude::*;
use vstd::multiset::Multiset;
use crate::order::{le, lt, sorted, total_order, equal_is_identity, lemma_total, lemma_trans, lemma_sorted_unique};
use crate::limited::{is_max_of, insert_step};

verus! {

broadcast use {
    vstd::seq_lib::group_to_multiset_ensures,
    vstd::multiset::group_multiset_axioms,
    vstd::multiset::group_multiset_properties,
};

/// `states` lists what a heap with limit `limit` holds when empty and after
/// each insertion of `values` in turn, each step as `insert` describes it.
pub open spec fn is_run<T: Ord>(limit: nat, values: Seq<T>, states: Seq<Multiset<T>>) -> bool {
    &&& states.len() == values.len() + 1
    &&& states[0] == Multiset::<T>::empty()
    &&& forall|i: int| 0 <= i < values.len() ==> #[trigger] insert_step(limit, states[i], values[i], states[i + 1])
}

pub open spec fn min_nat(a: nat, b: nat) -> nat {
    if a <= b { a } else { b }
}

/// `kept` is a choice of the `limit` smallest values of `all` (all of them if
/// there are fewer): together with the values `dropped` it makes up `all`,
/// and nothing kept orders above anything dropped.
pub open spec fn keeps_smallest<T: Ord>(limit: nat, all: Multiset<T>, kept: Multiset<T>, dropped: Multiset<T>) -> bool {
    &&& kept.add(dropped) == all
    &&& kept.len() == min_nat(all.len(), limit)
    &&& forall|x: T, y: T| #[trigger] kept.contains(x) && #[trigger] dropped.contains(y) ==> le(x, y)
}

proof fn lemma_step_len<T: Ord>(limit: nat, before: Multiset<T>, value: T, after: Multiset<T>)
    requires
        insert_step(limit, before, value, after),
    ensures
        after.len() == if before.len() < limit { before.len() + 1 } else { before.len() },
{
    if before.len() >= limit {
        let m = choose|m: T| #[trigger] is_max_of(m, before) && after == (if lt(value, m) {
            before.remove(m).insert(value)
        } else {
            before
        });
    }
}

/// After `i` insertions the heap holds `min(i, limit)` values.
proof fn lemma_len_at<T: Ord>(limit: nat, values: Seq<T>, states: Seq<Multiset<T>>, i: int)
    requires
        is_run(limit, values, states),
        0 <= i <= values.len(),
    ensures
        states[i].len() == min_nat(i as nat, limit),
    decreases i,
{
    if i > 0 {
        lemma_len_at(limit, values, states, i - 1);
        let k = i - 1;
        assert(insert_step(limit, states[k], values[k], states[k + 1]));
        lemma_step_len(limit, states[k], values[k], states[k + 1]);
    }
}

/// However many values are inserted, the heap ends up holding as many of
/// them as its limit allows: `min(values.len(), limit)`.
pub proof fn lemma_held_count<T: Ord>(limit: nat, values: Seq<T>, states: Seq<Multiset<T>>)
    requires
        is_run(limit, values, states),
    ensures
        states.last().len() == min_nat(values.len(), limit),
{
    lemma_len_at(limit, values, states, values.len() as int);
}

/// Once the heap holds `limit` values it never holds fewer: every eviction
/// comes with an admission.
pub proof fn lemma_full_stays_full<T: Ord>(limit: nat, values: Seq<T>, states: Seq<Multiset<T>>, i: int, j: int)
    requires
        is_run(limit, values, states),
        0 <= i <= j <= values.len(),
        states[i].len() == limit,
    ensures
        states[j].len() == limit,
{
    lemma_len_at(limit, values, states, i);
    lemma_len_at(limit, values, states, j);
}

/// The values dropped by the first `i` insertions, with the proof that the
/// heap keeps the smallest ones.
proof fn lemma_dropped_at<T: Ord>(limit: nat, values: Seq<T>, states: Seq<Multiset<T>>, i: int) -> (d: Multiset<T>)
    requires
        total_order::<T>(),
        is_run(limit, values, states),
        0 <= i <= values.len(),
    ensures
        keeps_smallest(limit, values.take(i).to_multiset(), states[i], d),
    decreases i,
{
    if i == 0 {
        assert(values.take(0) =~= Seq::<T>::empty());
        let d = Multiset::<T>::empty();
        assert(states[0].add(d) =~= values.take(0).to_multiset());
        d
    } else {
        let k = i - 1;
        let d = lemma_dropped_at(limit, values, states, k);
        let kept = states[k];
        let after = states[k + 1];
        let v = values[k];
        let all = values.take(k).to_multiset();
        assert(values.take(i) =~= values.take(k).push(v));
        assert(values.take(i).to_multiset() == all.insert(v));
        assert(insert_step(limit, kept, v, after));
        lemma_len_at(limit, values, states, i);
        if kept.len() < limit {
            assert(d.len() == 0);
            assert(d =~= Multiset::<T>::empty());
            assert(after.add(d) =~= all.insert(v));
            d
        } else {
            let m = choose|m: T| #[trigger] is_max_of(m, kept) && after == (if lt(v, m) {
                kept.remove(m).insert(v)
            } else {
                kept
            });
            lemma_total(v, m);
            if lt(v, m) {
                let d2 = d.insert(m);
                assert(after.add(d2) =~= all.insert(v));
                assert forall|x: T, y: T| #[trigger] after.contains(x) && #[trigger] d2.contains(y) implies le(x, y) by {
                    if x == v {
                        assert(le(v, m));
                        if y != m {
                            assert(kept.contains(m) && d.contains(y));
                            lemma_trans(v, m, y);
                        }
                    } else {
                        assert(kept.remove(m).contains(x));
                        assert(kept.contains(x));
                        if y == m {
                            assert(le(x, m));
                        } else {
                            assert(d.contains(y));
                        }
                    }
                }
                d2
            } else {
                let d2 = d.insert(v);
                assert(after.add(d2) =~= all.insert(v));
                assert forall|x: T, y: T| #[trigger] after.contains(x) && #[trigger] d2.contains(y) implies le(x, y) by {
                    assert(after == kept);
                    if y == v {
                        assert(le(x, m));
                        assert(le(m, v));
                        lemma_trans(x, m, v);
                    } else {
                        assert(d.contains(y));
                    }
                }
                d2
            }
        }
    }
}

/// After any run of insertions, the heap holds a choice of the `limit`
/// smallest values inserted (all of them when there were fewer): with the
/// values it dropped it makes up everything inserted, and nothing it holds
/// orders above anything it dropped.
pub proof fn lemma_keeps_smallest<T: Ord>(limit: nat, values: Seq<T>, states: Seq<Multiset<T>>)
    requires
        total_order::<T>(),
        is_run(limit, values, states),
    ensures
        exists|dropped: Multiset<T>| keeps_smallest(limit, values.to_multiset(), states.last(), dropped),
{
    let d = lemma_dropped_at(limit, values, states, values.len() as int);
    assert(values.take(values.len() as int) =~= values);
    assert(keeps_smallest(limit, values.to_multiset(), states.last(), d));
}

/// With no more values than the limit, the heap holds exactly the values
/// inserted, whatever their order.
pub proof fn lemma_keeps_all_under_limit<T: Ord>(limit: nat, values: Seq<T>, states: Seq<Multiset<T>>)
    requires
        total_order::<T>(),
        is_run(limit, values, states),
        values.len() <= limit,
    ensures
        states.last() == values.to_multiset(),
{
    let d = lemma_dropped_at(limit, values, states, values.len() as int);
    assert(values.take(values.len() as int) =~= values);
    assert(d.len() == 0);
    assert(d =~= Multiset::<T>::empty());
    assert(states.last().add(d) =~= states.last());
}

/// With no more values than the limit, the order of insertion does not
/// matter: two runs over the same values, in any orders, drain (as
/// `into_sorted_vec` does: sorted, with the values held) to the same
/// sequence, wherever comparing equal means being the same value.
pub proof fn lemma_order_independent_under_limit<T: Ord>(
    limit: nat,
    values1: Seq<T>,
    states1: Seq<Multiset<T>>,
    drained1: Seq<T>,
    values2: Seq<T>,
    states2: Seq<Multiset<T>>,
    drained2: Seq<T>,
)
    requires
        total_order::<T>(),
        equal_is_identity::<T>(),
        is_run(limit, values1, states1),
        is_run(limit, values2, states2),
        values1.len() <= limit,
        values1.to_multiset() == values2.to_multiset(),
        sorted(drained1),
        drained1.to_multiset() == states1.last(),
        sorted(drained2),
        drained2.to_multiset() == states2.last(),
    ensures
        drained1 == drained2,
        drained1.to_multiset() == values1.to_multiset(),
{
    assert(values2.len() == values2.to_multiset().len());
    lemma_keeps_all_under_limit(limit, values1, states1);
    lemma_keeps_all_under_limit(limit, values2, states2);
    lemma_sorted_unique(drained1, drained2);
}

} // verus!
