//! Sums of a function over a finite set, and sums of counters.

use vstd::prelude::*;

verus! {

/// The sum of `f` over the elements of the finite set `s`.
pub open spec fn set_sum<A>(s: Set<A>, f: spec_fn(A) -> nat) -> nat {
    s.fold(0nat, |sum: nat, a: A| sum + f(a))
}

/// The sum over the empty set is 0.
pub proof fn lemma_set_sum_empty<A>(f: spec_fn(A) -> nat)
    ensures
        set_sum(Set::<A>::empty(), f) == 0,
{
    vstd::set::fold::lemma_fold_empty(0nat, |sum: nat, a: A| sum + f(a));
}

/// A new element adds its value to the sum.
pub proof fn lemma_set_sum_insert<A>(s: Set<A>, f: spec_fn(A) -> nat, a: A)
    requires
        s.finite(),
        !s.contains(a),
    ensures
        set_sum(s.insert(a), f) == set_sum(s, f) + f(a),
{
    let step = |sum: nat, a: A| sum + f(a);
    assert(vstd::set::fold::is_fun_commutative(step));
    vstd::set::fold::lemma_fold_insert(s, 0nat, step, a);
}

/// An element's value can be taken out of the sum.
pub proof fn lemma_set_sum_remove<A>(s: Set<A>, f: spec_fn(A) -> nat, a: A)
    requires
        s.finite(),
        s.contains(a),
    ensures
        set_sum(s, f) == set_sum(s.remove(a), f) + f(a),
{
    lemma_set_sum_insert(s.remove(a), f, a);
    assert(s.remove(a).insert(a) =~= s);
}

/// The sum depends only on the values that the function takes on the set.
pub proof fn lemma_set_sum_agree<A>(s: Set<A>, f: spec_fn(A) -> nat, h: spec_fn(A) -> nat)
    requires
        s.finite(),
        forall|a: A| s.contains(a) ==> f(a) == h(a),
    ensures
        set_sum(s, f) == set_sum(s, h),
    decreases s.len(),
{
    if s.len() == 0 {
        assert(s =~= Set::empty());
        lemma_set_sum_empty(f);
        lemma_set_sum_empty(h);
    } else {
        let a = s.choose();
        lemma_set_sum_agree(s.remove(a), f, h);
        lemma_set_sum_remove(s, f, a);
        lemma_set_sum_remove(s, h, a);
    }
}

/// The sum of a sequence of counters.
pub open spec fn seq_sum(counters: Seq<u128>) -> nat
    decreases counters.len(),
{
    if counters.len() == 0 {
        0
    } else {
        seq_sum(counters.drop_last()) + counters.last() as nat
    }
}

/// A sequence of zeros sums to 0.
pub proof fn lemma_seq_sum_zeros(counters: Seq<u128>)
    requires
        forall|i: int| 0 <= i < counters.len() ==> counters[i] == 0,
    ensures
        seq_sum(counters) == 0,
    decreases counters.len(),
{
    if counters.len() > 0 {
        lemma_seq_sum_zeros(counters.drop_last());
    }
}

/// The sum of a sequence is the sum of its two parts.
pub proof fn lemma_seq_sum_split(counters: Seq<u128>, at: int)
    requires
        0 <= at <= counters.len(),
    ensures
        seq_sum(counters) == seq_sum(counters.take(at)) + seq_sum(counters.skip(at)),
    decreases counters.len(),
{
    if at == counters.len() {
        assert(counters.take(at) =~= counters);
        assert(counters.skip(at) =~= Seq::empty());
    } else {
        let front = counters.drop_last();
        lemma_seq_sum_split(front, at);
        assert(front.take(at) =~= counters.take(at));
        assert(counters.skip(at).drop_last() =~= front.skip(at));
    }
}

/// No counter exceeds the sum, and a new value for one counter changes
/// the sum by as much as the counter.
pub proof fn lemma_seq_sum_update(counters: Seq<u128>, at: int, value: u128)
    requires
        0 <= at < counters.len(),
    ensures
        counters[at] <= seq_sum(counters),
        seq_sum(counters.update(at, value)) == seq_sum(counters) - counters[at] + value,
    decreases counters.len(),
{
    let front = counters.drop_last();
    if at == counters.len() - 1 {
        assert(counters.update(at, value).drop_last() =~= front);
    } else {
        lemma_seq_sum_update(front, at, value);
        assert(counters.update(at, value).drop_last() =~= front.update(at, value));
    }
}

} // verus!
