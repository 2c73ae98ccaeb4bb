//! Properties that relate several steps or several operations of the
//! strided iterators, stated over the sequences of remaining items that
//! their contracts speak of.
use crate::cursor::{ceil_div, every_nth, lemma_ceil_div, lemma_every_nth_index};
use vstd::arithmetic::div_mod::lemma_div_denominator;
use vstd::prelude::*;

verus! {

/// What forward steps yield, one after the other, until nothing remains: a
/// step yields the first remaining item and leaves the rest.
pub open spec fn drain_front<T>(s: Seq<T>) -> Seq<T>
    decreases s.len(),
{
    if s.len() == 0 {
        Seq::empty()
    } else {
        seq![s[0]] + drain_front(s.drop_first())
    }
}

/// What backward steps yield, one after the other, until nothing remains: a
/// step yields the last remaining item and leaves the rest.
pub open spec fn drain_back<T>(s: Seq<T>) -> Seq<T>
    decreases s.len(),
{
    if s.len() == 0 {
        Seq::empty()
    } else {
        seq![s.last()] + drain_back(s.drop_last())
    }
}

/// What remains after `k` forward steps.
pub open spec fn advance<T>(s: Seq<T>, k: nat) -> Seq<T>
    decreases k,
{
    if k == 0 || s.len() == 0 {
        s
    } else {
        advance(s.drop_first(), (k - 1) as nat)
    }
}

/// What remains after `k` backward steps.
pub open spec fn retreat<T>(s: Seq<T>, k: nat) -> Seq<T>
    decreases k,
{
    if k == 0 || s.len() == 0 {
        s
    } else {
        retreat(s.drop_last(), (k - 1) as nat)
    }
}

/// Stepping forward until nothing remains yields the remaining items in
/// order.
pub proof fn lemma_drain_front<T>(s: Seq<T>)
    ensures
        drain_front(s) == s,
    decreases s.len(),
{
    if s.len() > 0 {
        lemma_drain_front(s.drop_first());
        assert(seq![s[0]] + s.drop_first() =~= s);
    }
}

/// Stepping backward until nothing remains yields the remaining items in
/// reverse order.
pub proof fn lemma_drain_back<T>(s: Seq<T>)
    ensures
        drain_back(s) == s.reverse(),
    decreases s.len(),
{
    if s.len() > 0 {
        lemma_drain_back(s.drop_last());
        assert(seq![s.last()] + s.drop_last().reverse() =~= s.reverse());
    }
}

/// A fresh traversal of `xs` with step `step` yields `ceil(|xs| / step)`
/// items.
pub proof fn lemma_fresh_count<T>(xs: Seq<T>, step: nat)
    requires
        step > 0,
    ensures
        drain_front(every_nth(xs, step)).len() == ceil_div(xs.len() as int, step as int),
{
    lemma_ceil_div(xs.len() as int, step as int);
    lemma_drain_front(every_nth(xs, step));
}

/// The items that forward steps yield are those that backward steps yield,
/// in reverse order.
pub proof fn lemma_forward_backward<T>(s: Seq<T>)
    ensures
        drain_front(s) == drain_back(s).reverse(),
{
    lemma_drain_front(s);
    lemma_drain_back(s);
    assert(s.reverse().reverse() =~= s);
}

/// Reversing twice, with no step between, gives back the same traversal.
pub proof fn lemma_double_reverse<T>(s: Seq<T>)
    ensures
        s.reverse().reverse() == s,
        drain_front(s.reverse().reverse()) == drain_front(s),
{
    assert(s.reverse().reverse() =~= s);
}

/// After `k` forward steps, or `k` backward steps, the remaining count has
/// gone down by exactly `k`.
pub proof fn lemma_count_after_steps<T>(s: Seq<T>, k: nat)
    requires
        k <= s.len(),
    ensures
        advance(s, k).len() == s.len() - k,
        retreat(s, k).len() == s.len() - k,
        advance(s, k) == s.subrange(k as int, s.len() as int),
        retreat(s, k) == s.subrange(0, s.len() - k),
    decreases k,
{
    if k > 0 {
        lemma_count_after_steps(s.drop_first(), (k - 1) as nat);
        lemma_count_after_steps(s.drop_last(), (k - 1) as nat);
        assert(s.drop_first().subrange(k - 1, s.len() - 1) =~= s.subrange(k as int, s.len() as int));
        assert(s.drop_last().subrange(0, s.len() - 1 - (k - 1)) =~= s.subrange(0, s.len() - k));
    } else {
        assert(s.subrange(0, s.len() as int) =~= s);
    }
}

/// The `i`-th item is what the `(i + 1)`-th forward step yields.
pub proof fn lemma_index_is_step<T>(s: Seq<T>, i: nat)
    requires
        i < s.len(),
    ensures
        advance(s, i)[0] == s[i as int],
{
    lemma_count_after_steps(s, i);
}

/// Coarsening a traversal of `xs` with step `s1` by a further step `s2`
/// gives the traversal of `xs` with step `s1 * s2`, which has
/// `ceil(ceil(|xs| / s1) / s2)` items: a trailing group shorter than `s2`
/// still contributes its first item, so the count is `floor(count / s2)`
/// only when `s2` divides the count of the first traversal.
pub proof fn lemma_coarsen_fresh<T>(xs: Seq<T>, s1: nat, s2: nat)
    requires
        s1 > 0,
        s2 > 0,
    ensures
        every_nth(every_nth(xs, s1), s2) == every_nth(xs, s1 * s2),
        every_nth(every_nth(xs, s1), s2).len() == ceil_div(
            ceil_div(xs.len() as int, s1 as int),
            s2 as int,
        ),
        ceil_div(xs.len() as int, s1 as int) % (s2 as int) == 0 ==> every_nth(
            every_nth(xs, s1),
            s2,
        ).len() == ceil_div(xs.len() as int, s1 as int) / (s2 as int),
{
    let n = xs.len() as int;
    let a = s1 as int;
    let b = s2 as int;
    assert(a * b > 0) by (nonlinear_arith)
        requires
            a > 0,
            b > 0,
    ;
    lemma_ceil_div(n, a);
    let c1 = ceil_div(n, a);
    lemma_ceil_div(c1, b);
    lemma_ceil_div(n, a * b);
    if n > 0 {
        lemma_div_denominator(n - 1, a, b);
    }
    let lhs = every_nth(every_nth(xs, s1), s2);
    let rhs = every_nth(xs, s1 * s2);
    assert(lhs.len() == rhs.len());
    assert forall|k: int| 0 <= k < lhs.len() implies #[trigger] lhs[k] == rhs[k] by {
        lemma_every_nth_index(c1, b, k);
        lemma_every_nth_index(n, a * b, k);
        assert((k * b) * a == k * (a * b)) by (nonlinear_arith);
    }
    assert(lhs =~= rhs);
}

} // verus!
