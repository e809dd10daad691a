//! Values attached to elements, and sums of values over sets of elements.
use vstd::prelude::*;
use vstd::set_lib::*;

verus! {

/// The value attached to element `id`: identifiers count from zero, values from one.
pub open spec fn value_of(id: int) -> int {
    id + 1
}

/// The sum of the values of those members of `s` that lie in `[0, n)`.
pub open spec fn value_sum(s: Set<int>, n: nat) -> nat
    decreases n,
{
    if n == 0 {
        0
    } else {
        let rest = value_sum(s, (n - 1) as nat);
        if s.contains(n - 1) {
            rest + n
        } else {
            rest
        }
    }
}

/// The sum of the values of all elements in `[0, n)`.
pub open spec fn total_value(n: nat) -> nat
    decreases n,
{
    if n == 0 {
        0
    } else {
        total_value((n - 1) as nat) + n
    }
}

/// The total of the first `n` values is the `n`-th triangular number.
pub proof fn lemma_total_value_closed_form(n: nat)
    ensures
        2 * total_value(n) == n * (n + 1),
    decreases n,
{
    if n > 0 {
        let m = (n - 1) as nat;
        lemma_total_value_closed_form(m);
        assert(m * (m + 1) + 2 * (m + 1) == (m + 1) * (m + 2)) by (nonlinear_arith);
    } else {
        assert(n * (n + 1) == 0) by (nonlinear_arith)
            requires
                n == 0,
        ;
    }
}

/// No set of elements weighs more than all elements together.
pub proof fn lemma_value_sum_bound(s: Set<int>, n: nat)
    ensures
        value_sum(s, n) <= total_value(n),
    decreases n,
{
    if n > 0 {
        lemma_value_sum_bound(s, (n - 1) as nat);
    }
}

/// Members at or beyond the bound do not count.
pub proof fn lemma_value_sum_agree(a: Set<int>, b: Set<int>, n: nat)
    requires
        forall|i: int| 0 <= i < n ==> a.contains(i) == b.contains(i),
    ensures
        value_sum(a, n) == value_sum(b, n),
    decreases n,
{
    if n > 0 {
        lemma_value_sum_agree(a, b, (n - 1) as nat);
    }
}

/// The sum over two disjoint sets is the sum of their sums.
pub proof fn lemma_value_sum_disjoint_union(a: Set<int>, b: Set<int>, n: nat)
    requires
        a.disjoint(b),
    ensures
        value_sum(a.union(b), n) == value_sum(a, n) + value_sum(b, n),
    decreases n,
{
    if n > 0 {
        lemma_value_sum_disjoint_union(a, b, (n - 1) as nat);
        assert(!(a.contains(n - 1) && b.contains(n - 1)));
    }
}

/// Taking a member below the bound out of a set lowers the sum by its value.
pub proof fn lemma_value_sum_remove(s: Set<int>, p: int, n: nat)
    requires
        s.contains(p),
        0 <= p < n,
    ensures
        value_sum(s.remove(p), n) == value_sum(s, n) - value_of(p),
    decreases n,
{
    if p == n - 1 {
        lemma_value_sum_agree(s.remove(p), s, (n - 1) as nat);
    } else {
        lemma_value_sum_remove(s, p, (n - 1) as nat);
    }
}

/// Putting a new member below the bound into a set raises the sum by its value.
pub proof fn lemma_value_sum_insert(s: Set<int>, p: int, n: nat)
    requires
        !s.contains(p),
        0 <= p < n,
    ensures
        value_sum(s.insert(p), n) == value_sum(s, n) + value_of(p),
{
    lemma_value_sum_remove(s.insert(p), p, n);
    assert(s.insert(p).remove(p) =~= s);
}

/// The empty set sums to zero.
pub proof fn lemma_value_sum_empty(n: nat)
    ensures
        value_sum(Set::empty(), n) == 0,
    decreases n,
{
    if n > 0 {
        lemma_value_sum_empty((n - 1) as nat);
    }
}

/// A set of identifiers below `n` is finite and has at most `n` members.
pub proof fn lemma_bounded_set_len(s: Set<int>, n: nat)
    requires
        forall|i: int| s.contains(i) ==> 0 <= i < n,
    ensures
        s.finite(),
        s.len() <= n,
{
    lemma_int_range(0, n as int);
    lemma_len_subset(s, set_int_range(0, n as int));
}

} // verus!
