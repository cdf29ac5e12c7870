//! Sums over finite sets and over sequences.

use vstd::prelude::*;

verus! {

/// Sum of `f` over the members of a finite set; zero for an infinite one.
pub open spec fn sum_over<K>(s: Set<K>, f: spec_fn(K) -> int) -> int
    decreases s.len(),
    when s.finite()
{
    if s.is_empty() {
        0
    } else {
        let k = s.choose();
        f(k) + sum_over(s.remove(k), f)
    }
}

/// Any member can be taken out of the sum first.
pub proof fn lemma_sum_over_remove<K>(s: Set<K>, f: spec_fn(K) -> int, k: K)
    requires
        s.finite(),
        s.contains(k),
    ensures
        sum_over(s, f) == f(k) + sum_over(s.remove(k), f),
    decreases s.len(),
{
    let c = s.choose();
    if c != k {
        lemma_sum_over_remove(s.remove(c), f, k);
        lemma_sum_over_remove(s.remove(k), f, c);
        assert(s.remove(c).remove(k) =~= s.remove(k).remove(c));
    }
}

/// A new member adds its own term.
pub proof fn lemma_sum_over_insert<K>(s: Set<K>, f: spec_fn(K) -> int, k: K)
    requires
        s.finite(),
        !s.contains(k),
    ensures
        sum_over(s.insert(k), f) == f(k) + sum_over(s, f),
{
    lemma_sum_over_remove(s.insert(k), f, k);
    assert(s.insert(k).remove(k) =~= s);
}

/// Two functions that agree on the set have the same sum.
pub proof fn lemma_sum_over_agree<K>(s: Set<K>, f: spec_fn(K) -> int, g: spec_fn(K) -> int)
    requires
        s.finite(),
        forall|k: K| s.contains(k) ==> #[trigger] f(k) == g(k),
    ensures
        sum_over(s, f) == sum_over(s, g),
    decreases s.len(),
{
    if !s.is_empty() {
        let c = s.choose();
        lemma_sum_over_agree(s.remove(c), f, g);
    }
}

/// A sum of non-negative terms is non-negative and at least as large as
/// each term.
pub proof fn lemma_sum_over_nonneg<K>(s: Set<K>, f: spec_fn(K) -> int)
    requires
        s.finite(),
        forall|k: K| s.contains(k) ==> 0 <= #[trigger] f(k),
    ensures
        0 <= sum_over(s, f),
        forall|k: K| s.contains(k) ==> #[trigger] f(k) <= sum_over(s, f),
    decreases s.len(),
{
    if !s.is_empty() {
        let c = s.choose();
        lemma_sum_over_nonneg(s.remove(c), f);
        assert forall|k: K| s.contains(k) implies #[trigger] f(k) <= sum_over(s, f) by {
            if k != c {
                assert(s.remove(c).contains(k));
            }
        }
    }
}

/// Changing one term changes the sum by the same amount.
pub proof fn lemma_sum_over_change<K>(
    s: Set<K>,
    f: spec_fn(K) -> int,
    g: spec_fn(K) -> int,
    k: K,
)
    requires
        s.finite(),
        s.contains(k),
        forall|j: K| s.contains(j) && j != k ==> #[trigger] f(j) == g(j),
    ensures
        sum_over(s, g) == sum_over(s, f) - f(k) + g(k),
{
    lemma_sum_over_remove(s, f, k);
    lemma_sum_over_remove(s, g, k);
    lemma_sum_over_agree(s.remove(k), f, g);
}

/// Sum of `f` over the items of a sequence.
pub open spec fn sum_seq<T>(s: Seq<T>, f: spec_fn(T) -> int) -> int
    decreases s.len(),
{
    if s.len() == 0 {
        0
    } else {
        sum_seq(s.drop_last(), f) + f(s.last())
    }
}

/// An item pushed at the end adds its own term.
pub proof fn lemma_sum_seq_push<T>(s: Seq<T>, f: spec_fn(T) -> int, x: T)
    ensures
        sum_seq(s.push(x), f) == sum_seq(s, f) + f(x),
{
    assert(s.push(x).drop_last() =~= s);
}

/// Taking out the item at `i` takes out its term.
pub proof fn lemma_sum_seq_remove<T>(s: Seq<T>, f: spec_fn(T) -> int, i: int)
    requires
        0 <= i < s.len(),
    ensures
        sum_seq(s.remove(i), f) == sum_seq(s, f) - f(s[i]),
    decreases s.len(),
{
    if i == s.len() - 1 {
        assert(s.remove(i) =~= s.drop_last());
    } else {
        lemma_sum_seq_remove(s.drop_last(), f, i);
        assert(s.remove(i).drop_last() =~= s.drop_last().remove(i));
        assert(s.remove(i).last() == s.last());
    }
}

/// Replacing the item at `i` replaces its term.
pub proof fn lemma_sum_seq_update<T>(s: Seq<T>, f: spec_fn(T) -> int, i: int, x: T)
    requires
        0 <= i < s.len(),
    ensures
        sum_seq(s.update(i, x), f) == sum_seq(s, f) - f(s[i]) + f(x),
    decreases s.len(),
{
    if i == s.len() - 1 {
        assert(s.update(i, x).drop_last() =~= s.drop_last());
    } else {
        lemma_sum_seq_update(s.drop_last(), f, i, x);
        assert(s.update(i, x).drop_last() =~= s.drop_last().update(i, x));
    }
}

/// A sum of non-negative terms is non-negative and at least as large as
/// each term.
pub proof fn lemma_sum_seq_nonneg<T>(s: Seq<T>, f: spec_fn(T) -> int)
    requires
        forall|i: int| 0 <= i < s.len() ==> 0 <= #[trigger] f(s[i]),
    ensures
        0 <= sum_seq(s, f),
        forall|i: int| 0 <= i < s.len() ==> #[trigger] f(s[i]) <= sum_seq(s, f),
    decreases s.len(),
{
    if s.len() > 0 {
        let t = s.drop_last();
        assert forall|i: int| 0 <= i < t.len() implies 0 <= #[trigger] f(t[i]) by {
            assert(t[i] == s[i]);
        }
        lemma_sum_seq_nonneg(t, f);
        assert(0 <= f(s[s.len() - 1]));
        assert forall|i: int| 0 <= i < s.len() implies #[trigger] f(s[i]) <= sum_seq(s, f) by {
            if i < s.len() - 1 {
                assert(t[i] == s[i]);
                assert(f(t[i]) <= sum_seq(t, f));
            }
        }
    }
}

/// A sum of zeros is zero.
pub proof fn lemma_sum_over_zero<K>(s: Set<K>, f: spec_fn(K) -> int)
    requires
        s.finite(),
        forall|k: K| s.contains(k) ==> #[trigger] f(k) == 0,
    ensures
        sum_over(s, f) == 0,
    decreases s.len(),
{
    if !s.is_empty() {
        let c = s.choose();
        lemma_sum_over_zero(s.remove(c), f);
    }
}

/// A sum of zeros is zero.
pub proof fn lemma_sum_seq_zero<T>(s: Seq<T>, f: spec_fn(T) -> int)
    requires
        forall|i: int| 0 <= i < s.len() ==> #[trigger] f(s[i]) == 0,
    ensures
        sum_seq(s, f) == 0,
    decreases s.len(),
{
    if s.len() > 0 {
        let t = s.drop_last();
        assert forall|i: int| 0 <= i < t.len() implies #[trigger] f(t[i]) == 0 by {
            assert(t[i] == s[i]);
        }
        lemma_sum_seq_zero(t, f);
        assert(f(s[s.len() - 1]) == 0);
    }
}

} // verus!
