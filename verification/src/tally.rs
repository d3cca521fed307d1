//! Sums of a quantity over the keys of a universe.
//!
//! A sum over a finite set of keys does not depend on the order in which
//! the keys are visited: a walk through the keys that visits each once
//! adds up to the sum over the set.

use vstd::prelude::*;

verus! {

/// The sum of `f` over a sequence of keys.
pub open spec fn seq_sum(s: Seq<usize>, f: spec_fn(usize) -> int) -> int
    decreases s.len(),
{
    if s.len() == 0 {
        0
    } else {
        seq_sum(s.drop_last(), f) + f(s.last())
    }
}

/// The sum of `f` over a finite set of keys.
pub open spec fn set_sum(s: Set<usize>, f: spec_fn(usize) -> int) -> int
    decreases s.len(),
    when s.finite()
{
    if s.len() == 0 {
        0
    } else {
        let k = s.choose();
        proof {
            lemma_nonempty_choose(s);
        }
        f(k) + set_sum(s.remove(k), f)
    }
}

pub proof fn lemma_nonempty_choose(s: Set<usize>)
    requires
        s.finite(),
        s.len() != 0,
    ensures
        s.contains(s.choose()),
        s.remove(s.choose()).len() < s.len(),
{
    if !s.contains(s.choose()) {
        assert(s =~= Set::<usize>::empty());
    }
}

/// Any element may be taken out of a sum over a set first.
pub proof fn lemma_set_sum_remove(s: Set<usize>, f: spec_fn(usize) -> int, x: usize)
    requires
        s.finite(),
        s.contains(x),
    ensures
        set_sum(s, f) == f(x) + set_sum(s.remove(x), f),
    decreases s.len(),
{
    lemma_nonempty_choose(s);
    let k = s.choose();
    if k != x {
        lemma_set_sum_remove(s.remove(k), f, x);
        lemma_set_sum_remove(s.remove(x), f, k);
        assert(s.remove(k).remove(x) =~= s.remove(x).remove(k));
    }
}

/// A walk that visits each element of a set once adds up to the sum over the set.
pub proof fn lemma_walk_sum(s: Seq<usize>, f: spec_fn(usize) -> int)
    requires
        s.no_duplicates(),
    ensures
        seq_sum(s, f) == set_sum(s.to_set(), f),
    decreases s.len(),
{
    if s.len() == 0 {
        assert(s.to_set() =~= Set::<usize>::empty());
    } else {
        let init = s.drop_last();
        let x = s.last();
        assert(init.no_duplicates()) by {
            assert forall|i: int, j: int|
                0 <= i < init.len() && 0 <= j < init.len() && i != j implies init[i] != init[j] by {
                assert(init[i] == s[i] && init[j] == s[j]);
            }
        }
        lemma_walk_sum(init, f);
        assert(!init.to_set().contains(x)) by {
            if init.to_set().contains(x) {
                let i = choose|i: int| 0 <= i < init.len() && #[trigger] init[i] == x;
                assert(s[i] == s[s.len() - 1]);
            }
        }
        assert(s.to_set().remove(x) =~= init.to_set()) by {
            assert forall|y: usize| #[trigger] s.to_set().remove(x).contains(y) implies init.to_set().contains(y) by {
                let i = choose|i: int| 0 <= i < s.len() && #[trigger] s[i] == y;
                assert(init[i] == y);
            }
            assert forall|y: usize| #[trigger] init.to_set().contains(y) implies s.to_set().remove(x).contains(y) by {
                let i = choose|i: int| 0 <= i < init.len() && #[trigger] init[i] == y;
                assert(s[i] == y);
            }
        }
        assert(s.to_set().contains(x)) by {
            assert(s[s.len() - 1] == x);
        }
        lemma_set_sum_remove(s.to_set(), f, x);
    }
}

/// With nonnegative terms, a prefix sums to no more than the whole.
pub proof fn lemma_seq_sum_prefix_le(s: Seq<usize>, f: spec_fn(usize) -> int, n: int)
    requires
        0 <= n <= s.len(),
        forall|k: usize| #[trigger] f(k) >= 0,
    ensures
        seq_sum(s.take(n), f) <= seq_sum(s, f),
    decreases s.len() - n,
{
    if n < s.len() {
        lemma_seq_sum_prefix_le(s, f, n + 1);
        assert(s.take(n + 1).drop_last() =~= s.take(n));
    } else {
        assert(s.take(n) =~= s);
    }
}

/// A sum of terms that are each at most `b` is at most `b` times their number.
pub proof fn lemma_set_sum_bound(s: Set<usize>, f: spec_fn(usize) -> int, b: int)
    requires
        s.finite(),
        forall|k: usize| #[trigger] s.contains(k) ==> 0 <= f(k) <= b,
    ensures
        0 <= set_sum(s, f) <= b * s.len(),
    decreases s.len(),
{
    if s.len() != 0 {
        lemma_nonempty_choose(s);
        let k = s.choose();
        lemma_set_sum_bound(s.remove(k), f, b);
        let n = s.remove(k).len() as int;
        assert(b * n + b == b * (n + 1)) by (nonlinear_arith);
    }
}

/// A set of keys each below `n` has at most `n` elements.
pub proof fn lemma_bounded_set_len(s: Set<usize>, n: nat)
    requires
        s.finite(),
        forall|k: usize| #[trigger] s.contains(k) ==> k < n,
    ensures
        s.len() <= n,
    decreases n,
{
    if n == 0 {
        if s.len() != 0 {
            lemma_nonempty_choose(s);
        }
    } else {
        let t = s.remove((n - 1) as usize);
        lemma_bounded_set_len(t, (n - 1) as nat);
    }
}

} // verus!
