//! Sums of a function over a sequence of keys, with the facts the permit
//! accounting needs.
use vstd::prelude::*;

verus! {

/// The sum of `f` over the keys of `s`, first key first.
pub open spec fn seq_sum(s: Seq<usize>, f: spec_fn(usize) -> int) -> int
    decreases s.len(),
{
    if s.len() == 0 {
        0
    } else {
        f(s[0]) + seq_sum(s.subrange(1, s.len() as int), f)
    }
}

/// Appending a key adds its value.
pub proof fn lemma_sum_push(s: Seq<usize>, f: spec_fn(usize) -> int, x: usize)
    ensures
        seq_sum(s.push(x), f) == seq_sum(s, f) + f(x),
    decreases s.len(),
{
    if s.len() == 0 {
        assert(s.push(x).subrange(1, 1) =~= Seq::<usize>::empty());
        assert(seq_sum(s.push(x).subrange(1, 1), f) == 0);
        assert(s.push(x)[0] == x);
    } else {
        let t = s.subrange(1, s.len() as int);
        lemma_sum_push(t, f, x);
        assert(s.push(x).subrange(1, s.push(x).len() as int) =~= t.push(x));
        assert(s.push(x)[0] == s[0]);
    }
}

/// Concatenation adds the sums.
pub proof fn lemma_sum_append(a: Seq<usize>, b: Seq<usize>, f: spec_fn(usize) -> int)
    ensures
        seq_sum(a + b, f) == seq_sum(a, f) + seq_sum(b, f),
    decreases a.len(),
{
    if a.len() == 0 {
        assert(a + b =~= b);
    } else {
        let t = a.subrange(1, a.len() as int);
        lemma_sum_append(t, b, f);
        assert((a + b).subrange(1, (a + b).len() as int) =~= t + b);
    }
}

/// Removing the key at `i` subtracts its value.
pub proof fn lemma_sum_remove(s: Seq<usize>, f: spec_fn(usize) -> int, i: int)
    requires
        0 <= i < s.len(),
    ensures
        seq_sum(s.remove(i), f) == seq_sum(s, f) - f(s[i]),
{
    let a = s.subrange(0, i);
    let b = s.subrange(i + 1, s.len() as int);
    lemma_sum_append(a, b, f);
    let c = s.subrange(i, s.len() as int);
    lemma_sum_append(a, c, f);
    assert(a + c =~= s);
    assert(c.subrange(1, c.len() as int) =~= b);
    assert(s.remove(i) =~= a + b);
}

/// The sum depends only on the values of `f` at the keys of `s`.
pub proof fn lemma_sum_congruent(s: Seq<usize>, f: spec_fn(usize) -> int, g: spec_fn(usize) -> int)
    requires
        forall|i: int| 0 <= i < s.len() ==> f(#[trigger] s[i]) == g(s[i]),
    ensures
        seq_sum(s, f) == seq_sum(s, g),
    decreases s.len(),
{
    if s.len() > 0 {
        let t = s.subrange(1, s.len() as int);
        assert forall|i: int| 0 <= i < t.len() implies f(#[trigger] t[i]) == g(t[i]) by {
            assert(t[i] == s[i + 1]);
        }
        lemma_sum_congruent(t, f, g);
    }
}

/// Changing the value of `f` at a single key changes the sum by the
/// difference, once if the key occurs (once) in `s`.
pub proof fn lemma_sum_update(
    s: Seq<usize>,
    f: spec_fn(usize) -> int,
    g: spec_fn(usize) -> int,
    x: usize,
)
    requires
        s.no_duplicates(),
        forall|k: usize| k != x ==> #[trigger] f(k) == g(k),
    ensures
        seq_sum(s, g) == seq_sum(s, f) + (if s.contains(x) {
            g(x) - f(x)
        } else {
            0
        }),
    decreases s.len(),
{
    if s.len() > 0 {
        let t = s.subrange(1, s.len() as int);
        assert(t.no_duplicates()) by {
            assert forall|a: int, b: int| 0 <= a < t.len() && 0 <= b < t.len() && a != b implies t[a]
                != t[b] by {
                assert(t[a] == s[a + 1]);
                assert(t[b] == s[b + 1]);
            }
        }
        lemma_sum_update(t, f, g, x);
        if s[0] == x {
            assert(!t.contains(x)) by {
                if t.contains(x) {
                    let j = choose|j: int| 0 <= j < t.len() && t[j] == x;
                    assert(s[j + 1] == x);
                }
            }
        } else {
            assert(s.contains(x) == t.contains(x)) by {
                if s.contains(x) {
                    let j = choose|j: int| 0 <= j < s.len() && s[j] == x;
                    assert(j != 0);
                    assert(t[j - 1] == x);
                }
                if t.contains(x) {
                    let j = choose|j: int| 0 <= j < t.len() && t[j] == x;
                    assert(s[j + 1] == x);
                }
            }
        }
    }
}

/// A sum of non-negative values is non-negative.
pub proof fn lemma_sum_nonneg(s: Seq<usize>, f: spec_fn(usize) -> int)
    requires
        forall|i: int| 0 <= i < s.len() ==> f(#[trigger] s[i]) >= 0,
    ensures
        seq_sum(s, f) >= 0,
    decreases s.len(),
{
    if s.len() > 0 {
        let t = s.subrange(1, s.len() as int);
        assert forall|i: int| 0 <= i < t.len() implies f(#[trigger] t[i]) >= 0 by {
            assert(t[i] == s[i + 1]);
        }
        lemma_sum_nonneg(t, f);
    }
}


/// With non-negative values, each value is at most the sum.
pub proof fn lemma_sum_elem_le(s: Seq<usize>, f: spec_fn(usize) -> int, i: int)
    requires
        0 <= i < s.len(),
        forall|j: int| 0 <= j < s.len() ==> f(#[trigger] s[j]) >= 0,
    ensures
        f(s[i]) <= seq_sum(s, f),
    decreases s.len(),
{
    let t = s.subrange(1, s.len() as int);
    assert forall|j: int| 0 <= j < t.len() implies f(#[trigger] t[j]) >= 0 by {
        assert(t[j] == s[j + 1]);
    }
    lemma_sum_nonneg(t, f);
    if i > 0 {
        lemma_sum_elem_le(t, f, i - 1);
        assert(t[i - 1] == s[i]);
    }
}

} // verus!
