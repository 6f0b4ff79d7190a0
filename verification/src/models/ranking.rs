//! Choosing a class from scores.
use vstd::prelude::*;

verus! {

/// Entry `i` is the first of the largest entries.
pub open spec fn is_first_max(s: Seq<int>, i: int) -> bool {
    &&& 0 <= i < s.len()
    &&& forall|j: int| 0 <= j < s.len() ==> #[trigger] s[j] <= s[i]
    &&& forall|j: int| 0 <= j < i ==> #[trigger] s[j] < s[i]
}

/// The index of the first of the largest entries.
pub open spec fn first_max(s: Seq<int>) -> int {
    choose|i: int| is_first_max(s, i)
}

/// Entry `i` is the last of the largest entries.
pub open spec fn is_last_max(s: Seq<int>, i: int) -> bool {
    &&& 0 <= i < s.len()
    &&& forall|j: int| 0 <= j < s.len() ==> #[trigger] s[j] <= s[i]
    &&& forall|j: int| i < j < s.len() ==> #[trigger] s[j] < s[i]
}

/// The index of the last of the largest entries.
pub open spec fn last_max(s: Seq<int>) -> int {
    choose|i: int| is_last_max(s, i)
}

/// Only one entry is the first of the largest.
pub proof fn lemma_first_max(s: Seq<int>, i: int)
    requires
        is_first_max(s, i),
    ensures
        first_max(s) == i,
{
    let k = first_max(s);
    assert(is_first_max(s, k));
    assert(s[i] <= s[k] && s[k] <= s[i]);
}

/// Only one entry is the last of the largest.
pub proof fn lemma_last_max(s: Seq<int>, i: int)
    requires
        is_last_max(s, i),
    ensures
        last_max(s) == i,
{
    let k = last_max(s);
    assert(is_last_max(s, k));
    assert(s[i] <= s[k] && s[k] <= s[i]);
}

/// How many of the first `n` predictions are the labels.
pub open spec fn count_correct(predicted: Seq<int>, ys: Seq<usize>, n: nat) -> nat
    decreases n,
{
    if n == 0 {
        0
    } else {
        count_correct(predicted, ys, (n - 1) as nat) + if predicted[n - 1] == ys[n - 1] {
            1nat
        } else {
            0
        }
    }
}

/// Of at least one entry there is a first of the largest and a last of the largest.
pub proof fn lemma_max_exists(s: Seq<int>)
    requires
        s.len() > 0,
    ensures
        is_first_max(s, first_max(s)),
        is_last_max(s, last_max(s)),
    decreases s.len(),
{
    if s.len() == 1 {
        assert(is_first_max(s, 0));
        assert(is_last_max(s, 0));
    } else {
        let t = s.drop_last();
        lemma_max_exists(t);
        let a = first_max(t);
        let b = last_max(t);
        let n = s.len() - 1;
        assert forall|j: int| 0 <= j < n implies #[trigger] s[j] == t[j] by {}
        if s[n] > t[a] {
            assert(is_first_max(s, n));
        } else {
            assert(is_first_max(s, a));
        }
        if s[n] >= t[b] {
            assert(is_last_max(s, n));
        } else {
            assert(is_last_max(s, b));
        }
    }
}

} // verus!
