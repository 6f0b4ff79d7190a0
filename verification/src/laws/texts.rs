//! How texts are ordered, and which column a token belongs to.
use crate::text::{colons_from, column_of, diverges, text_before};
use crate::vocabulary::token_count;
use vstd::prelude::*;

verus! {

/// Of two texts the one with the smaller character at the first difference comes first, and a text
/// comes before those that go on where it ends. No text comes before itself.
pub proof fn lemma_first_difference_decides(
    p: Seq<char>,
    c: char,
    s: Seq<char>,
    d: char,
    t: Seq<char>,
)
    ensures
        c < d ==> text_before(p.push(c) + s, p.push(d) + t) && !text_before(
            p.push(d) + t,
            p.push(c) + s,
        ),
        text_before(p, p.push(c) + s),
        !text_before(p.push(c) + s, p),
        !text_before(p, p),
{
    let n = p.len() as int;
    let a = p.push(c) + s;
    let b = p.push(d) + t;
    assert(a[n] == c);
    assert(b[n] == d);
    assert forall|i: int| 0 <= i < n implies #[trigger] a[i] == p[i] && b[i] == p[i] by {}
    assert(diverges(p, a, n));
    assert forall|k: int| !#[trigger] diverges(p, p, k) by {}
    assert forall|k: int| !#[trigger] diverges(a, p, k) by {
        if 0 <= k < p.len() {
            assert(a[k] == p[k]);
        }
    }
    if c < d {
        assert(diverges(a, b, n));
        assert forall|k: int| !#[trigger] diverges(b, a, k) by {
            if diverges(b, a, k) {
                if k < n {
                    assert(a[k] == b[k]);
                } else if k > n {
                    assert(b[n] == a[n]);
                }
            }
        }
    }
}

proof fn lemma_colons_at(t: Seq<char>, n: int, i: int)
    requires
        0 <= i <= n <= t.len(),
        forall|k: int|
            #![trigger t[k]]
            i <= k < n && k + 1 < t.len() ==> !(t[k] == ':' && t[k + 1] == ':'),
        n == t.len() || (n + 1 < t.len() && t[n] == ':' && t[n + 1] == ':'),
    ensures
        colons_from(t, i) == n,
    decreases n - i,
{
    if i < n {
        assert(i + 1 < t.len() ==> !(t[i] == ':' && t[i + 1] == ':'));
        if i + 1 < t.len() {
            lemma_colons_at(t, n, i + 1);
        } else {
            assert(n == t.len());
        }
    }
}

/// The column of a token is what stands before its first pair of colons, and a token without such
/// a pair is its own column.
pub proof fn lemma_column_ends_at_colons(a: Seq<char>, b: Seq<char>, t: Seq<char>)
    requires
        t == a.push(':').push(':') + b,
        forall|k: int| #![trigger t[k]] 0 <= k < a.len() ==> !(t[k] == ':' && t[k + 1] == ':'),
    ensures
        column_of(t) == a,
{
    assert(t[a.len() as int] == ':' && t[a.len() as int + 1] == ':');
    lemma_colons_at(t, a.len() as int, 0);
    assert(t.take(a.len() as int) =~= a);
}

/// A token without a pair of colons is its own column.
pub proof fn lemma_plain_token_is_column(t: Seq<char>)
    requires
        forall|k: int|
            #![trigger t[k]]
            0 <= k && k + 1 < t.len() ==> !(t[k] == ':' && t[k + 1] == ':'),
    ensures
        column_of(t) == t,
{
    lemma_colons_at(t, t.len() as int, 0);
    assert(t.take(t.len() as int) =~= t);
}

/// The tokens of all samples are counted, as often as they occur.
pub proof fn lemma_tokens_counted(samples: Seq<Seq<Seq<char>>>, n: nat)
    requires
        n <= samples.len(),
    ensures
        token_count(samples, n) == samples.take(n as int).flatten().len(),
    decreases n,
{
    if n > 0 {
        lemma_tokens_counted(samples, (n - 1) as nat);
        assert(samples.take(n as int) =~= samples.take(n - 1).push(samples[n - 1]));
        samples.take(n - 1).lemma_flatten_push(samples[n - 1]);
    } else {
        assert(samples.take(0).flatten() =~= Seq::empty());
    }
}

} // verus!
