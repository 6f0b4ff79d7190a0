//! The order of texts, sorted lists of texts, and the columns of tokens.
use vstd::prelude::*;
use vstd::string::{axiom_spec_iter, StrSliceExecFns, StringExecFns};

verus! {

/// `a` and `b` agree on their first `k` characters; there `a` ends, or has the smaller
/// character.
pub open spec fn diverges(a: Seq<char>, b: Seq<char>, k: int) -> bool {
    &&& 0 <= k <= a.len()
    &&& k < b.len()
    &&& forall|i: int| 0 <= i < k ==> #[trigger] a[i] == b[i]
    &&& k == a.len() || a[k] < b[k]
}

/// `a` comes before `b` in the order of texts, by code points.
pub open spec fn text_before(a: Seq<char>, b: Seq<char>) -> bool {
    exists|k: int| diverges(a, b, k)
}

/// The order of texts is transitive.
pub proof fn lemma_before_transitive(a: Seq<char>, b: Seq<char>, c: Seq<char>)
    requires
        text_before(a, b),
        text_before(b, c),
    ensures
        text_before(a, c),
{
    let k1 = choose|k: int| diverges(a, b, k);
    let k2 = choose|k: int| diverges(b, c, k);
    let k = if k1 <= k2 {
        k1
    } else {
        k2
    };
    assert forall|i: int| 0 <= i < k implies #[trigger] a[i] == c[i] by {
        assert(a[i] == b[i]);
        assert(b[i] == c[i]);
    }
    if k1 < k2 {
        assert(b[k1] == c[k1]);
    } else if k2 < k1 {
        assert(a[k2] == b[k2]);
    }
    assert(diverges(a, c, k));
}

/// No text comes before itself, and of two texts at most one comes before the other.
pub proof fn lemma_before_strict(a: Seq<char>, b: Seq<char>)
    requires
        text_before(a, b),
    ensures
        !text_before(b, a),
        a != b,
{
    let k = choose|k: int| diverges(a, b, k);
    if a == b {
        assert(a[k] < b[k]);
    }
    if text_before(b, a) {
        let j = choose|j: int| diverges(b, a, j);
        if j < k {
            assert(a[j] == b[j]);
        } else if k < j {
            assert(b[k] == a[k]);
        }
    }
}

/// Of two different texts one comes before the other.
pub proof fn lemma_before_total(a: Seq<char>, b: Seq<char>)
    ensures
        a == b || text_before(a, b) || text_before(b, a),
{
    lemma_before_total_from(a, b, 0);
}

proof fn lemma_before_total_from(a: Seq<char>, b: Seq<char>, k: int)
    requires
        0 <= k <= a.len(),
        k <= b.len(),
        forall|i: int| 0 <= i < k ==> #[trigger] a[i] == b[i],
    ensures
        a == b || text_before(a, b) || text_before(b, a),
    decreases a.len() - k,
{
    if k == a.len() && k == b.len() {
        assert(a =~= b);
    } else if k == a.len() {
        assert(diverges(a, b, k));
    } else if k == b.len() {
        assert(diverges(b, a, k));
    } else if a[k] == b[k] {
        lemma_before_total_from(a, b, k + 1);
    } else if a[k] < b[k] {
        assert(diverges(a, b, k));
    } else {
        assert(diverges(b, a, k));
    }
}

/// Texts in increasing order, none twice.
pub open spec fn text_sorted(s: Seq<Seq<char>>) -> bool {
    forall|i: int, j: int| 0 <= i < j < s.len() ==> #[trigger] text_before(s[i], s[j])
}

/// `s` lists the members of a set of texts in increasing order.
pub open spec fn lists(s: Seq<Seq<char>>, members: Set<Seq<char>>) -> bool {
    &&& text_sorted(s)
    &&& forall|t: Seq<char>| #[trigger] s.contains(t) <==> members.contains(t)
}

/// The members of a set of texts in increasing order.
pub open spec fn sorted_list(members: Set<Seq<char>>) -> Seq<Seq<char>> {
    choose|s: Seq<Seq<char>>| lists(s, members)
}

/// A set of texts has only one sorted list.
pub proof fn lemma_sorted_list_unique(a: Seq<Seq<char>>, b: Seq<Seq<char>>, members: Set<Seq<char>>)
    requires
        lists(a, members),
        lists(b, members),
    ensures
        a == b,
{
    lemma_sorted_distinct(a);
    lemma_sorted_distinct(b);
    assert(a.to_set() =~= b.to_set()) by {
        assert forall|t: Seq<char>| #[trigger] a.to_set().contains(t) == b.to_set().contains(t) by {
            assert(a.contains(t) <==> members.contains(t));
            assert(b.contains(t) <==> members.contains(t));
        }
    }
    a.unique_seq_to_set();
    b.unique_seq_to_set();
    lemma_sorted_prefix(a, b, members, a.len());
    assert(a =~= b);
}

proof fn lemma_sorted_distinct(a: Seq<Seq<char>>)
    requires
        text_sorted(a),
    ensures
        a.no_duplicates(),
{
    assert forall|i: int, j: int| 0 <= i < a.len() && 0 <= j < a.len() && i != j implies #[trigger] a[i]
        != #[trigger] a[j] by {
        if i < j {
            lemma_before_strict(a[i], a[j]);
        } else {
            lemma_before_strict(a[j], a[i]);
        }
    }
}

proof fn lemma_sorted_prefix(a: Seq<Seq<char>>, b: Seq<Seq<char>>, members: Set<Seq<char>>, n: nat)
    requires
        lists(a, members),
        lists(b, members),
        a.len() == b.len(),
        n <= a.len(),
    ensures
        forall|i: int| 0 <= i < n ==> #[trigger] a[i] == b[i],
    decreases n,
{
    if n > 0 {
        lemma_sorted_prefix(a, b, members, (n - 1) as nat);
        lemma_sorted_distinct(a);
        lemma_sorted_distinct(b);
        let i = n - 1;
        assert(a.contains(a[i]));
        assert(b.contains(b[i]));
        assert(members.contains(a[i]) && members.contains(b[i]));
        assert(b.contains(a[i]) && a.contains(b[i]));
        let p = choose|p: int| 0 <= p < b.len() && b[p] == a[i];
        let q = choose|q: int| 0 <= q < a.len() && a[q] == b[i];
        if p < i {
            assert(a[p] == b[p]);
        }
        if q < i {
            assert(a[q] == b[q]);
        }
        if p > i && q > i {
            assert(text_before(b[i], b[p]));
            assert(text_before(a[i], a[q]));
            lemma_before_strict(b[i], a[i]);
        }
    }
}

/// The texts of strings.
pub open spec fn texts(s: Seq<String>) -> Seq<Seq<char>> {
    Seq::new(s.len(), |i: int| s[i]@)
}

/// How one text lies to another in the order of texts.
#[derive(Clone, Copy, Debug, PartialEq, Eq, Structural)]
pub enum Side {
    Before,
    Same,
    After,
}

/// The characters of a text.
pub fn chars_of(s: &str) -> (r: Vec<char>)
    ensures
        r@ == s@,
{
    broadcast use axiom_spec_iter;

    let mut r: Vec<char> = Vec::new();
    for c in it: s.chars()
        invariant
            it.seq() == s@,
            r@ == it.seq().take(it.index() as int),
    {
        proof {
            assert(s@.take(it.index() + 1) =~= s@.take(it.index() as int).push(c));
        }
        r.push(c);
    }
    proof {
        assert(s@.take(s@.len() as int) =~= s@);
    }
    r
}

/// Compares two texts.
pub fn side_of(a: &str, b: &str) -> (r: Side)
    ensures
        r == Side::Before ==> text_before(a@, b@),
        r == Side::After ==> text_before(b@, a@),
        r == Side::Same ==> a@ == b@,
{
    let x: Vec<char> = chars_of(a);
    let y: Vec<char> = chars_of(b);
    let mut k: usize = 0;
    while k < x.len() && k < y.len() && x[k] == y[k]
        invariant
            k <= x@.len(),
            k <= y@.len(),
            forall|i: int| 0 <= i < k ==> #[trigger] x@[i] == y@[i],
        decreases x@.len() - k,
    {
        k = k + 1;
    }
    if k == x.len() && k == y.len() {
        proof {
            assert(x@ =~= y@);
        }
        Side::Same
    } else if k == x.len() || (k < y.len() && x[k] < y[k]) {
        proof {
            assert(diverges(a@, b@, k as int));
        }
        Side::Before
    } else {
        proof {
            assert(diverges(b@, a@, k as int));
        }
        Side::After
    }
}

/// Adds a text to a sorted list, unless it is there.
pub fn insert_text(list: &mut Vec<String>, t: &str)
    requires
        text_sorted(texts(old(list)@)),
    ensures
        text_sorted(texts(final(list)@)),
        forall|u: Seq<char>|
            #[trigger] texts(final(list)@).contains(u) <==> (texts(old(list)@).contains(u) || u == t@),
        final(list)@.len() <= old(list)@.len() + 1,
{
    let ghost before = texts(list@);
    let mut lo: usize = 0;
    let mut hi: usize = list.len();
    while lo < hi
        invariant
            lo <= hi <= list@.len(),
            before == texts(list@),
            list@ == old(list)@,
            text_sorted(before),
            forall|i: int| 0 <= i < lo ==> text_before(#[trigger] before[i], t@),
            forall|i: int| hi <= i < before.len() ==> text_before(t@, #[trigger] before[i]),
        decreases hi - lo,
    {
        let mid: usize = lo + (hi - lo) / 2;
        let side: Side = side_of(list[mid].as_str(), t);
        if side == Side::Same {
            proof {
                assert(before[mid as int] == t@);
                assert(before.contains(t@));
            }
            return ;
        }
        if side == Side::Before {
            proof {
                assert forall|i: int| 0 <= i < mid + 1 implies text_before(#[trigger] before[i], t@) by {
                    if i < mid {
                        lemma_before_transitive(before[i], before[mid as int], t@);
                    }
                }
            }
            lo = mid + 1;
        } else {
            proof {
                assert forall|i: int| mid <= i < before.len() implies text_before(
                    t@,
                    #[trigger] before[i],
                ) by {
                    if i > mid {
                        lemma_before_transitive(t@, before[mid as int], before[i]);
                    }
                }
            }
            hi = mid;
        }
    }
    list.insert(lo, t.to_owned());
    proof {
        let after = texts(list@);
        assert(after =~= before.insert(lo as int, t@));
        assert forall|i: int, j: int| 0 <= i < j < after.len() implies #[trigger] text_before(
            after[i],
            after[j],
        ) by {
            let i0 = if i < lo {
                i
            } else {
                i - 1
            };
            let j0 = if j < lo {
                j
            } else {
                j - 1
            };
            if i != lo && j != lo {
                assert(text_before(before[i0], before[j0]));
            } else if i == lo {
                assert(text_before(t@, before[j0]));
            } else {
                assert(text_before(before[i0], t@));
            }
        }
        assert forall|u: Seq<char>| #[trigger] after.contains(u) <==> (before.contains(u) || u == t@) by {
            if before.contains(u) {
                let i = choose|i: int| 0 <= i < before.len() && before[i] == u;
                let k = if i < lo {
                    i
                } else {
                    i + 1
                };
                assert(after[k] == u);
            }
            if u == t@ {
                assert(after[lo as int] == u);
            }
            if after.contains(u) {
                let i = choose|i: int| 0 <= i < after.len() && after[i] == u;
                if i < lo {
                    assert(before[i] == u);
                } else if i > lo {
                    assert(before[i - 1] == u);
                }
            }
        }
    }
}

/// The first place from `i` on at which a token has a double colon, or its length.
pub open spec fn colons_from(t: Seq<char>, i: int) -> int
    decreases t.len() - i,
{
    if i + 1 >= t.len() {
        t.len() as int
    } else if t[i] == ':' && t[i + 1] == ':' {
        i
    } else {
        colons_from(t, i + 1)
    }
}

/// The column of a token: what stands before its first double colon, or all of it.
pub open spec fn column_of(t: Seq<char>) -> Seq<char> {
    t.take(colons_from(t, 0))
}

/// The column of a token.
pub fn column(token: &str) -> (r: String)
    ensures
        r@ == column_of(token@),
{
    let cs: Vec<char> = chars_of(token);
    let n: usize = cs.len();
    let mut i: usize = 0;
    while n - i > 1 && !(cs[i] == ':' && cs[i + 1] == ':')
        invariant
            n == cs@.len(),
            i <= n,
            cs@ == token@,
            colons_from(cs@, i as int) == colons_from(cs@, 0),
        decreases n - i,
    {
        i = i + 1;
    }
    let end: usize = if n - i > 1 {
        i
    } else {
        n
    };
    proof {
        assert(token@.subrange(0, end as int) =~= token@.take(end as int));
    }
    token.substring_char(0, end).to_owned()
}

} // verus!
