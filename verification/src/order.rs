//! Order predicates over sequences of ranks, shared by the auctions and the queue.
use vstd::prelude::*;

verus! {

/// `w` holds the highest rank of `s`, and no earlier position holds it.
pub open spec fn leads(s: Seq<u64>, w: int) -> bool {
    &&& 0 <= w < s.len()
    &&& forall|i: int| 0 <= i < s.len() ==> s[i] <= s[w]
    &&& forall|i: int| 0 <= i < w ==> s[i] < s[w]
}

/// Leaving position `w` aside, `p` holds the highest rank of `s`, and no
/// earlier position other than `w` holds it.
pub open spec fn runs_up(s: Seq<u64>, w: int, p: int) -> bool {
    &&& 0 <= p < s.len()
    &&& p != w
    &&& forall|i: int| 0 <= i < s.len() && i != w ==> s[i] <= s[p]
    &&& forall|i: int| 0 <= i < p && i != w ==> s[i] < s[p]
}

/// `i` holds the highest rank of `s`, and no later position holds it.
pub open spec fn trails(s: Seq<u64>, i: int) -> bool {
    &&& 0 <= i < s.len()
    &&& forall|j: int| 0 <= j < s.len() ==> s[j] <= s[i]
    &&& forall|j: int| i < j < s.len() ==> s[j] < s[i]
}

/// Position `i` comes before position `j` in the order "highest rank first,
/// earlier position first among equal ranks".
pub open spec fn ranked_before(s: Seq<u64>, i: int, j: int) -> bool {
    s[i] > s[j] || (s[i] == s[j] && i < j)
}

/// `o` lists every position of `s` exactly once, highest rank first, and keeps
/// the original order among equal ranks (a stable sort, descending).
pub open spec fn is_stable_descending(s: Seq<u64>, o: Seq<usize>) -> bool {
    &&& o.len() == s.len()
    &&& forall|k: int| 0 <= k < o.len() ==> #[trigger] o[k] < s.len()
    &&& forall|k: int, l: int|
        0 <= k < l < o.len() ==> ranked_before(s, #[trigger] o[k] as int, #[trigger] o[l] as int)
    &&& forall|i: int| 0 <= i < s.len() ==> #[trigger] lists(o, i)
}

/// Position `i` occurs in the list `o`.
pub open spec fn lists(o: Seq<usize>, i: int) -> bool {
    exists|k: int| 0 <= k < o.len() && o[k] == i
}

/// At most one position leads a sequence.
pub proof fn lemma_leads_unique(s: Seq<u64>, a: int, b: int)
    requires
        leads(s, a),
        leads(s, b),
    ensures
        a == b,
{
    assert(s[a] <= s[b] && s[b] <= s[a]);
}

/// Leaving a given position aside, at most one position runs up.
pub proof fn lemma_runs_up_unique(s: Seq<u64>, w: int, a: int, b: int)
    requires
        runs_up(s, w, a),
        runs_up(s, w, b),
    ensures
        a == b,
{
    assert(s[a] <= s[b] && s[b] <= s[a]);
}

/// At most one position trails a sequence.
pub proof fn lemma_trails_unique(s: Seq<u64>, a: int, b: int)
    requires
        trails(s, a),
        trails(s, b),
    ensures
        a == b,
{
    assert(s[a] <= s[b] && s[b] <= s[a]);
}

/// A sequence of ranks has exactly one stable descending order.
pub proof fn lemma_stable_descending_unique(s: Seq<u64>, o1: Seq<usize>, o2: Seq<usize>)
    requires
        is_stable_descending(s, o1),
        is_stable_descending(s, o2),
    ensures
        o1 == o2,
{
    assert forall|k: int| 0 <= k < o1.len() implies o1[k] == o2[k] by {
        lemma_stable_descending_agree_at(s, o1, o2, k);
    }
    assert(o1 =~= o2);
}

proof fn lemma_stable_descending_agree_at(s: Seq<u64>, o1: Seq<usize>, o2: Seq<usize>, k: int)
    requires
        is_stable_descending(s, o1),
        is_stable_descending(s, o2),
        0 <= k < o1.len(),
    ensures
        o1[k] == o2[k],
    decreases k,
{
    let a = o1[k];
    let b = o2[k];
    if a != b {
        assert(0 <= a < s.len());
        assert(0 <= b < s.len());
        assert(lists(o2, a as int));
        assert(lists(o1, b as int));
        let m = choose|m: int| 0 <= m < o2.len() && o2[m] == a as int;
        let n = choose|n: int| 0 <= n < o1.len() && o1[n] == b as int;
        if m < k {
            lemma_stable_descending_agree_at(s, o1, o2, m);
            assert(ranked_before(s, o1[m] as int, o1[k] as int));
        }
        if n < k {
            lemma_stable_descending_agree_at(s, o1, o2, n);
            assert(ranked_before(s, o2[n] as int, o2[k] as int));
        }
        assert(ranked_before(s, o2[k] as int, o2[m] as int));
        assert(ranked_before(s, o1[k] as int, o1[n] as int));
    }
}

/// Every sequence of ranks has a stable descending order.
pub proof fn lemma_stable_descending_exists(s: Seq<u64>)
    requires
        s.len() <= usize::MAX,
    ensures
        exists|o: Seq<usize>| is_stable_descending(s, o),
{
    let o = sorted_prefix(s, s.len() as int);
    assert(is_stable_descending(s, o));
}

/// The position at which `x` enters the list `o`: after every entry, from
/// position `k` on, ranked at least as high as `x`.
spec fn insertion_point(s: Seq<u64>, o: Seq<usize>, x: int, k: int) -> int
    decreases o.len() - k,
{
    if k >= o.len() || s[o[k] as int] < s[x] {
        k
    } else {
        insertion_point(s, o, x, k + 1)
    }
}

proof fn lemma_insertion_point(s: Seq<u64>, o: Seq<usize>, x: int, k: int)
    requires
        0 <= k <= o.len(),
    ensures
        k <= insertion_point(s, o, x, k) <= o.len(),
        forall|m: int| k <= m < insertion_point(s, o, x, k) ==> s[#[trigger] o[m] as int] >= s[x],
        insertion_point(s, o, x, k) < o.len() ==> s[o[insertion_point(s, o, x, k)] as int] < s[x],
    decreases o.len() - k,
{
    if !(k >= o.len() || s[o[k] as int] < s[x]) {
        lemma_insertion_point(s, o, x, k + 1);
    }
}

/// The first `i` positions of `s`, sorted stably by descending rank.
proof fn sorted_prefix(s: Seq<u64>, i: int) -> (o: Seq<usize>)
    requires
        0 <= i <= s.len(),
        s.len() <= usize::MAX,
    ensures
        o.len() == i,
        forall|k: int| 0 <= k < o.len() ==> #[trigger] o[k] < i,
        forall|k: int, l: int|
            0 <= k < l < o.len() ==> ranked_before(s, #[trigger] o[k] as int, #[trigger] o[l] as int),
        forall|x: int| 0 <= x < i ==> #[trigger] lists(o, x),
    decreases i,
{
    if i == 0 {
        Seq::empty()
    } else {
        let prev = sorted_prefix(s, i - 1);
        let x = i - 1;
        lemma_insertion_point(s, prev, x, 0);
        let k = insertion_point(s, prev, x, 0);
        let o = prev.insert(k, x as usize);
        assert forall|m: int, l: int|
            0 <= m < l < o.len() implies ranked_before(s, #[trigger] o[m] as int, #[trigger] o[l] as int)
        by {
            if l < k {
                assert(o[m] == prev[m] && o[l] == prev[l]);
            } else if l == k {
                assert(o[m] == prev[m]);
            } else if m == k {
                assert(o[l] == prev[l - 1]);
                if l - 1 > k {
                    assert(ranked_before(s, prev[k] as int, prev[l - 1] as int));
                }
            } else if m < k {
                assert(o[m] == prev[m] && o[l] == prev[l - 1]);
            } else {
                assert(o[m] == prev[m - 1] && o[l] == prev[l - 1]);
            }
        }
        assert forall|k2: int| 0 <= k2 < o.len() implies #[trigger] o[k2] < i by {
            if k2 < k {
                assert(o[k2] == prev[k2]);
            } else if k2 > k {
                assert(o[k2] == prev[k2 - 1]);
            }
        }
        assert forall|y: int| 0 <= y < i implies #[trigger] lists(o, y) by {
            if y == x {
                assert(o[k] == y);
            } else {
                assert(lists(prev, y));
                let m0 = choose|m: int| 0 <= m < prev.len() && prev[m] == y;
                if m0 < k {
                    assert(o[m0] == y);
                } else {
                    assert(o[m0 + 1] == y);
                }
            }
        }
        o
    }
}

/// Index of the first highest rank of a non-empty sequence.
pub(crate) fn first_max(s: &Vec<u64>) -> (w: usize)
    requires
        s@.len() > 0,
    ensures
        leads(s@, w as int),
{
    let mut w: usize = 0;
    let mut i: usize = 1;
    while i < s.len()
        invariant
            1 <= i <= s@.len(),
            w < i,
            forall|j: int| 0 <= j < i ==> s@[j] <= s@[w as int],
            forall|j: int| 0 <= j < w ==> s@[j] < s@[w as int],
        decreases s@.len() - i,
    {
        if s[i] > s[w] {
            w = i;
        }
        i = i + 1;
    }
    w
}

/// Index of the last highest rank of a non-empty sequence.
pub(crate) fn last_max(s: &Vec<u64>) -> (w: usize)
    requires
        s@.len() > 0,
    ensures
        trails(s@, w as int),
{
    let mut w: usize = 0;
    let mut i: usize = 1;
    while i < s.len()
        invariant
            1 <= i <= s@.len(),
            w < i,
            forall|j: int| 0 <= j < i ==> s@[j] <= s@[w as int],
            forall|j: int| w < j < i ==> s@[j] < s@[w as int],
        decreases s@.len() - i,
    {
        if s[i] >= s[w] {
            w = i;
        }
        i = i + 1;
    }
    w
}

/// Index of the first highest rank outside position `w`, in a sequence of at
/// least two ranks.
pub(crate) fn first_max_except(s: &Vec<u64>, w: usize) -> (p: usize)
    requires
        s@.len() > 1,
        w < s@.len(),
    ensures
        runs_up(s@, w as int, p as int),
{
    let mut p: usize = if w == 0 { 1 } else { 0 };
    let mut i: usize = p + 1;
    while i < s.len()
        invariant
            p < i <= s@.len(),
            p != w,
            w < s@.len(),
            forall|j: int| 0 <= j < i && j != w ==> s@[j] <= s@[p as int],
            forall|j: int| 0 <= j < p && j != w ==> s@[j] < s@[p as int],
        decreases s@.len() - i,
    {
        if i != w && s[i] > s[p] {
            p = i;
        }
        i = i + 1;
    }
    p
}

/// The positions of `s` in stable descending order of rank.
pub(crate) fn stable_descending_order(s: &Vec<u64>) -> (o: Vec<usize>)
    ensures
        is_stable_descending(s@, o@),
{
    let mut o: Vec<usize> = Vec::new();
    let mut i: usize = 0;
    while i < s.len()
        invariant
            i <= s@.len(),
            o@.len() == i,
            forall|k: int| 0 <= k < o@.len() ==> #[trigger] o@[k] < i,
            forall|k: int, l: int|
                0 <= k < l < o@.len() ==> ranked_before(s@, #[trigger] o@[k] as int, #[trigger] o@[l] as int),
            forall|x: int| 0 <= x < i ==> #[trigger] lists(o@, x),
        decreases s@.len() - i,
    {
        // Find where `i` goes: after every position ranked at least as high.
        let mut k: usize = 0;
        while k < o.len() && s[o[k]] >= s[i]
            invariant
                k <= o@.len(),
                i < s@.len(),
                forall|m: int| 0 <= m < o@.len() ==> #[trigger] o@[m] < i,
                forall|m: int| 0 <= m < k ==> s@[#[trigger] o@[m] as int] >= s@[i as int],
            decreases o@.len() - k,
        {
            k = k + 1;
        }
        let ghost prev = o@;
        o.insert(k, i);
        proof {
            assert(o@ == prev.insert(k as int, i));
            assert forall|m: int, l: int|
                0 <= m < l < o@.len() implies ranked_before(s@, #[trigger] o@[m] as int, #[trigger] o@[l] as int)
            by {
                if l < k {
                    assert(o@[m] == prev[m] && o@[l] == prev[l]);
                } else if l == k {
                    assert(o@[m] == prev[m]);
                } else if m == k {
                    assert(o@[l] == prev[l - 1]);
                    // every later entry ranks strictly below `i`, or the scan would have gone on
                    if l - 1 > k {
                        assert(ranked_before(s@, prev[k as int] as int, prev[l - 1] as int));
                    }
                } else if m < k {
                    assert(o@[m] == prev[m] && o@[l] == prev[l - 1]);
                } else {
                    assert(o@[m] == prev[m - 1] && o@[l] == prev[l - 1]);
                }
            }
            assert forall|x: int| 0 <= x < i + 1 implies #[trigger] lists(o@, x) by {
                if x == i {
                    assert(o@[k as int] == x);
                } else {
                    assert(lists(prev, x));
                    let m0 = choose|m: int| 0 <= m < prev.len() && prev[m] == x;
                    if m0 < k {
                        assert(o@[m0] == x);
                    } else {
                        assert(o@[m0 + 1] == x);
                    }
                }
            }
        }
        i = i + 1;
    }
    o
}

} // verus!
