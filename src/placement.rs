//! Position of each non-constant wire in the stable sort of the wires by
//! descending weight.
use vstd::prelude::*;

verus! {

/// Number of wires `u` in `1..hi` heavier than `x`.
pub open spec fn heavier(ws: Seq<usize>, x: int, hi: int) -> nat
    decreases hi,
{
    if hi <= 1 {
        0
    } else {
        heavier(ws, x, hi - 1) + if ws[hi - 1] > x {
            1nat
        } else {
            0nat
        }
    }
}

/// Number of wires `u` in `1..hi` of weight exactly `x`.
pub open spec fn equal(ws: Seq<usize>, x: int, hi: int) -> nat
    decreases hi,
{
    if hi <= 1 {
        0
    } else {
        equal(ws, x, hi - 1) + if ws[hi - 1] == x {
            1nat
        } else {
            0nat
        }
    }
}

/// Wire `u` comes before wire `v`: it is heavier, or as heavy and lower.
pub open spec fn precedes(ws: Seq<usize>, u: int, v: int) -> bool {
    ws[u] > ws[v] || (ws[u] == ws[v] && u < v)
}

/// Position of wire `v` (`1 <= v < ws.len()`) in the stable descending sort of
/// wires `1..ws.len()` by weight: the number of wires that precede it.
pub open spec fn rank(ws: Seq<usize>, v: int) -> nat {
    heavier(ws, ws[v] as int, ws.len() as int) + equal(ws, ws[v] as int, v)
}

proof fn lemma_split(ws: Seq<usize>, x: int, hi: int)
    requires
        x >= 1,
        hi <= ws.len(),
    ensures
        heavier(ws, x - 1, hi) == heavier(ws, x, hi) + equal(ws, x, hi),
    decreases hi,
{
    if hi > 1 {
        lemma_split(ws, x, hi - 1);
    }
}

proof fn lemma_heavier_antitone(ws: Seq<usize>, x: int, y: int, hi: int)
    requires
        x <= y,
        hi <= ws.len(),
    ensures
        heavier(ws, y, hi) <= heavier(ws, x, hi),
    decreases hi,
{
    if hi > 1 {
        lemma_heavier_antitone(ws, x, y, hi - 1);
    }
}

proof fn lemma_equal_grows(ws: Seq<usize>, x: int, lo: int, hi: int)
    requires
        1 <= lo <= hi <= ws.len(),
    ensures
        equal(ws, x, lo) <= equal(ws, x, hi),
        lo < hi && ws[lo] == x ==> equal(ws, x, lo) < equal(ws, x, hi),
    decreases hi - lo,
{
    if lo < hi {
        lemma_equal_grows(ws, x, lo, hi - 1);
        if hi - 1 == lo {
            assert(equal(ws, x, lo + 1) == equal(ws, x, lo) + if ws[lo] == x {
                1nat
            } else {
                0nat
            });
        }
    }
}

proof fn lemma_bounded(ws: Seq<usize>, x: int, hi: int)
    requires
        hi <= ws.len(),
    ensures
        heavier(ws, x, hi) + equal(ws, x, hi) <= if hi >= 1 {
            hi - 1
        } else {
            0
        },
    decreases hi,
{
    if hi > 1 {
        lemma_bounded(ws, x, hi - 1);
    }
}

proof fn lemma_none_heavier(ws: Seq<usize>, x: int, hi: int)
    requires
        hi <= ws.len(),
        forall|u: int| 1 <= u < hi ==> ws[u] <= x,
    ensures
        heavier(ws, x, hi) == 0,
    decreases hi,
{
    if hi > 1 {
        lemma_none_heavier(ws, x, hi - 1);
    }
}

/// A wire that precedes another has a smaller rank.
pub proof fn lemma_rank_order(ws: Seq<usize>, u: int, v: int)
    requires
        1 <= u < ws.len(),
        1 <= v < ws.len(),
        precedes(ws, u, v),
    ensures
        rank(ws, u) < rank(ws, v),
{
    let n = ws.len() as int;
    if ws[u] == ws[v] {
        lemma_equal_grows(ws, ws[v] as int, u, v);
    } else {
        lemma_equal_grows(ws, ws[u] as int, u, n);
        lemma_split(ws, ws[u] as int, n);
        lemma_heavier_antitone(ws, ws[v] as int, ws[u] - 1, n);
    }
}

/// Ranks of distinct wires differ, and every rank is below the number of
/// non-constant wires.
pub proof fn lemma_rank_injective(ws: Seq<usize>, u: int, v: int)
    requires
        1 <= u < ws.len(),
        1 <= v < ws.len(),
    ensures
        rank(ws, u) < ws.len() - 1,
        u != v ==> rank(ws, u) != rank(ws, v),
{
    let n = ws.len() as int;
    lemma_equal_grows(ws, ws[u] as int, u, n);
    lemma_bounded(ws, ws[u] as int, n);
    if u != v {
        if precedes(ws, u, v) {
            lemma_rank_order(ws, u, v);
        } else {
            lemma_rank_order(ws, v, u);
        }
    }
}

/// Ranks of wires `1..ws.len()` by a counting sort on the weights; entry 0 is
/// left at 0.
pub fn placement_ranks(ws: &Vec<usize>) -> (r: Vec<usize>)
    requires
        ws.len() >= 1,
        forall|v: int| 0 <= v < ws.len() ==> ws@[v] < usize::MAX,
    ensures
        r.len() == ws.len(),
        forall|v: int| 1 <= v < ws.len() ==> r@[v] == rank(ws@, v),
{
    let n = ws.len();
    let mut maxw: usize = 0;
    let mut v: usize = 1;
    while v < n
        invariant
            n == ws.len(),
            1 <= v,
            v <= n,
            forall|u: int| 1 <= u < v && u < n ==> ws@[u] <= maxw,
            forall|u: int| 0 <= u < ws.len() ==> ws@[u] < usize::MAX,
            maxw < usize::MAX,
        decreases n - v,
    {
        if ws[v] > maxw {
            maxw = ws[v];
        }
        v = v + 1;
    }
    let mut cnt: Vec<usize> = Vec::new();
    let mut x: usize = 0;
    while x <= maxw
        invariant
            x <= maxw + 1,
            maxw < usize::MAX,
            cnt.len() == x,
            forall|y: int| 0 <= y < x ==> cnt@[y] == 0,
        decreases maxw + 1 - x,
    {
        cnt.push(0);
        x = x + 1;
    }
    let mut heavy = cnt.clone();
    let mut seen = cnt.clone();
    v = 1;
    while v < n
        invariant
            n == ws.len(),
            1 <= v,
            forall|u: int| 1 <= u < n ==> ws@[u] <= maxw,
            cnt.len() == maxw + 1,
            forall|y: int| 0 <= y <= maxw ==> #[trigger] cnt@[y] == equal(ws@, y, v as int),
            v <= n,
        decreases n - v,
    {
        proof {
            lemma_bounded(ws@, ws@[v as int] as int, v as int);
        }
        let w = ws[v];
        cnt.set(w, cnt[w] + 1);
        v = v + 1;
    }
    // heavy[x] becomes the number of wires heavier than x
    let mut acc: usize = 0;
    x = maxw + 1;
    proof {
        lemma_none_heavier(ws@, maxw as int, n as int);
    }
    while x > 0
        invariant
            n == ws.len(),
            x <= maxw + 1,
            cnt.len() == maxw + 1,
            heavy.len() == maxw + 1,
            forall|u: int| 1 <= u < n ==> ws@[u] <= maxw,
            forall|y: int| 0 <= y <= maxw ==> #[trigger] cnt@[y] == equal(ws@, y, n as int),
            forall|y: int| x <= y <= maxw ==> #[trigger] heavy@[y] == heavier(ws@, y, n as int),
            x > 0 ==> acc == heavier(ws@, x - 1, n as int),
            x == maxw + 1 ==> acc == heavier(ws@, maxw as int, n as int),
        decreases x,
    {
        x = x - 1;
        proof {
            lemma_bounded(ws@, x as int, n as int);
            if x >= 1 {
                lemma_split(ws@, x as int, n as int);
            }
        }
        heavy.set(x, acc);
        acc = acc + cnt[x];
    }
    let mut r: Vec<usize> = Vec::new();
    let mut i: usize = 0;
    while i < n
        invariant
            i <= n,
            r.len() == i,
        decreases n - i,
    {
        r.push(0);
        i = i + 1;
    }
    v = 1;
    while v < n
        invariant
            n == ws.len(),
            1 <= v,
            r.len() == n,
            forall|u: int| 1 <= u < n ==> ws@[u] <= maxw,
            heavy.len() == maxw + 1,
            seen.len() == maxw + 1,
            forall|y: int| 0 <= y <= maxw ==> #[trigger] heavy@[y] == heavier(ws@, y, n as int),
            forall|y: int| 0 <= y <= maxw ==> #[trigger] seen@[y] == equal(ws@, y, v as int),
            forall|u: int| 1 <= u < v && u < n ==> r@[u] == rank(ws@, u),
            v <= n,
        decreases n - v,
    {
        let w = ws[v];
        proof {
            lemma_rank_injective(ws@, v as int, v as int);
        }
        r.set(v, heavy[w] + seen[w]);
        seen.set(w, seen[w] + 1);
        v = v + 1;
    }
    r
}

} // verus!
