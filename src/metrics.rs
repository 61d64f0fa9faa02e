//! Load figures of a circuit: term counts, and the largest share of terms that
//! one subprover owns when the wires are cut into equal consecutive runs.
use crate::circuit::{terms, Circuit, Constraint};
use crate::distribute::side_terms;
use crate::field::Element;
use vstd::prelude::*;

verus! {

/// Subprover owning wire `v` when runs of `chunk` wires are dealt in order; the
/// last also takes what is left over.
pub open spec fn owner_of(v: int, chunk: int, n: int) -> int {
    if v / chunk < n - 1 {
        v / chunk
    } else {
        n - 1
    }
}

/// Number of terms of `lc` whose wire subprover `s` owns.
pub open spec fn lc_load(lc: Seq<(usize, Element)>, s: int, chunk: int, n: int) -> nat
    decreases lc.len(),
{
    if lc.len() == 0 {
        0
    } else {
        lc_load(lc.drop_last(), s, chunk, n) + if owner_of(lc.last().0 as int, chunk, n) == s {
            1nat
        } else {
            0nat
        }
    }
}

/// Number of terms of side `m` over all of `cs` whose wire subprover `s` owns.
pub open spec fn load(cs: Seq<Constraint>, m: int, s: int, chunk: int, n: int) -> nat
    decreases cs.len(),
{
    if cs.len() == 0 {
        0
    } else {
        load(cs.drop_last(), m, s, chunk, n) + lc_load(cs.last().lc(m), s, chunk, n)
    }
}

/// `r` is the largest load over all subprovers and sides, for runs of
/// `n_wires / n` wires.
pub open spec fn is_distributibility(c: Circuit, n: int, r: int) -> bool {
    let chunk = c.n_wires as int / n;
    &&& exists|s: int, m: int|
        0 <= s < n && 0 <= m < 3 && r == #[trigger] load(c.constraints@, m, s, chunk, n)
    &&& forall|s: int, m: int|
        0 <= s < n && 0 <= m < 3 ==> #[trigger] load(c.constraints@, m, s, chunk, n) <= r
}

proof fn lemma_lc_load_le(lc: Seq<(usize, Element)>, s: int, chunk: int, n: int)
    ensures
        lc_load(lc, s, chunk, n) <= lc.len(),
    decreases lc.len(),
{
    if lc.len() > 0 {
        lemma_lc_load_le(lc.drop_last(), s, chunk, n);
    }
}

proof fn lemma_load_le(cs: Seq<Constraint>, m: int, s: int, chunk: int, n: int)
    ensures
        load(cs, m, s, chunk, n) <= terms(cs, m),
    decreases cs.len(),
{
    if cs.len() > 0 {
        lemma_load_le(cs.drop_last(), m, s, chunk, n);
        lemma_lc_load_le(cs.last().lc(m), s, chunk, n);
    }
}

/// Total number of terms in each side: A, B and C.
pub fn nonzero_counts(c: &Circuit) -> (r: (usize, usize, usize))
    requires
        c.wf(),
    ensures
        r.0 == terms(c.constraints@, 0),
        r.1 == terms(c.constraints@, 1),
        r.2 == terms(c.constraints@, 2),
{
    (side_terms(c, 0), side_terms(c, 1), side_terms(c, 2))
}

/// Loads of every subprover in side `m`.
fn side_loads(c: &Circuit, m: usize, chunk: usize, n: usize) -> (r: Vec<usize>)
    requires
        c.wf(),
        m < 3,
        n >= 1,
        chunk >= 1,
    ensures
        r.len() == n,
        forall|s: int| 0 <= s < n ==> r@[s] == load(c.constraints@, m as int, s, chunk as int, n as int),
{
    let cs = &c.constraints;
    let mut r: Vec<usize> = Vec::new();
    let mut s: usize = 0;
    while s < n
        invariant
            s <= n,
            r.len() == s,
            forall|t: int| 0 <= t < s ==> r@[t] == 0,
        decreases n - s,
    {
        r.push(0);
        s = s + 1;
    }
    let mut k: usize = 0;
    while k < cs.len()
        invariant
            c.wf(),
            cs == &c.constraints,
            m < 3,
            n >= 1,
            chunk >= 1,
            k <= cs.len(),
            r.len() == n,
            forall|t: int|
                0 <= t < n ==> r@[t] == load(cs@.take(k as int), m as int, t, chunk as int, n as int),
        decreases cs.len() - k,
    {
        let lc = if m == 0 {
            &cs[k].a
        } else if m == 1 {
            &cs[k].b
        } else {
            &cs[k].c
        };
        assert(lc@ == cs@[k as int].lc(m as int));
        let mut j: usize = 0;
        while j < lc.len()
            invariant
                c.wf(),
                cs == &c.constraints,
                m < 3,
                n >= 1,
                chunk >= 1,
                k < cs.len(),
                lc@ == cs@[k as int].lc(m as int),
                j <= lc.len(),
                r.len() == n,
                forall|t: int|
                    0 <= t < n ==> r@[t] == load(cs@.take(k as int), m as int, t, chunk as int, n as int)
                        + lc_load(lc@.take(j as int), t, chunk as int, n as int),
            decreases lc.len() - j,
        {
            let wire = lc[j].0;
            assert(lc@.take(j + 1).drop_last() =~= lc@.take(j as int));
            let o = if wire / chunk < n - 1 {
                wire / chunk
            } else {
                n - 1
            };
            proof {
                crate::circuit::lemma_terms_prefix(cs@, m as int, k as int);
                lemma_load_le(cs@.take(k as int), m as int, o as int, chunk as int, n as int);
                lemma_lc_load_le(lc@.take(j as int), o as int, chunk as int, n as int);
            }
            r.set(o, r[o] + 1);
            j = j + 1;
        }
        assert(lc@.take(lc.len() as int) =~= lc@);
        assert(cs@.take(k + 1).drop_last() =~= cs@.take(k as int));
        k = k + 1;
    }
    assert(cs@.take(cs.len() as int) =~= cs@);
    r
}

/// The largest number of terms of one side that one subprover owns when the
/// wires are cut into `n` consecutive runs of `n_wires / n`, the last run
/// taking the rest; `None` when `n` is zero or exceeds the wire count.
pub fn distributibility(c: &Circuit, n: usize) -> (r: Option<usize>)
    requires
        c.wf(),
    ensures
        r is None <==> (n == 0 || c.n_wires < n),
        r is Some ==> is_distributibility(*c, n as int, r->0 as int),
{
    if n == 0 || c.n_wires < n {
        return None;
    }
    let chunk = c.n_wires / n;
    assert(chunk >= 1) by (nonlinear_arith)
        requires
            chunk == c.n_wires / n,
            c.n_wires >= n,
            n >= 1,
    ;
    let ghost cs = c.constraints@;
    let loads = vec![
        side_loads(c, 0, chunk, n),
        side_loads(c, 1, chunk, n),
        side_loads(c, 2, chunk, n),
    ];
    let mut best: usize = loads[0][0];
    let ghost mut arg: (int, int) = (0, 0);
    let mut s: usize = 0;
    while s < n
        invariant
            n >= 1,
            s <= n,
            chunk == c.n_wires / n,
            cs == c.constraints@,
            loads.len() == 3,
            forall|m: int| 0 <= m < 3 ==> (#[trigger] loads@[m]).len() == n,
            forall|m: int, t: int|
                0 <= m < 3 && 0 <= t < n ==> #[trigger] loads@[m]@[t] == load(cs, m, t, chunk as int, n as int),
            0 <= arg.0 < n && 0 <= arg.1 < 3,
            best == loads@[arg.1]@[arg.0],
            forall|m: int, t: int| 0 <= m < 3 && 0 <= t < s ==> #[trigger] loads@[m]@[t] <= best,
        decreases n - s,
    {
        let mut m: usize = 0;
        while m < 3
            invariant
                n >= 1,
                s < n,
                m <= 3,
                loads.len() == 3,
                forall|m2: int| 0 <= m2 < 3 ==> (#[trigger] loads@[m2]).len() == n,
                0 <= arg.0 < n && 0 <= arg.1 < 3,
                best == loads@[arg.1]@[arg.0],
                forall|m2: int, t: int|
                    0 <= m2 < 3 && (0 <= t < s || (t == s && m2 < m)) ==> #[trigger] loads@[m2]@[t] <= best,
            decreases 3 - m,
        {
            if loads[m][s] > best {
                best = loads[m][s];
                proof {
                    arg = (s as int, m as int);
                }
            }
            m = m + 1;
        }
        s = s + 1;
    }
    proof {
        assert(best == load(cs, arg.1, arg.0, chunk as int, n as int));
        assert forall|t: int, m: int| 0 <= t < n && 0 <= m < 3 implies #[trigger] load(
            cs,
            m,
            t,
            chunk as int,
            n as int,
        ) <= best by {
            assert(loads@[m]@[t] <= best);
        }
    }
    Some(best)
}

} // verus!
