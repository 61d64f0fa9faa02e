use crate::field::{fr_modulus, Element};
use vstd::prelude::*;

verus! {

/// One constraint `(A·w) * (B·w) = C·w`; each side is a list of
/// `(wire, coefficient)` terms.
#[derive(Clone, Debug, PartialEq, Eq)]
pub struct Constraint {
    pub a: Vec<(usize, Element)>,
    pub b: Vec<(usize, Element)>,
    pub c: Vec<(usize, Element)>,
}

impl Constraint {
    /// Side `m` of the constraint: 0 is A, 1 is B, 2 is C.
    pub open spec fn lc(self, m: int) -> Seq<(usize, Element)> {
        if m == 0 {
            self.a@
        } else if m == 1 {
            self.b@
        } else {
            self.c@
        }
    }
}

/// A rank-1 constraint system with its witness and its wire mapping.
#[derive(Clone, Debug, PartialEq, Eq)]
pub struct Circuit {
    pub n_wires: usize,
    pub constraints: Vec<Constraint>,
    pub witness: Vec<Element>,
    pub wire_mapping: Vec<u64>,
}

/// Number of terms of `lc` on wire `v`.
pub open spec fn lc_count(lc: Seq<(usize, Element)>, v: int) -> nat
    decreases lc.len(),
{
    if lc.len() == 0 {
        0
    } else {
        lc_count(lc.drop_last(), v) + if lc.last().0 == v {
            1nat
        } else {
            0nat
        }
    }
}

/// Number of terms on wire `v` in side `m` over all of `cs`.
pub open spec fn wire_uses(cs: Seq<Constraint>, m: int, v: int) -> nat
    decreases cs.len(),
{
    if cs.len() == 0 {
        0
    } else {
        wire_uses(cs.drop_last(), m, v) + lc_count(cs.last().lc(m), v)
    }
}

/// Number of terms in side `m` over all of `cs`.
pub open spec fn terms(cs: Seq<Constraint>, m: int) -> nat
    decreases cs.len(),
{
    if cs.len() == 0 {
        0
    } else {
        terms(cs.drop_last(), m) + cs.last().lc(m).len()
    }
}

/// Number of terms in side `m` on a wire other than the constant wire.
pub open spec fn nonconst_terms(cs: Seq<Constraint>, m: int) -> int {
    terms(cs, m) - wire_uses(cs, m, 0)
}

/// `lc · w`: the weighted sum of the witness values, over the integers.
pub open spec fn lc_eval(lc: Seq<(usize, Element)>, w: Seq<Element>) -> int
    decreases lc.len(),
{
    if lc.len() == 0 {
        0
    } else {
        lc_eval(lc.drop_last(), w) + lc.last().1.value() * w[lc.last().0 as int].value()
    }
}

impl Circuit {
    /// Sizes agree, every term names an existing wire, and the term counts fit
    /// in a machine word.
    pub open spec fn wf(self) -> bool {
        &&& self.n_wires >= 1
        &&& self.witness.len() == self.n_wires
        &&& self.wire_mapping.len() == self.n_wires
        &&& forall|k: int, m: int, i: int|
            0 <= k < self.constraints.len() && 0 <= m < 3 && 0 <= i
                < self.constraints@[k].lc(m).len() ==> (#[trigger] self.constraints@[k].lc(
                m,
            )[i]).0 < self.n_wires
        &&& forall|m: int| 0 <= m < 3 ==> #[trigger] terms(self.constraints@, m) < usize::MAX
    }

    /// Wire 0 carries the field's one.
    pub open spec fn constant_is_one(self) -> bool {
        self.witness@[0] == Element::spec_one()
    }

    /// Constraint `k` holds in the field under the witness.
    pub open spec fn holds(self, k: int) -> bool {
        let con = self.constraints@[k];
        (lc_eval(con.lc(0), self.witness@) * lc_eval(con.lc(1), self.witness@)) % (
        fr_modulus() as int) == lc_eval(con.lc(2), self.witness@) % (fr_modulus() as int)
    }

    /// Every constraint holds.
    pub open spec fn satisfied(self) -> bool {
        forall|k: int| 0 <= k < self.constraints.len() ==> #[trigger] self.holds(k)
    }

    /// Every coefficient and witness value is a reduced field element.
    pub open spec fn canonical(self) -> bool {
        &&& forall|i: int| 0 <= i < self.witness.len() ==> #[trigger] self.witness@[i].canonical()
        &&& forall|k: int, m: int, i: int|
            0 <= k < self.constraints.len() && 0 <= m < 3 && 0 <= i
                < self.constraints@[k].lc(m).len() ==> (#[trigger] self.constraints@[k].lc(
                m,
            )[i]).1.canonical()
    }
}

/// A term count never exceeds the length of its list.
pub proof fn lemma_lc_count_le(lc: Seq<(usize, Element)>, v: int)
    ensures
        lc_count(lc, v) <= lc.len(),
    decreases lc.len(),
{
    if lc.len() > 0 {
        lemma_lc_count_le(lc.drop_last(), v);
    }
}

/// The uses of one wire never exceed the terms of the side.
pub proof fn lemma_wire_uses_le(cs: Seq<Constraint>, m: int, v: int)
    ensures
        wire_uses(cs, m, v) <= terms(cs, m),
    decreases cs.len(),
{
    if cs.len() > 0 {
        lemma_wire_uses_le(cs.drop_last(), m, v);
        lemma_lc_count_le(cs.last().lc(m), v);
    }
}

/// Term counts grow along prefixes.
pub proof fn lemma_terms_prefix(cs: Seq<Constraint>, m: int, k: int)
    requires
        0 <= k < cs.len(),
    ensures
        terms(cs.take(k), m) + cs[k].lc(m).len() <= terms(cs, m),
        terms(cs.take(k + 1), m) == terms(cs.take(k), m) + cs[k].lc(m).len(),
        wire_uses(cs.take(k + 1), m, 0) == wire_uses(cs.take(k), m, 0) + lc_count(cs[k].lc(m), 0),
    decreases cs.len(),
{
    assert(cs.take(k + 1).drop_last() =~= cs.take(k));
    if k + 1 < cs.len() {
        lemma_terms_prefix(cs.drop_last(), m, k);
        assert(cs.drop_last().take(k) =~= cs.take(k));
        assert(cs.drop_last().take(k + 1) =~= cs.take(k + 1));
    } else {
        assert(cs.take(k + 1) =~= cs);
    }
}

/// Whether every term of `lc` names a wire below `n_wires`.
fn wires_below(lc: &Vec<(usize, Element)>, n_wires: usize) -> (r: bool)
    ensures
        r == forall|i: int| 0 <= i < lc.len() ==> (#[trigger] lc@[i]).0 < n_wires,
{
    let mut j: usize = 0;
    while j < lc.len()
        invariant
            j <= lc.len(),
            forall|i: int| 0 <= i < j ==> (#[trigger] lc@[i]).0 < n_wires,
        decreases lc.len() - j,
    {
        if lc[j].0 >= n_wires {
            return false;
        }
        j = j + 1;
    }
    true
}

/// Whether `c` satisfies [`Circuit::wf`].
pub fn is_well_formed(c: &Circuit) -> (r: bool)
    ensures
        r == c.wf(),
{
    if c.n_wires < 1 || c.witness.len() != c.n_wires || c.wire_mapping.len() != c.n_wires {
        return false;
    }
    let cs = &c.constraints;
    let mut totals: [usize; 3] = [0, 0, 0];
    let mut k: usize = 0;
    while k < cs.len()
        invariant
            cs == &c.constraints,
            k <= cs.len(),
            forall|m: int| 0 <= m < 3 ==> #[trigger] totals@[m] == terms(cs@.take(k as int), m),
            forall|m: int| 0 <= m < 3 ==> #[trigger] totals@[m] < usize::MAX,
            forall|k2: int, m: int, i: int|
                0 <= k2 < k && 0 <= m < 3 && 0 <= i < cs@[k2].lc(m).len() ==> (
                #[trigger] cs@[k2].lc(m)[i]).0 < c.n_wires,
        decreases cs.len() - k,
    {
        let con = &cs[k];
        assert(con.a@ == con.lc(0) && con.b@ == con.lc(1) && con.c@ == con.lc(2));
        let ok_a = wires_below(&con.a, c.n_wires);
        let ok_b = wires_below(&con.b, c.n_wires);
        let ok_c = wires_below(&con.c, c.n_wires);
        if !(ok_a && ok_b && ok_c) {
            proof {
                let m: int = if !ok_a {
                    0
                } else if !ok_b {
                    1
                } else {
                    2
                };
                let i = choose|i: int| 0 <= i < con.lc(m).len() && !(con.lc(m)[i].0 < c.n_wires);
                assert(cs@[k as int].lc(m)[i].0 >= c.n_wires);
            }
            return false;
        }
        let lens: [usize; 3] = [con.a.len(), con.b.len(), con.c.len()];
        let mut m: usize = 0;
        while m < 3
            invariant
                cs == &c.constraints,
                k < cs.len(),
                m <= 3,
                lens@[0] == cs@[k as int].lc(0).len(),
                lens@[1] == cs@[k as int].lc(1).len(),
                lens@[2] == cs@[k as int].lc(2).len(),
                forall|m2: int| 0 <= m2 < m ==> #[trigger] totals@[m2] == terms(cs@.take(k + 1), m2),
                forall|m2: int| m <= m2 < 3 ==> #[trigger] totals@[m2] == terms(cs@.take(k as int), m2),
                forall|m2: int| 0 <= m2 < 3 ==> #[trigger] totals@[m2] < usize::MAX,
            decreases 3 - m,
        {
            proof {
                lemma_terms_prefix(cs@, m as int, k as int);
                lemma_terms_prefix(cs@.take(k + 1), m as int, k as int);
                assert(cs@.take(k + 1).take(k as int) =~= cs@.take(k as int));
                if totals[m as int] >= usize::MAX - lens[m as int] {
                    lemma_terms_prefix_le(cs@, m as int, k + 1);
                }
            }
            if totals[m] >= usize::MAX - lens[m] {
                return false;
            }
            totals[m] = totals[m] + lens[m];
            m = m + 1;
        }
        k = k + 1;
    }
    assert(cs@.take(cs.len() as int) =~= cs@);
    assert forall|m: int| 0 <= m < 3 implies #[trigger] terms(c.constraints@, m) < usize::MAX by {
        assert(totals@[m] == terms(cs@.take(k as int), m));
    }
    true
}

/// Term counts of a prefix never exceed those of the whole.
proof fn lemma_terms_prefix_le(cs: Seq<Constraint>, m: int, k: int)
    requires
        0 <= k <= cs.len(),
    ensures
        terms(cs.take(k), m) <= terms(cs, m),
    decreases cs.len(),
{
    if k < cs.len() {
        assert(cs.drop_last().take(k) =~= cs.take(k));
        lemma_terms_prefix_le(cs.drop_last(), m, k);
    } else {
        assert(cs.take(k) =~= cs);
    }
}

} // verus!
