//! The consistency check `(A·w) * (B·w) = C·w` over the scalar field.
use crate::circuit::{lc_eval, Circuit, Constraint};
use crate::field::{fr_add, fr_modulus, fr_mul, Element};
use vstd::arithmetic::div_mod::{lemma_add_mod_noop, lemma_fundamental_div_mod_converse, lemma_mul_mod_noop};
use vstd::prelude::*;

verus! {

/// Equal reduced values have equal limbs.
proof fn lemma_limbs_determine_value(x: Element, y: Element)
    requires
        x.value() == y.value(),
    ensures
        x.limbs@ == y.limbs@,
{
    let b: int = 0x1_0000_0000_0000_0000;
    let hx = x.limbs@[1] + b * (x.limbs@[2] + b * x.limbs@[3]);
    let hy = y.limbs@[1] + b * (y.limbs@[2] + b * y.limbs@[3]);
    assert(x.value() == x.limbs@[0] + b * hx) by (nonlinear_arith)
        requires
            b == 0x1_0000_0000_0000_0000int,
            hx == x.limbs@[1] + b * (x.limbs@[2] + b * x.limbs@[3]),
            x.value() == x.limbs@[0] as nat + x.limbs@[1] as nat * 0x1_0000_0000_0000_0000nat
                + x.limbs@[2] as nat * 0x1_0000_0000_0000_0000_0000_0000_0000_0000nat
                + x.limbs@[3] as nat
                * 0x1_0000_0000_0000_0000_0000_0000_0000_0000_0000_0000_0000_0000nat,
    ;
    assert(y.value() == y.limbs@[0] + b * hy) by (nonlinear_arith)
        requires
            b == 0x1_0000_0000_0000_0000int,
            hy == y.limbs@[1] + b * (y.limbs@[2] + b * y.limbs@[3]),
            y.value() == y.limbs@[0] as nat + y.limbs@[1] as nat * 0x1_0000_0000_0000_0000nat
                + y.limbs@[2] as nat * 0x1_0000_0000_0000_0000_0000_0000_0000_0000nat
                + y.limbs@[3] as nat
                * 0x1_0000_0000_0000_0000_0000_0000_0000_0000_0000_0000_0000_0000nat,
    ;
    lemma_fundamental_div_mod_converse(x.value() as int, b, hx, x.limbs@[0] as int);
    lemma_fundamental_div_mod_converse(y.value() as int, b, hy, y.limbs@[0] as int);
    let gx = x.limbs@[2] + b * x.limbs@[3];
    let gy = y.limbs@[2] + b * y.limbs@[3];
    lemma_fundamental_div_mod_converse(hx, b, gx, x.limbs@[1] as int);
    lemma_fundamental_div_mod_converse(hy, b, gy, y.limbs@[1] as int);
    lemma_fundamental_div_mod_converse(gx, b, x.limbs@[3] as int, x.limbs@[2] as int);
    lemma_fundamental_div_mod_converse(gy, b, y.limbs@[3] as int, y.limbs@[2] as int);
    assert(x.limbs@ =~= y.limbs@);
}

fn same_element(x: Element, y: Element) -> (r: bool)
    ensures
        r == (x.value() == y.value()),
{
    let r = x.limbs[0] == y.limbs[0] && x.limbs[1] == y.limbs[1] && x.limbs[2] == y.limbs[2]
        && x.limbs[3] == y.limbs[3];
    proof {
        if x.value() == y.value() {
            lemma_limbs_determine_value(x, y);
            assert(x.limbs@[0] == y.limbs@[0] && x.limbs@[1] == y.limbs@[1]);
            assert(x.limbs@[2] == y.limbs@[2] && x.limbs@[3] == y.limbs@[3]);
        }
        if r {
            assert(x.limbs@ =~= y.limbs@);
        }
    }
    r
}

/// `lc · w` reduced into the field.
fn evaluate(lc: &Vec<(usize, Element)>, w: &Vec<Element>) -> (r: Element)
    requires
        forall|i: int| 0 <= i < lc.len() ==> (#[trigger] lc@[i]).0 < w.len() && lc@[i].1.canonical(),
        forall|i: int| 0 <= i < w.len() ==> #[trigger] w@[i].canonical(),
    ensures
        r.canonical(),
        r.value() as int == lc_eval(lc@, w@) % (fr_modulus() as int),
{
    let ghost p = fr_modulus() as int;
    let mut acc = Element::zero();
    let mut j: usize = 0;
    while j < lc.len()
        invariant
            forall|i: int|
                0 <= i < lc.len() ==> (#[trigger] lc@[i]).0 < w.len() && lc@[i].1.canonical(),
            forall|i: int| 0 <= i < w.len() ==> #[trigger] w@[i].canonical(),
            p == fr_modulus() as int,
            j <= lc.len(),
            acc.canonical(),
            acc.value() as int == lc_eval(lc@.take(j as int), w@) % p,
        decreases lc.len() - j,
    {
        let (v, coeff) = lc[j];
        assert(lc@.take(j + 1).drop_last() =~= lc@.take(j as int));
        let t = fr_mul(coeff, w[v]);
        let prev = acc;
        acc = fr_add(acc, t);
        proof {
            let e = lc_eval(lc@.take(j as int), w@);
            let ct = (coeff.value() * w@[v as int].value()) as int;
            lemma_add_mod_noop(e, ct, p);
            assert((prev.value() + t.value()) as int % p == (e % p + ct % p) % p);
        }
        j = j + 1;
    }
    assert(lc@.take(lc.len() as int) =~= lc@);
    acc
}

/// Whether constraint `con` holds in the field under `w`.
fn constraint_holds(con: &Constraint, w: &Vec<Element>) -> (r: bool)
    requires
        forall|m: int, i: int|
            0 <= m < 3 && 0 <= i < con.lc(m).len() ==> (#[trigger] con.lc(m)[i]).0 < w.len()
                && con.lc(m)[i].1.canonical(),
        forall|i: int| 0 <= i < w.len() ==> #[trigger] w@[i].canonical(),
    ensures
        r == ((lc_eval(con.lc(0), w@) * lc_eval(con.lc(1), w@)) % (fr_modulus() as int) == lc_eval(
            con.lc(2),
            w@,
        ) % (fr_modulus() as int)),
{
    let ghost p = fr_modulus() as int;
    assert(con.a@ == con.lc(0) && con.b@ == con.lc(1) && con.c@ == con.lc(2));
    assert forall|i: int| 0 <= i < con.a.len() implies (#[trigger] con.a@[i]).0 < w.len()
        && con.a@[i].1.canonical() by {
        assert(con.lc(0)[i] == con.a@[i]);
    }
    assert forall|i: int| 0 <= i < con.b.len() implies (#[trigger] con.b@[i]).0 < w.len()
        && con.b@[i].1.canonical() by {
        assert(con.lc(1)[i] == con.b@[i]);
    }
    assert forall|i: int| 0 <= i < con.c.len() implies (#[trigger] con.c@[i]).0 < w.len()
        && con.c@[i].1.canonical() by {
        assert(con.lc(2)[i] == con.c@[i]);
    }
    let a = evaluate(&con.a, w);
    let b = evaluate(&con.b, w);
    let c = evaluate(&con.c, w);
    let ab = fr_mul(a, b);
    proof {
        lemma_mul_mod_noop(lc_eval(con.lc(0), w@), lc_eval(con.lc(1), w@), p);
    }
    same_element(ab, c)
}

/// Whether every constraint of `c` holds in the field under its witness.
pub fn check_satisfied(c: &Circuit) -> (r: bool)
    requires
        c.wf(),
        c.canonical(),
    ensures
        r == c.satisfied(),
{
    let mut k: usize = 0;
    while k < c.constraints.len()
        invariant
            c.wf(),
            c.canonical(),
            k <= c.constraints.len(),
            forall|k2: int| 0 <= k2 < k ==> #[trigger] c.holds(k2),
        decreases c.constraints.len() - k,
    {
        let con = &c.constraints[k];
        assert forall|m: int, i: int|
            0 <= m < 3 && 0 <= i < con.lc(m).len() implies (#[trigger] con.lc(m)[i]).0
            < c.witness.len() && con.lc(m)[i].1.canonical() by {
            assert(c.constraints@[k as int].lc(m)[i] == con.lc(m)[i]);
        }
        if !constraint_holds(con, &c.witness) {
            assert(!c.holds(k as int));
            return false;
        }
        k = k + 1;
    }
    true
}

} // verus!
