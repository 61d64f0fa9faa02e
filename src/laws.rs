//! Properties of a split that hold for every input the split accepts.
use crate::circuit::{lc_count, lc_eval, terms, wire_uses, Circuit, Constraint};
use crate::distribute::{
    accepts, block_size, lemma_block_size_pos, const_owner, const_position, effective_wires, is_distribution,
    lemma_new_wire, new_wire, next_pow2, occupied, pow2_at_least, rekeyed,
};
use crate::field::Element;
use vstd::arithmetic::div_mod::{
    lemma_fundamental_div_mod, lemma_fundamental_div_mod_converse,
};
use vstd::arithmetic::power2::{lemma_pow2_strictly_increases, lemma_pow2_unfold, pow2};
use vstd::prelude::*;

verus! {

proof fn lemma_eval_rekeyed(
    l1: Seq<(usize, Element)>,
    w1: Seq<Element>,
    l2: Seq<(usize, Element)>,
    w2: Seq<Element>,
)
    requires
        l1.len() == l2.len(),
        forall|i: int|
            0 <= i < l1.len() ==> (#[trigger] l1[i]).1 == l2[i].1 && w1[l1[i].0 as int]
                == w2[l2[i].0 as int],
    ensures
        lc_eval(l1, w1) == lc_eval(l2, w2),
    decreases l1.len(),
{
    if l1.len() > 0 {
        let i = l1.len() - 1;
        assert(l1[i].1 == l2[i].1);
        lemma_eval_rekeyed(l1.drop_last(), w1, l2.drop_last(), w2);
    }
}

/// The constant term at position `r` goes to a block `s` whose slice
/// `[s * chunk, (s + 1) * chunk)` holds `r`; the last slice is open above.
proof fn lemma_const_owner(r: int, chunk: int, n: int)
    requires
        n >= 1,
        r >= 0,
        chunk >= 0,
    ensures
        0 <= const_owner(r, chunk, n) < n,
        const_owner(r, chunk, n) * chunk <= r,
        const_owner(r, chunk, n) < n - 1 ==> r < (const_owner(r, chunk, n) + 1) * chunk,
{
    let s = const_owner(r, chunk, n);
    if chunk == 0 {
        assert(s * chunk == 0) by (nonlinear_arith)
            requires
                chunk == 0,
        ;
    } else {
        lemma_fundamental_div_mod(r, chunk);
        let q = r / chunk;
        assert(q >= 0) by (nonlinear_arith)
            requires
                r >= 0,
                chunk > 0,
                q == r / chunk,
        ;
        assert(s * chunk <= q * chunk) by (nonlinear_arith)
            requires
                s <= q,
                chunk > 0,
        ;
        assert(q * chunk <= r < (q + 1) * chunk) by (nonlinear_arith)
            requires
                r == chunk * q + r % chunk,
                0 <= r % chunk < chunk,
        ;
    }
}

/// Term `i` of side `m` of constraint `k` reads, in the split, the value that
/// it read before.
proof fn lemma_term_value(c: Circuit, n: nat, out: Circuit, k: int, m: int, i: int)
    requires
        c.wf(),
        c.constant_is_one(),
        accepts(c.n_wires as nat, n),
        is_distribution(c, n, out),
        0 <= k < c.constraints.len(),
        0 <= m < 3,
        0 <= i < c.constraints@[k].lc(m).len(),
    ensures
        out.witness@[out.constraints@[k].lc(m)[i].0 as int] == c.witness@[c.constraints@[k].lc(
            m,
        )[i].0 as int],
{
    let cs = c.constraints@;
    let v = cs[k].lc(m)[i].0 as int;
    let bs = block_size(c.n_wires as nat, n) as int;
    assert(out.constraints@[k].lc(m)[i] == (rekeyed(c, n, k, m, i) as usize, cs[k].lc(m)[i].1));
    lemma_fundamental_div_mod(effective_wires(c.n_wires as nat, n) as int, n as int);
    if v == 0 {
        let s = const_owner(const_position(cs, m, k, i), wire_uses(cs, m, 0) as int / n as int, n as int);
        lemma_const_owner(const_position(cs, m, k, i), wire_uses(cs, m, 0) as int / n as int, n as int);
        assert(0 <= s * bs <= n * bs) by (nonlinear_arith)
            requires
                0 <= s < n,
                bs >= 0,
        ;
        assert(out.witness@[s * bs] == Element::spec_one());
    } else {
        lemma_new_wire(c, n, v, v);
    }
}

/// A split keeps every constraint satisfied: whenever `c` is satisfied with
/// wire 0 bound to one, so is every split of it.
pub proof fn law_satisfiability_preserved(c: Circuit, n: nat, out: Circuit)
    requires
        c.wf(),
        c.constant_is_one(),
        c.satisfied(),
        accepts(c.n_wires as nat, n),
        is_distribution(c, n, out),
    ensures
        out.satisfied(),
{
    assert forall|k: int| 0 <= k < out.constraints.len() implies #[trigger] out.holds(k) by {
        assert(c.holds(k));
        assert forall|m: int| 0 <= m < 3 implies lc_eval(out.constraints@[k].lc(m), out.witness@)
            == lc_eval(c.constraints@[k].lc(m), c.witness@) by {
            assert forall|i: int| 0 <= i < c.constraints@[k].lc(m).len() implies (
            #[trigger] c.constraints@[k].lc(m)[i]).1 == out.constraints@[k].lc(m)[i].1
                && c.witness@[c.constraints@[k].lc(m)[i].0 as int]
                == out.witness@[out.constraints@[k].lc(m)[i].0 as int] by {
                lemma_term_value(c, n, out, k, m, i);
            }
            lemma_eval_rekeyed(
                c.constraints@[k].lc(m),
                c.witness@,
                out.constraints@[k].lc(m),
                out.witness@,
            );
        }
        assert(lc_eval(out.constraints@[k].lc(0), out.witness@) == lc_eval(c.constraints@[k].lc(0), c.witness@));
        assert(lc_eval(out.constraints@[k].lc(1), out.witness@) == lc_eval(c.constraints@[k].lc(1), c.witness@));
        assert(lc_eval(out.constraints@[k].lc(2), out.witness@) == lc_eval(c.constraints@[k].lc(2), c.witness@));
    }
}

proof fn lemma_pow2_shape(j: nat, x: nat)
    requires
        j == 0 || pow2((j - 1) as nat) < x,
    ensures
        exists|k: nat|
            k >= j && #[trigger] pow2(k) == pow2_at_least(pow2(j), x) && pow2(k) >= x && (k == 0
                || pow2((k - 1) as nat) < x),
    decreases (if pow2(j) < x { x - pow2(j) } else { 0 }),
{
    lemma_pow2_unfold(j + 1);
    lemma_pow2_strictly_increases(j, j + 1);
    if pow2(j) >= x {
        assert(pow2(j) == pow2_at_least(pow2(j), x));
    } else {
        assert(pow2(j) > 0) by {
            vstd::arithmetic::power2::lemma_pow2_pos(j);
        }
        assert(pow2_at_least(pow2(j), x) == pow2_at_least(2 * pow2(j), x));
        lemma_pow2_shape(j + 1, x);
    }
}

/// The split has as many wires as the smallest power of two that is at least
/// the input wire count plus the subprover count minus one.
pub proof fn law_wire_count(c: Circuit, n: nat, out: Circuit)
    requires
        c.wf(),
        accepts(c.n_wires as nat, n),
        is_distribution(c, n, out),
    ensures
        out.n_wires == next_pow2((c.n_wires + n - 1) as nat),
        out.n_wires >= c.n_wires + n - 1,
        exists|k: nat| pow2(k) == out.n_wires,
        forall|k: nat| pow2(k) >= c.n_wires + n - 1 ==> #[trigger] pow2(k) >= out.n_wires,
{
    let x = (c.n_wires + n - 1) as nat;
    assert(pow2(0) == 1) by {
        vstd::arithmetic::power2::lemma2_to64();
    }
    lemma_pow2_shape(0, x);
    let k = choose|k: nat|
        k >= 0 && #[trigger] pow2(k) == pow2_at_least(pow2(0), x) && pow2(k) >= x && (k == 0
            || pow2((k - 1) as nat) < x);
    assert forall|k2: nat| pow2(k2) >= x implies #[trigger] pow2(k2) >= out.n_wires by {
        if k2 < k {
            if k2 < k - 1 {
                lemma_pow2_strictly_increases(k2, (k - 1) as nat);
            }
        } else if k2 > k {
            lemma_pow2_strictly_increases(k, k2);
        }
    }
}

proof fn lemma_terms_same_lengths(cs1: Seq<Constraint>, cs2: Seq<Constraint>, m: int)
    requires
        cs1.len() == cs2.len(),
        forall|k: int| 0 <= k < cs1.len() ==> (#[trigger] cs1[k].lc(m)).len() == cs2[k].lc(m).len(),
    ensures
        terms(cs1, m) == terms(cs2, m),
    decreases cs1.len(),
{
    if cs1.len() > 0 {
        let k = cs1.len() - 1;
        assert(cs1[k].lc(m).len() == cs2[k].lc(m).len());
        lemma_terms_same_lengths(cs1.drop_last(), cs2.drop_last(), m);
    }
}

/// A split keeps the number of constraints and the number of terms of each side.
pub proof fn law_nonzero_conservation(c: Circuit, n: nat, out: Circuit)
    requires
        c.wf(),
        accepts(c.n_wires as nat, n),
        is_distribution(c, n, out),
    ensures
        out.constraints.len() == c.constraints.len(),
        forall|m: int| 0 <= m < 3 ==> #[trigger] terms(out.constraints@, m) == terms(c.constraints@, m),
{
    assert forall|m: int| 0 <= m < 3 implies #[trigger] terms(out.constraints@, m) == terms(
        c.constraints@,
        m,
    ) by {
        lemma_terms_same_lengths(out.constraints@, c.constraints@, m);
    }
}

/// Every non-constant wire gets one slot of its own, outside slot 0, in one
/// subprover's block; its witness value and mapping move with it, and all its
/// terms follow it there.
pub proof fn law_partition_complete(c: Circuit, n: nat, out: Circuit, v: int)
    requires
        c.wf(),
        accepts(c.n_wires as nat, n),
        is_distribution(c, n, out),
        1 <= v < c.n_wires,
    ensures
        new_wire(c, n, v) / (block_size(c.n_wires as nat, n) as int) < n,
        1 <= new_wire(c, n, v) % (block_size(c.n_wires as nat, n) as int) < block_size(
            c.n_wires as nat,
            n,
        ),
        forall|u: int| 1 <= u < c.n_wires && u != v ==> #[trigger] new_wire(c, n, u) != new_wire(c, n, v),
        out.witness@[new_wire(c, n, v)] == c.witness@[v],
        out.wire_mapping@[new_wire(c, n, v)] == c.wire_mapping@[v],
        forall|k: int, m: int, i: int|
            0 <= k < c.constraints.len() && 0 <= m < 3 && 0 <= i < c.constraints@[k].lc(m).len()
                && c.constraints@[k].lc(m)[i].0 == v ==> #[trigger] out.constraints@[k].lc(m)[i].0
                == new_wire(c, n, v),
{
    lemma_new_wire(c, n, v, v);
    assert forall|u: int| 1 <= u < c.n_wires && u != v implies #[trigger] new_wire(c, n, u)
        != new_wire(c, n, v) by {
        lemma_new_wire(c, n, u, v);
    }
    assert forall|k: int, m: int, i: int|
        0 <= k < c.constraints.len() && 0 <= m < 3 && 0 <= i < c.constraints@[k].lc(m).len()
            && c.constraints@[k].lc(m)[i].0 == v implies #[trigger] out.constraints@[k].lc(m)[i].0
            == new_wire(c, n, v) by {
        assert(out.constraints@[k].lc(m)[i] == (rekeyed(c, n, k, m, i) as usize,
        c.constraints@[k].lc(m)[i].1));
    }
}

/// The constant wire's terms of each side are cut into `n` consecutive
/// slices: a term lands on a slot 0 exactly when it is on the constant wire,
/// keeps its coefficient, and its position among the constant wire's terms
/// lies in the slice of the block it lands in, `chunk` terms each and the
/// last block taking the rest.
pub proof fn law_constant_split(c: Circuit, n: nat, out: Circuit, k: int, m: int, i: int)
    requires
        c.wf(),
        accepts(c.n_wires as nat, n),
        is_distribution(c, n, out),
        0 <= k < c.constraints.len(),
        0 <= m < 3,
        0 <= i < c.constraints@[k].lc(m).len(),
    ensures
        out.constraints@[k].lc(m)[i].1 == c.constraints@[k].lc(m)[i].1,
        (c.constraints@[k].lc(m)[i].0 == 0) == (out.constraints@[k].lc(m)[i].0 as int % block_size(
            c.n_wires as nat,
            n,
        ) as int == 0),
        c.constraints@[k].lc(m)[i].0 == 0 ==> ({
            let bs = block_size(c.n_wires as nat, n) as int;
            let s = out.constraints@[k].lc(m)[i].0 as int / bs;
            let r = const_position(c.constraints@, m, k, i);
            let chunk = wire_uses(c.constraints@, m, 0) / n;
            &&& 0 <= r < wire_uses(c.constraints@, m, 0)
            &&& 0 <= s < n
            &&& s * chunk <= r
            &&& s < n - 1 ==> r < (s + 1) * chunk
        }),
{
    let cs = c.constraints@;
    let v = cs[k].lc(m)[i].0 as int;
    let bs = block_size(c.n_wires as nat, n) as int;
    assert(out.constraints@[k].lc(m)[i] == (rekeyed(c, n, k, m, i) as usize, cs[k].lc(m)[i].1));
    lemma_fundamental_div_mod(effective_wires(c.n_wires as nat, n) as int, n as int);
    if v == 0 {
        let r = const_position(cs, m, k, i);
        let chunk = wire_uses(cs, m, 0) as int / n as int;
        let s = const_owner(r, chunk, n as int);
        lemma_const_owner(r, chunk, n as int);
        lemma_position_below(cs, m, k, i);
        assert(0 <= s * bs <= n * bs) by (nonlinear_arith)
            requires
                0 <= s < n,
                bs >= 0,
        ;
        lemma_block_size_pos(c.n_wires as nat, n);
        lemma_fundamental_div_mod_converse(s * bs, bs, s, 0);
    } else {
        lemma_new_wire(c, n, v, v);
    }
}

proof fn lemma_lc_count_prefix(lc: Seq<(usize, Element)>, v: int, j: int)
    requires
        0 <= j <= lc.len(),
    ensures
        lc_count(lc.take(j), v) <= lc_count(lc, v),
        j < lc.len() ==> lc_count(lc.take(j + 1), v) == lc_count(lc.take(j), v) + if lc[j].0
            == v {
            1nat
        } else {
            0nat
        },
    decreases lc.len(),
{
    if j < lc.len() {
        assert(lc.take(j + 1).drop_last() =~= lc.take(j));
        assert(lc.drop_last().take(j) =~= lc.take(j));
        lemma_lc_count_prefix(lc.drop_last(), v, j);
    } else {
        assert(lc.take(j) =~= lc);
    }
}

proof fn lemma_wire_uses_prefix(cs: Seq<Constraint>, m: int, v: int, k: int)
    requires
        0 <= k <= cs.len(),
    ensures
        wire_uses(cs.take(k), m, v) <= wire_uses(cs, m, v),
    decreases cs.len(),
{
    if k < cs.len() {
        assert(cs.drop_last().take(k) =~= cs.take(k));
        lemma_wire_uses_prefix(cs.drop_last(), m, v, k);
    } else {
        assert(cs.take(k) =~= cs);
    }
}

/// The position of a constant term among the constant wire's terms is below
/// their number.
proof fn lemma_position_below(cs: Seq<Constraint>, m: int, k: int, i: int)
    requires
        0 <= k < cs.len(),
        0 <= i < cs[k].lc(m).len(),
        cs[k].lc(m)[i].0 == 0,
    ensures
        0 <= const_position(cs, m, k, i) < wire_uses(cs, m, 0),
{
    let lc = cs[k].lc(m);
    lemma_lc_count_prefix(lc, 0, i);
    lemma_lc_count_prefix(lc, 0, i + 1);
    assert(cs.take(k + 1).drop_last() =~= cs.take(k));
    lemma_wire_uses_prefix(cs, m, 0, k + 1);
}

/// Two splits of one circuit over the same number of subprovers agree wire
/// for wire and term for term.
pub proof fn law_deterministic(c: Circuit, n: nat, o1: Circuit, o2: Circuit)
    requires
        c.wf(),
        accepts(c.n_wires as nat, n),
        is_distribution(c, n, o1),
        is_distribution(c, n, o2),
    ensures
        o1.n_wires == o2.n_wires,
        o1.witness@ == o2.witness@,
        o1.wire_mapping@ == o2.wire_mapping@,
        o1.constraints.len() == o2.constraints.len(),
        forall|k: int, m: int|
            0 <= k < o1.constraints.len() && 0 <= m < 3 ==> #[trigger] o1.constraints@[k].lc(m)
                == o2.constraints@[k].lc(m),
{
    let bs = block_size(c.n_wires as nat, n) as int;
    lemma_block_size_pos(c.n_wires as nat, n);
    assert forall|i: int| 0 <= i < o1.witness.len() implies o1.witness@[i] == o2.witness@[i]
        && o1.wire_mapping@[i] == o2.wire_mapping@[i] by {
        if i % bs == 0 && i / bs < n {
            lemma_fundamental_div_mod(i, bs);
            let s = i / bs;
            assert(i == s * bs) by (nonlinear_arith)
                requires
                    i == bs * s + i % bs,
                    i % bs == 0,
            ;
            assert(o1.witness@[s * bs] == Element::spec_one());
            assert(o2.witness@[s * bs] == Element::spec_one());
        } else if exists|v: int| 1 <= v < c.n_wires && new_wire(c, n, v) == i {
            let v = choose|v: int| 1 <= v < c.n_wires && new_wire(c, n, v) == i;
            assert(o1.witness@[new_wire(c, n, v)] == c.witness@[v]);
            assert(o2.witness@[new_wire(c, n, v)] == c.witness@[v]);
        } else {
            assert(!occupied(c, n, i));
        }
    }
    assert(o1.witness@ =~= o2.witness@);
    assert(o1.wire_mapping@ =~= o2.wire_mapping@);
    assert forall|k: int, m: int|
        0 <= k < o1.constraints.len() && 0 <= m < 3 implies #[trigger] o1.constraints@[k].lc(m)
        == o2.constraints@[k].lc(m) by {
        assert forall|i: int| 0 <= i < o1.constraints@[k].lc(m).len() implies o1.constraints@[k].lc(
            m,
        )[i] == o2.constraints@[k].lc(m)[i] by {
            assert(o1.constraints@[k].lc(m)[i] == (rekeyed(c, n, k, m, i) as usize,
            c.constraints@[k].lc(m)[i].1));
            assert(o2.constraints@[k].lc(m)[i] == (rekeyed(c, n, k, m, i) as usize,
            c.constraints@[k].lc(m)[i].1));
        }
        assert(o1.constraints@[k].lc(m) =~= o2.constraints@[k].lc(m));
    }
}

/// With one subprover nothing is split: constraints and term counts stay, and
/// every term of the constant wire stays on wire 0.
pub proof fn law_single_subprover(c: Circuit, out: Circuit)
    requires
        c.wf(),
        accepts(c.n_wires as nat, 1),
        is_distribution(c, 1, out),
    ensures
        out.constraints.len() == c.constraints.len(),
        forall|m: int| 0 <= m < 3 ==> #[trigger] terms(out.constraints@, m) == terms(c.constraints@, m),
        forall|k: int, m: int, i: int|
            0 <= k < c.constraints.len() && 0 <= m < 3 && 0 <= i < c.constraints@[k].lc(m).len()
                && c.constraints@[k].lc(m)[i].0 == 0 ==> #[trigger] out.constraints@[k].lc(m)[i]
                == c.constraints@[k].lc(m)[i],
{
    law_nonzero_conservation(c, 1, out);
    assert forall|k: int, m: int, i: int|
        0 <= k < c.constraints.len() && 0 <= m < 3 && 0 <= i < c.constraints@[k].lc(m).len()
            && c.constraints@[k].lc(m)[i].0 == 0 implies #[trigger] out.constraints@[k].lc(m)[i]
        == c.constraints@[k].lc(m)[i] by {
        assert(out.constraints@[k].lc(m)[i] == (rekeyed(c, 1, k, m, i) as usize,
        c.constraints@[k].lc(m)[i].1));
        let r = const_position(c.constraints@, m, k, i);
        let chunk = wire_uses(c.constraints@, m, 0) as int / 1;
        lemma_position_below(c.constraints@, m, k, i);
        lemma_const_owner(r, chunk, 1);
        let o = const_owner(r, chunk, 1);
        assert(o == 0);
        let bs = block_size(c.n_wires as nat, 1) as int;
        assert(o * bs == 0) by (nonlinear_arith)
            requires
                o == 0,
        ;
        assert(rekeyed(c, 1, k, m, i) == o * bs);
    }
}

/// A split is itself a well-formed circuit, with reduced values wherever the
/// input had them.
pub proof fn law_split_well_formed(c: Circuit, n: nat, out: Circuit)
    requires
        c.wf(),
        accepts(c.n_wires as nat, n),
        is_distribution(c, n, out),
    ensures
        out.wf(),
        c.canonical() ==> out.canonical(),
{
    let bs = block_size(c.n_wires as nat, n) as int;
    let e = effective_wires(c.n_wires as nat, n) as int;
    lemma_block_size_pos(c.n_wires as nat, n);
    law_nonzero_conservation(c, n, out);
    assert forall|k: int, m: int, i: int|
        0 <= k < out.constraints.len() && 0 <= m < 3 && 0 <= i < out.constraints@[k].lc(m).len()
            implies (#[trigger] out.constraints@[k].lc(m)[i]).0 < out.n_wires by {
        let cs = c.constraints@;
        assert(out.constraints@[k].lc(m)[i] == (rekeyed(c, n, k, m, i) as usize, cs[k].lc(m)[i].1));
        let v = cs[k].lc(m)[i].0 as int;
        if v == 0 {
            let s = const_owner(const_position(cs, m, k, i), wire_uses(cs, m, 0) as int / n as int, n as int);
            lemma_const_owner(const_position(cs, m, k, i), wire_uses(cs, m, 0) as int / n as int, n as int);
            lemma_position_below(cs, m, k, i);
            assert(0 <= s * bs < n * bs) by (nonlinear_arith)
                requires
                    0 <= s < n,
                    bs >= 1,
            ;
        } else {
            lemma_new_wire(c, n, v, v);
        }
    }
    if c.canonical() {
        assert forall|i: int| 0 <= i < out.witness.len() implies #[trigger] out.witness@[i].canonical() by {
            if i % bs == 0 && i / bs < n {
                lemma_fundamental_div_mod(i, bs);
                let s = i / bs;
                assert(i == s * bs) by (nonlinear_arith)
                    requires
                        i == bs * s + i % bs,
                        i % bs == 0,
                ;
                assert(out.witness@[s * bs] == Element::spec_one());
            } else if exists|v: int| 1 <= v < c.n_wires && new_wire(c, n, v) == i {
                let v = choose|v: int| 1 <= v < c.n_wires && new_wire(c, n, v) == i;
                assert(out.witness@[new_wire(c, n, v)] == c.witness@[v]);
            } else {
                assert(!occupied(c, n, i));
            }
        }
        assert forall|k: int, m: int, i: int|
            0 <= k < out.constraints.len() && 0 <= m < 3 && 0 <= i < out.constraints@[k].lc(m).len()
                implies (#[trigger] out.constraints@[k].lc(m)[i]).1.canonical() by {
            assert(out.constraints@[k].lc(m)[i].1 == c.constraints@[k].lc(m)[i].1);
        }
    }
}

} // verus!
