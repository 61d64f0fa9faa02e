use crate::circuit::{
    lc_count, lemma_terms_prefix, lemma_wire_uses_le, terms, wire_uses, Circuit, Constraint,
};
use crate::field::Element;
use crate::placement::{lemma_rank_injective, placement_ranks, rank};
use vstd::arithmetic::div_mod::{
    lemma_div_is_ordered, lemma_fundamental_div_mod, lemma_fundamental_div_mod_converse,
    lemma_mod_multiples_basic,
};
use vstd::prelude::*;

verus! {

/// Doubles `p` until it reaches `x`.
pub open spec fn pow2_at_least(p: nat, x: nat) -> nat
    decreases (if p < x { x - p } else { 0 }),
{
    if p >= x || p == 0 {
        p
    } else {
        pow2_at_least(2 * p, x)
    }
}

/// The smallest power of two that is at least `x`.
pub open spec fn next_pow2(x: nat) -> nat {
    pow2_at_least(1, x)
}

/// Wire count after the split: room for one constant wire per subprover.
pub open spec fn effective_wires(w: nat, n: nat) -> nat {
    next_pow2((w + n - 1) as nat)
}

/// Number of wires in each subprover's block.
pub open spec fn block_size(w: nat, n: nat) -> nat {
    effective_wires(w, n) / n
}

/// Subprover of the wire at sorted position `i`: the scan runs forward over
/// one group of `n` positions and backward over the next.
pub open spec fn subprover_at(i: int, n: int) -> int {
    if i % (2 * n) >= n {
        n - 1 - i % n
    } else {
        i % n
    }
}

/// Slot of the wire at sorted position `i`; slot 0 holds the local constant.
pub open spec fn slot_at(i: int, n: int) -> int {
    i / n + 1
}

/// New index of the wire at sorted position `i`.
pub open spec fn wire_at(i: int, n: int, bs: int) -> int {
    subprover_at(i, n) * bs + slot_at(i, n)
}

/// Side whose non-constant terms are most numerous; a tie goes to the later side.
pub open spec fn dominant(cs: Seq<Constraint>) -> int {
    let t0 = terms(cs, 0) - wire_uses(cs, 0, 0);
    let t1 = terms(cs, 1) - wire_uses(cs, 1, 0);
    let t2 = terms(cs, 2) - wire_uses(cs, 2, 0);
    if t2 >= t0 && t2 >= t1 {
        2
    } else if t1 >= t0 {
        1
    } else {
        0
    }
}

/// Weight of each wire: its number of terms in the dominant side.
pub open spec fn weights(c: Circuit) -> Seq<usize> {
    Seq::new(c.n_wires as nat, |v: int| wire_uses(c.constraints@, dominant(c.constraints@), v) as usize)
}

/// New index of non-constant wire `v`.
pub open spec fn new_wire(c: Circuit, n: nat, v: int) -> int {
    wire_at(rank(weights(c), v) as int, n as int, block_size(c.n_wires as nat, n) as int)
}

/// Subprover that receives the constant term at position `r` of the constant
/// wire's terms, for slices of `chunk` terms; the last takes the remainder.
pub open spec fn const_owner(r: int, chunk: int, n: int) -> int {
    if chunk == 0 {
        n - 1
    } else if r / chunk < n - 1 {
        r / chunk
    } else {
        n - 1
    }
}

/// Position among the constant wire's side-`m` terms of term `i` of constraint `k`.
pub open spec fn const_position(cs: Seq<Constraint>, m: int, k: int, i: int) -> int {
    (wire_uses(cs.take(k), m, 0) + lc_count(cs[k].lc(m).take(i), 0)) as int
}

/// New wire of term `i` of side `m` of constraint `k`.
pub open spec fn rekeyed(c: Circuit, n: nat, k: int, m: int, i: int) -> int {
    let cs = c.constraints@;
    let v = cs[k].lc(m)[i].0;
    if v == 0 {
        const_owner(
            const_position(cs, m, k, i),
            wire_uses(cs, m, 0) as int / n as int,
            n as int,
        ) * block_size(c.n_wires as nat, n)
    } else {
        new_wire(c, n, v as int)
    }
}

/// The subprover blocks can hold every wire and their count fits in a word.
pub open spec fn accepts(w: nat, n: nat) -> bool {
    &&& n >= 1
    &&& effective_wires(w, n) <= usize::MAX
    &&& (w >= 2 ==> (w - 2) / n as int + 2 <= block_size(w, n))
}

/// The scan direction alternates with the parity of the group `i / n`.
proof fn lemma_snake(i: int, n: int)
    requires
        n >= 1,
        i >= 0,
    ensures
        (i % (2 * n) >= n) == ((i / n) % 2 == 1),
        0 <= subprover_at(i, n) < n,
{
    let q = i / n;
    let r = i % n;
    lemma_fundamental_div_mod(i, n);
    lemma_fundamental_div_mod(q, 2);
    let a = q / 2;
    let b = q % 2;
    assert(i == a * (2 * n) + (b * n + r)) by (nonlinear_arith)
        requires
            i == n * q + r,
            q == 2 * a + b,
    ;
    assert(0 <= b * n + r < 2 * n) by (nonlinear_arith)
        requires
            0 <= b < 2,
            0 <= r < n,
    ;
    lemma_fundamental_div_mod_converse(i, 2 * n, a, b * n + r);
    if b == 1 {
        assert(b * n == n) by (nonlinear_arith)
            requires
                b == 1,
        ;
    } else {
        assert(b * n == 0) by (nonlinear_arith)
            requires
                b == 0,
        ;
    }
}

/// Where the wire at sorted position `i` lands: subprover and slot are read
/// back from the new index, and the slot is never the constant's.
proof fn lemma_wire_at(i: int, n: int, bs: int)
    requires
        n >= 1,
        i >= 0,
        i / n + 2 <= bs,
    ensures
        0 <= subprover_at(i, n) < n,
        1 <= slot_at(i, n) < bs,
        wire_at(i, n, bs) / bs == subprover_at(i, n),
        wire_at(i, n, bs) % bs == slot_at(i, n),
        0 <= wire_at(i, n, bs) < n * bs,
{
    lemma_snake(i, n);
    assert(i / n >= 0) by (nonlinear_arith)
        requires
            i >= 0,
            n >= 1,
    ;
    lemma_fundamental_div_mod_converse(wire_at(i, n, bs), bs, subprover_at(i, n), slot_at(i, n));
    let s = subprover_at(i, n);
    let t = slot_at(i, n);
    assert(s * bs + bs <= n * bs) by (nonlinear_arith)
        requires
            0 <= s <= n - 1,
            bs >= 0,
    ;
    assert(0 <= wire_at(i, n, bs)) by (nonlinear_arith)
        requires
            0 <= subprover_at(i, n),
            wire_at(i, n, bs) == subprover_at(i, n) * bs + slot_at(i, n),
            slot_at(i, n) >= 1,
            bs >= 2,
    ;
}

/// Distinct sorted positions land on distinct wires.
proof fn lemma_wire_at_injective(i: int, j: int, n: int, bs: int)
    requires
        n >= 1,
        i >= 0,
        j >= 0,
        i / n + 2 <= bs,
        j / n + 2 <= bs,
        i != j,
    ensures
        wire_at(i, n, bs) != wire_at(j, n, bs),
{
    lemma_wire_at(i, n, bs);
    lemma_wire_at(j, n, bs);
    if wire_at(i, n, bs) == wire_at(j, n, bs) {
        lemma_snake(i, n);
        lemma_snake(j, n);
        lemma_fundamental_div_mod(i, n);
        lemma_fundamental_div_mod(j, n);
        assert(i % n == j % n);
        assert(i == j);
    }
}

proof fn lemma_pow2_at_least(p: nat, x: nat)
    requires
        p >= 1,
    ensures
        pow2_at_least(p, x) >= p,
        pow2_at_least(p, x) >= x,
    decreases (if p < x { x - p } else { 0 }),
{
    if p < x {
        lemma_pow2_at_least(2 * p, x);
    }
}

fn next_pow2_checked(x: usize) -> (r: Option<usize>)
    ensures
        r is Some <==> next_pow2(x as nat) <= usize::MAX,
        r is Some ==> r->0 == next_pow2(x as nat),
{
    let mut p: usize = 1;
    while p < x
        invariant
            p >= 1,
            pow2_at_least(p as nat, x as nat) == next_pow2(x as nat),
        decreases (if p < x { x - p } else { 0 }),
    {
        if p > usize::MAX / 2 {
            proof {
                lemma_pow2_at_least(2 * p as nat, x as nat);
            }
            return None;
        }
        p = p * 2;
    }
    Some(p)
}

/// Number of terms on each wire in side `m`.
fn wire_weights(c: &Circuit, m: usize) -> (r: Vec<usize>)
    requires
        c.wf(),
        m < 3,
    ensures
        r.len() == c.n_wires,
        forall|v: int| 0 <= v < c.n_wires ==> r@[v] == wire_uses(c.constraints@, m as int, v),
        forall|v: int| 0 <= v < c.n_wires ==> r@[v] < usize::MAX,
{
    let cs = &c.constraints;
    let mut r: Vec<usize> = Vec::new();
    let mut v: usize = 0;
    while v < c.n_wires
        invariant
            v <= c.n_wires,
            r.len() == v,
            forall|u: int| 0 <= u < v ==> r@[u] == 0,
        decreases c.n_wires - v,
    {
        r.push(0);
        v = v + 1;
    }
    let mut k: usize = 0;
    while k < cs.len()
        invariant
            c.wf(),
            cs == &c.constraints,
            m < 3,
            k <= cs.len(),
            r.len() == c.n_wires,
            forall|u: int| 0 <= u < c.n_wires ==> r@[u] == wire_uses(cs@.take(k as int), m as int, u),
        decreases cs.len() - k,
    {
        let lc = if m == 0 {
            &cs[k].a
        } else if m == 1 {
            &cs[k].b
        } else {
            &cs[k].c
        };
        assert(lc@ == cs@[k as int].lc(m as int));
        let mut j: usize = 0;
        while j < lc.len()
            invariant
                c.wf(),
                cs == &c.constraints,
                m < 3,
                k < cs.len(),
                lc@ == cs@[k as int].lc(m as int),
                j <= lc.len(),
                r.len() == c.n_wires,
                forall|u: int|
                    0 <= u < c.n_wires ==> r@[u] == wire_uses(cs@.take(k as int), m as int, u)
                        + lc_count(lc@.take(j as int), u),
            decreases lc.len() - j,
        {
            let wire = lc[j].0;
            assert(lc@.take(j + 1).drop_last() =~= lc@.take(j as int));
            proof {
                lemma_terms_prefix(cs@, m as int, k as int);
                lemma_wire_uses_le(cs@.take(k as int), m as int, wire as int);
                crate::circuit::lemma_lc_count_le(lc@.take(j as int), wire as int);
            }
            r.set(wire, r[wire] + 1);
            j = j + 1;
        }
        assert(lc@.take(lc.len() as int) =~= lc@);
        assert(cs@.take(k + 1).drop_last() =~= cs@.take(k as int));
        k = k + 1;
    }
    assert(cs@.take(cs.len() as int) =~= cs@);
    proof {
        assert forall|v: int| 0 <= v < c.n_wires implies r@[v] < usize::MAX by {
            lemma_wire_uses_le(cs@, m as int, v);
        }
    }
    r
}

/// Total number of terms in side `m`.
pub(crate) fn side_terms(c: &Circuit, m: usize) -> (r: usize)
    requires
        c.wf(),
        m < 3,
    ensures
        r == terms(c.constraints@, m as int),
{
    let cs = &c.constraints;
    let mut total: usize = 0;
    let mut k: usize = 0;
    while k < cs.len()
        invariant
            c.wf(),
            cs == &c.constraints,
            m < 3,
            k <= cs.len(),
            total == terms(cs@.take(k as int), m as int),
        decreases cs.len() - k,
    {
        proof {
            lemma_terms_prefix(cs@, m as int, k as int);
        }
        let len = if m == 0 {
            cs[k].a.len()
        } else if m == 1 {
            cs[k].b.len()
        } else {
            cs[k].c.len()
        };
        total = total + len;
        k = k + 1;
    }
    assert(cs@.take(cs.len() as int) =~= cs@);
    total
}

/// A new index that some subprover's block uses: a slot 0, or the place of a
/// non-constant wire.
pub open spec fn occupied(c: Circuit, n: nat, i: int) -> bool {
    let bs = block_size(c.n_wires as nat, n) as int;
    (i % bs == 0 && i / bs < n) || exists|v: int| 1 <= v < c.n_wires && new_wire(c, n, v) == i
}

/// `out` is `c` split over `n` subprovers: each term keeps its coefficient and
/// moves to its new wire; slot 0 of each block carries one; each non-constant
/// wire's witness value and mapping follow it; every other wire is zero.
pub open spec fn is_distribution(c: Circuit, n: nat, out: Circuit) -> bool {
    let bs = block_size(c.n_wires as nat, n) as int;
    let e = effective_wires(c.n_wires as nat, n);
    let cs = c.constraints@;
    &&& out.n_wires == e
    &&& out.constraints.len() == cs.len()
    &&& forall|k: int, m: int|
        0 <= k < cs.len() && 0 <= m < 3 ==> (#[trigger] out.constraints@[k].lc(m)).len()
            == cs[k].lc(m).len()
    &&& forall|k: int, m: int, i: int|
        0 <= k < cs.len() && 0 <= m < 3 && 0 <= i < cs[k].lc(m).len() ==> (
        #[trigger] out.constraints@[k].lc(m)[i]) == (rekeyed(c, n, k, m, i) as usize, cs[k].lc(
            m,
        )[i].1)
    &&& out.witness.len() == e
    &&& out.wire_mapping.len() == e
    &&& forall|s: int|
        0 <= s < n ==> #[trigger] out.witness@[s * bs] == Element::spec_one()
            && out.wire_mapping@[s * bs] == 0
    &&& forall|v: int|
        1 <= v < c.n_wires ==> out.witness@[#[trigger] new_wire(c, n, v)] == c.witness@[v]
            && out.wire_mapping@[new_wire(c, n, v)] == c.wire_mapping@[v]
    &&& forall|i: int|
        0 <= i < e && !occupied(c, n, i) ==> #[trigger] out.witness@[i] == Element::spec_zero()
            && out.wire_mapping@[i] == 0
}

/// Blocks are never empty.
pub proof fn lemma_block_size_pos(w: nat, n: nat)
    requires
        w >= 1,
        accepts(w, n),
    ensures
        block_size(w, n) >= 1,
        n * block_size(w, n) <= effective_wires(w, n),
{
    let e = effective_wires(w, n) as int;
    let bs = block_size(w, n) as int;
    lemma_fundamental_div_mod(e, n as int);
    lemma_pow2_at_least(1, (w + n - 1) as nat);
    assert(bs >= 1) by (nonlinear_arith)
        requires
            e == n * bs + e % (n as int),
            e % (n as int) < n,
            e >= n,
    ;
}

/// Where non-constant wire `v` lands, and that no two land together.
pub proof fn lemma_new_wire(c: Circuit, n: nat, u: int, v: int)
    requires
        c.wf(),
        accepts(c.n_wires as nat, n),
        1 <= u < c.n_wires,
        1 <= v < c.n_wires,
    ensures
        0 <= new_wire(c, n, v) < n * block_size(c.n_wires as nat, n),
        n * block_size(c.n_wires as nat, n) <= effective_wires(c.n_wires as nat, n),
        new_wire(c, n, v) / (block_size(c.n_wires as nat, n) as int) < n,
        1 <= new_wire(c, n, v) % (block_size(c.n_wires as nat, n) as int) < block_size(
            c.n_wires as nat,
            n,
        ),
        u != v ==> new_wire(c, n, u) != new_wire(c, n, v),
{
    let w = c.n_wires as int;
    let bs = block_size(c.n_wires as nat, n) as int;
    let ws = weights(c);
    lemma_rank_injective(ws, v, u);
    lemma_rank_injective(ws, u, v);
    lemma_div_is_ordered(rank(ws, v) as int, w - 2, n as int);
    lemma_div_is_ordered(rank(ws, u) as int, w - 2, n as int);
    lemma_wire_at(rank(ws, v) as int, n as int, bs);
    lemma_fundamental_div_mod(effective_wires(c.n_wires as nat, n) as int, n as int);
    if u != v {
        lemma_wire_at_injective(rank(ws, u) as int, rank(ws, v) as int, n as int, bs);
    }
}

fn const_owner_exec(r: usize, chunk: usize, n: usize) -> (o: usize)
    requires
        n >= 1,
    ensures
        o == const_owner(r as int, chunk as int, n as int),
        o < n,
{
    if chunk == 0 {
        n - 1
    } else if r / chunk < n - 1 {
        r / chunk
    } else {
        n - 1
    }
}

/// Moves every term of `lc` to its new wire; the constant wire's terms go to
/// slot 0 of the block of their owner, `seen` counting those passed so far.
fn rekey_side(
    lc: &Vec<(usize, Element)>,
    index: &Vec<usize>,
    seen: &mut usize,
    chunk: usize,
    n: usize,
    bs: usize,
) -> (r: Vec<(usize, Element)>)
    requires
        n >= 1,
        n * bs <= usize::MAX,
        forall|i: int| 0 <= i < lc.len() ==> #[trigger] lc@[i].0 < index.len(),
        *old(seen) + lc.len() < usize::MAX,
    ensures
        *final(seen) == *old(seen) + lc_count(lc@, 0),
        r.len() == lc.len(),
        forall|i: int|
            0 <= i < lc.len() ==> #[trigger] r@[i] == (if lc@[i].0 == 0 {
                (const_owner(*old(seen) + lc_count(lc@.take(i), 0), chunk as int, n as int)
                    * bs) as usize
            } else {
                index@[lc@[i].0 as int]
            }, lc@[i].1),
{
    let ghost start = *seen;
    let mut r: Vec<(usize, Element)> = Vec::new();
    let mut j: usize = 0;
    while j < lc.len()
        invariant
            n >= 1,
            n * bs <= usize::MAX,
            forall|i: int| 0 <= i < lc.len() ==> #[trigger] lc@[i].0 < index.len(),
            start + lc.len() < usize::MAX,
            j <= lc.len(),
            r.len() == j,
            *seen == start + lc_count(lc@.take(j as int), 0),
            forall|i: int|
                0 <= i < j ==> #[trigger] r@[i] == (if lc@[i].0 == 0 {
                    (const_owner(start + lc_count(lc@.take(i), 0), chunk as int, n as int)
                        * bs) as usize
                } else {
                    index@[lc@[i].0 as int]
                }, lc@[i].1),
        decreases lc.len() - j,
    {
        let (v, coeff) = lc[j];
        assert(lc@.take(j + 1).drop_last() =~= lc@.take(j as int));
        proof {
            crate::circuit::lemma_lc_count_le(lc@.take(j as int), 0);
        }
        if v == 0 {
            let o = const_owner_exec(*seen, chunk, n);
            assert(o * bs <= n * bs) by (nonlinear_arith)
                requires
                    o < n,
            ;
            r.push((o * bs, coeff));
            *seen = *seen + 1;
        } else {
            r.push((index[v], coeff));
        }
        j = j + 1;
    }
    assert(lc@.take(lc.len() as int) =~= lc@);
    r
}

/// New index of every non-constant wire, from its sorted position.
fn wire_index(c: &Circuit, n: usize, bs: usize, ranks: &Vec<usize>) -> (r: Vec<usize>)
    requires
        c.wf(),
        accepts(c.n_wires as nat, n as nat),
        bs == block_size(c.n_wires as nat, n as nat),
        ranks.len() == c.n_wires,
        forall|v: int| 1 <= v < c.n_wires ==> ranks@[v] == rank(weights(*c), v),
    ensures
        r.len() == c.n_wires,
        forall|v: int| 1 <= v < c.n_wires ==> r@[v] == new_wire(*c, n as nat, v),
{
    let mut r: Vec<usize> = Vec::new();
    r.push(0);
    let mut v: usize = 1;
    while v < c.n_wires
        invariant
            c.wf(),
            accepts(c.n_wires as nat, n as nat),
            bs == block_size(c.n_wires as nat, n as nat),
            ranks.len() == c.n_wires,
            forall|u: int| 1 <= u < c.n_wires ==> ranks@[u] == rank(weights(*c), u),
            1 <= v <= c.n_wires,
            r.len() == v,
            forall|u: int| 1 <= u < v ==> r@[u] == new_wire(*c, n as nat, u),
        decreases c.n_wires - v,
    {
        let rk = ranks[v];
        proof {
            lemma_new_wire(*c, n as nat, v as int, v as int);
            lemma_snake(rk as int, n as int);
        }
        let q = rk / n;
        let sub = if q % 2 == 1 {
            n - 1 - rk % n
        } else {
            rk % n
        };
        r.push(sub * bs + q + 1);
        v = v + 1;
    }
    r
}

/// Every constraint with its terms moved to their new wires.
fn rekey_constraints(
    c: &Circuit,
    n: usize,
    bs: usize,
    index: &Vec<usize>,
    chunks: &Vec<usize>,
) -> (r: Vec<Constraint>)
    requires
        c.wf(),
        accepts(c.n_wires as nat, n as nat),
        bs == block_size(c.n_wires as nat, n as nat),
        index.len() == c.n_wires,
        forall|v: int| 1 <= v < c.n_wires ==> index@[v] == new_wire(*c, n as nat, v),
        chunks.len() == 3,
        forall|m: int| 0 <= m < 3 ==> chunks@[m] == wire_uses(c.constraints@, m, 0) / (n as nat),
    ensures
        r.len() == c.constraints.len(),
        forall|k: int, m: int|
            0 <= k < r.len() && 0 <= m < 3 ==> (#[trigger] r@[k].lc(m)).len()
                == c.constraints@[k].lc(m).len(),
        forall|k: int, m: int, i: int|
            0 <= k < r.len() && 0 <= m < 3 && 0 <= i < c.constraints@[k].lc(m).len() ==> (
            #[trigger] r@[k].lc(m)[i]) == (rekeyed(*c, n as nat, k, m, i) as usize,
            c.constraints@[k].lc(m)[i].1),
{
    let cs = &c.constraints;
    let mut r: Vec<Constraint> = Vec::new();
    let mut seen_a: usize = 0;
    let mut seen_b: usize = 0;
    let mut seen_c: usize = 0;
    proof {
        lemma_fundamental_div_mod(effective_wires(c.n_wires as nat, n as nat) as int, n as int);
    }
    let mut k: usize = 0;
    while k < cs.len()
        invariant
            c.wf(),
            cs == &c.constraints,
            accepts(c.n_wires as nat, n as nat),
            bs == block_size(c.n_wires as nat, n as nat),
            n * bs <= usize::MAX,
            index.len() == c.n_wires,
            forall|v: int| 1 <= v < c.n_wires ==> index@[v] == new_wire(*c, n as nat, v),
            chunks.len() == 3,
            forall|m: int|
                0 <= m < 3 ==> chunks@[m] == wire_uses(c.constraints@, m, 0) / (n as nat),
            k <= cs.len(),
            r.len() == k,
            seen_a == wire_uses(cs@.take(k as int), 0, 0),
            seen_b == wire_uses(cs@.take(k as int), 1, 0),
            seen_c == wire_uses(cs@.take(k as int), 2, 0),
            forall|k2: int, m: int|
                0 <= k2 < k && 0 <= m < 3 ==> (#[trigger] r@[k2].lc(m)).len()
                    == c.constraints@[k2].lc(m).len(),
            forall|k2: int, m: int, i: int|
                0 <= k2 < k && 0 <= m < 3 && 0 <= i < c.constraints@[k2].lc(m).len() ==> (
                #[trigger] r@[k2].lc(m)[i]) == (rekeyed(*c, n as nat, k2, m, i) as usize,
                c.constraints@[k2].lc(m)[i].1),
        decreases cs.len() - k,
    {
        let ghost old_seen = seq![seen_a, seen_b, seen_c];
        proof {
            assert forall|m: int| 0 <= m < 3 implies wire_uses(cs@.take(k as int), m, 0)
                + cs@[k as int].lc(m).len() < usize::MAX by {
                lemma_terms_prefix(cs@, m, k as int);
                lemma_wire_uses_le(cs@.take(k as int), m, 0);
            }
            assert forall|m: int, i: int|
                0 <= m < 3 && 0 <= i < cs@[k as int].lc(m).len() implies #[trigger] cs@[k as int].lc(
                m,
            )[i].0 < index.len() by {
                assert(cs@[k as int] == c.constraints@[k as int]);
            }
            lemma_terms_prefix(cs@, 0, k as int);
            lemma_terms_prefix(cs@, 1, k as int);
            lemma_terms_prefix(cs@, 2, k as int);
        }
        let con = &cs[k];
        assert(con.a@ == cs@[k as int].lc(0));
        assert(con.b@ == cs@[k as int].lc(1));
        assert(con.c@ == cs@[k as int].lc(2));
        let a = rekey_side(&con.a, index, &mut seen_a, chunks[0], n, bs);
        let b = rekey_side(&con.b, index, &mut seen_b, chunks[1], n, bs);
        let cc = rekey_side(&con.c, index, &mut seen_c, chunks[2], n, bs);
        let ghost new_con = Constraint { a: a, b: b, c: cc };
        proof {
            assert forall|m: int, i: int|
                0 <= m < 3 && 0 <= i < c.constraints@[k as int].lc(m).len() implies (
                #[trigger] new_con.lc(m)[i]) == (rekeyed(*c, n as nat, k as int, m, i) as usize,
                c.constraints@[k as int].lc(m)[i].1) by {
                let lc = c.constraints@[k as int].lc(m);
                let v = lc[i].0;
                if v != 0 {
                    lemma_new_wire(*c, n as nat, v as int, v as int);
                }
                assert(old_seen[m] == wire_uses(cs@.take(k as int), m, 0));
            }
        }
        r.push(Constraint { a, b, c: cc });
        proof {
            assert(r@[k as int] == new_con);
        }
        k = k + 1;
    }
    assert(cs@.take(cs.len() as int) =~= cs@);
    r
}

/// The rebuilt witness and wire mapping.
fn place_values(c: &Circuit, n: usize, bs: usize, e: usize, index: &Vec<usize>) -> (r: (
    Vec<Element>,
    Vec<u64>,
))
    requires
        c.wf(),
        accepts(c.n_wires as nat, n as nat),
        bs == block_size(c.n_wires as nat, n as nat),
        e == effective_wires(c.n_wires as nat, n as nat),
        index.len() == c.n_wires,
        forall|v: int| 1 <= v < c.n_wires ==> index@[v] == new_wire(*c, n as nat, v),
    ensures
        r.0.len() == e,
        r.1.len() == e,
        forall|s: int|
            0 <= s < n ==> #[trigger] r.0@[s * bs] == Element::spec_one() && r.1@[s * bs] == 0,
        forall|v: int|
            1 <= v < c.n_wires ==> r.0@[#[trigger] new_wire(*c, n as nat, v)] == c.witness@[v]
                && r.1@[new_wire(*c, n as nat, v)] == c.wire_mapping@[v],
        forall|i: int|
            0 <= i < e && !occupied(*c, n as nat, i) ==> #[trigger] r.0@[i]
                == Element::spec_zero() && r.1@[i] == 0,
{
    let mut wit: Vec<Element> = Vec::new();
    let mut map: Vec<u64> = Vec::new();
    let mut i: usize = 0;
    while i < e
        invariant
            i <= e,
            wit.len() == i,
            map.len() == i,
            forall|j: int| 0 <= j < i ==> wit@[j] == Element::spec_zero() && map@[j] == 0,
        decreases e - i,
    {
        wit.push(Element::zero());
        map.push(0);
        i = i + 1;
    }
    let ghost wn = c.n_wires as int;
    let mut v: usize = 1;
    while v < c.n_wires
        invariant
            c.wf(),
            accepts(c.n_wires as nat, n as nat),
            bs == block_size(c.n_wires as nat, n as nat),
            e == effective_wires(c.n_wires as nat, n as nat),
            index.len() == c.n_wires,
            forall|u: int| 1 <= u < c.n_wires ==> index@[u] == new_wire(*c, n as nat, u),
            1 <= v <= c.n_wires,
            wit.len() == e,
            map.len() == e,
            forall|u: int|
                1 <= u < v ==> wit@[#[trigger] new_wire(*c, n as nat, u)] == c.witness@[u]
                    && map@[new_wire(*c, n as nat, u)] == c.wire_mapping@[u],
            forall|j: int|
                0 <= j < e ==> (exists|u: int| 1 <= u < v && new_wire(*c, n as nat, u) == j) || (
                #[trigger] wit@[j] == Element::spec_zero() && map@[j] == 0),
        decreases c.n_wires - v,
    {
        proof {
            lemma_new_wire(*c, n as nat, v as int, v as int);
            assert forall|u: int| 1 <= u < v implies new_wire(*c, n as nat, u) != new_wire(
                *c,
                n as nat,
                v as int,
            ) && 0 <= new_wire(*c, n as nat, u) < e by {
                lemma_new_wire(*c, n as nat, u, v as int);
                lemma_new_wire(*c, n as nat, v as int, u);
                assert(new_wire(*c, n as nat, u) < n * bs);
                assert(n * bs <= e);
            }
        }
        let ghost prev_wit = wit@;
        let ghost prev_map = map@;
        let ghost ov = v as int;
        let x = index[v];
        wit.set(x, c.witness[v]);
        map.set(x, c.wire_mapping[v]);
        v = v + 1;
        proof {
            assert forall|j: int|
                0 <= j < e implies (exists|u: int| 1 <= u < v && new_wire(*c, n as nat, u) == j)
                || (#[trigger] wit@[j] == Element::spec_zero() && map@[j] == 0) by {
                if j == x {
                    assert(1 <= ov < v && new_wire(*c, n as nat, ov) == j);
                } else {
                    assert(prev_wit[j] == wit@[j]);
                    assert(prev_map[j] == map@[j]);
                    if exists|u: int| 1 <= u < ov && new_wire(*c, n as nat, u) == j {
                        let u = choose|u: int| 1 <= u < ov && new_wire(*c, n as nat, u) == j;
                        assert(1 <= u < v && new_wire(*c, n as nat, u) == j);
                    }
                }
            }
        }
    }
    proof {
        lemma_block_size_pos(c.n_wires as nat, n as nat);
    }
    let mut s: usize = 0;
    while s < n
        invariant
            c.wf(),
            accepts(c.n_wires as nat, n as nat),
            bs == block_size(c.n_wires as nat, n as nat),
            e == effective_wires(c.n_wires as nat, n as nat),
            n * bs <= e,
            bs >= 1,
            s <= n,
            wit.len() == e,
            map.len() == e,
            forall|t: int|
                0 <= t < s ==> #[trigger] wit@[t * bs] == Element::spec_one() && map@[t * bs] == 0,
            forall|u: int|
                1 <= u < c.n_wires ==> wit@[#[trigger] new_wire(*c, n as nat, u)] == c.witness@[u]
                    && map@[new_wire(*c, n as nat, u)] == c.wire_mapping@[u],
            forall|j: int|
                0 <= j < e && !occupied(*c, n as nat, j) ==> #[trigger] wit@[j]
                    == Element::spec_zero() && map@[j] == 0,
        decreases n - s,
    {
        assert(s * bs <= n * bs - bs) by (nonlinear_arith)
            requires
                s < n,
        ;
        let x = s * bs;
        let ghost prev_wit = wit@;
        let ghost prev_map = map@;
        proof {
            lemma_mod_multiples_basic(s as int, bs as int);
            assert forall|u: int| 1 <= u < c.n_wires implies #[trigger] new_wire(*c, n as nat, u) != x && 0 <= new_wire(*c, n as nat, u) < e by {
                lemma_new_wire(*c, n as nat, u, u);
            }
            assert forall|u: int| 1 <= u < c.n_wires implies new_wire(*c, n as nat, u) != x by {
                lemma_new_wire(*c, n as nat, u, u);
            }
            assert forall|t: int| 0 <= t < s implies #[trigger] (t * bs) != x by {
                assert(t * bs < s * bs) by (nonlinear_arith)
                    requires
                        t < s,
                        bs > 0,
                ;
            }
        }
        wit.set(x, Element::one());
        map.set(x, 0);
        proof {
            assert forall|u: int| 1 <= u < c.n_wires implies wit@[#[trigger] new_wire(*c, n as nat, u)] == c.witness@[u]
                    && map@[new_wire(*c, n as nat, u)] == c.wire_mapping@[u] by {
                assert(prev_wit[new_wire(*c, n as nat, u)] == wit@[new_wire(*c, n as nat, u)]);
            }
            assert forall|j: int| 0 <= j < e && !occupied(*c, n as nat, j) implies #[trigger] wit@[j]
                    == Element::spec_zero() && map@[j] == 0 by {
                if j == x {
                    lemma_fundamental_div_mod_converse(x as int, bs as int, s as int, 0);
                }
                assert(prev_wit[j] == wit@[j]);
            }
        }
        let ghost os = s as int;
        s = s + 1;
        proof {
            assert forall|t: int| 0 <= t < s implies #[trigger] wit@[t * bs] == Element::spec_one() && map@[t * bs] == 0 by {
                if t < os {
                    assert(0 <= t * bs < os * bs) by (nonlinear_arith)
                        requires
                            0 <= t < os,
                            bs > 0,
                    ;
                    assert(prev_wit[t * bs] == wit@[t * bs]);
                    assert(prev_map[t * bs] == map@[t * bs]);
                } else {
                    assert(t * bs == x);
                }
            }
        }
    }
    (wit, map)
}

/// Why a split cannot be made.
#[derive(Clone, Copy, Debug, PartialEq, Eq)]
pub enum DistributeError {
    /// The number of subprovers is zero.
    NoSubprovers,
    /// The widened wire count does not fit in a machine word.
    TooManyWires,
    /// The blocks are too small to give every wire a slot.
    BlocksTooSmall,
}

/// Splits `c` over `n` subprovers. The constant wire's terms of each side are
/// cut into `n` consecutive slices, the last taking the remainder, and slice
/// `s` moves to slot 0 of block `s`. The other wires are sorted by descending
/// weight in the dominant side, ties kept in wire order, and dealt to the
/// blocks in a snake scan. Each term stays at its place in its list; only its
/// wire changes, so lists agree with a block-by-block rebuild up to order.
pub fn distribute(c: &Circuit, n: usize) -> (r: Result<Circuit, DistributeError>)
    requires
        c.wf(),
    ensures
        r is Ok <==> accepts(c.n_wires as nat, n as nat),
        r is Ok ==> is_distribution(*c, n as nat, r->Ok_0),
        r is Ok ==> r->Ok_0.wf(),
        r is Ok && c.canonical() ==> r->Ok_0.canonical(),
        r == Err::<Circuit, DistributeError>(DistributeError::NoSubprovers) <==> n == 0,
        r == Err::<Circuit, DistributeError>(DistributeError::TooManyWires) <==> n >= 1
            && effective_wires(c.n_wires as nat, n as nat) > usize::MAX,
        r == Err::<Circuit, DistributeError>(DistributeError::BlocksTooSmall) <==> n >= 1
            && effective_wires(c.n_wires as nat, n as nat) <= usize::MAX && !accepts(
            c.n_wires as nat,
            n as nat,
        ),
{
    if n == 0 {
        return Err(DistributeError::NoSubprovers);
    }
    let w = c.n_wires;
    if w - 1 > usize::MAX - n {
        proof {
            lemma_pow2_at_least(1, (w + n - 1) as nat);
        }
        return Err(DistributeError::TooManyWires);
    }
    let e = match next_pow2_checked((w - 1) + n) {
        Some(e) => e,
        None => {
            return Err(DistributeError::TooManyWires);
        },
    };
    let bs = e / n;
    if w >= 2 && (w - 2) / n + 2 > bs {
        return Err(DistributeError::BlocksTooSmall);
    }
    let ws0 = wire_weights(c, 0);
    let ws1 = wire_weights(c, 1);
    let ws2 = wire_weights(c, 2);
    proof {
        lemma_wire_uses_le(c.constraints@, 0, 0);
        lemma_wire_uses_le(c.constraints@, 1, 0);
        lemma_wire_uses_le(c.constraints@, 2, 0);
    }
    let t0 = side_terms(c, 0) - ws0[0];
    let t1 = side_terms(c, 1) - ws1[0];
    let t2 = side_terms(c, 2) - ws2[0];
    let ws = if t2 >= t0 && t2 >= t1 {
        &ws2
    } else if t1 >= t0 {
        &ws1
    } else {
        &ws0
    };
    assert(ws@ =~= weights(*c));
    let ranks = placement_ranks(ws);
    let index = wire_index(c, n, bs, &ranks);
    let chunks = vec![ws0[0] / n, ws1[0] / n, ws2[0] / n];
    let constraints = rekey_constraints(c, n, bs, &index, &chunks);
    let (witness, wire_mapping) = place_values(c, n, bs, e, &index);
    let out = Circuit { n_wires: e, constraints, witness, wire_mapping };
    assert(out.constraints@ == constraints@);
    assert(out.witness@ == witness@);
    assert(out.wire_mapping@ == wire_mapping@);
    assert(is_distribution(*c, n as nat, out));
    proof {
        crate::laws::law_split_well_formed(*c, n as nat, out);
    }
    Ok(out)
}

} // verus!
