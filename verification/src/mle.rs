//! Multilinear extensions and wiring predicates.
//!
//! `mle` is the unique multilinear polynomial agreeing with a value table on
//! the Boolean hypercube; `wiring_mle` extends the 0/1 wiring predicate of a
//! circuit layer (which gate of a kind joins an output index to its two input
//! indices) to arbitrary field points.
use vstd::prelude::*;

use crate::circuit::{Gate, GateType};
use crate::field::{Fq, fadd, fmul, fsub, fqs, fqs_wf, lemma_fadd_assoc, lemma_fmul_assoc,
    lemma_fmul_comm, lemma_fmul_dist, MODULUS};
use crate::poly::{exp2, lemma_exp2_pos, point_of};
use crate::sumcheck::lemma_point_split;

verus! {

/// The factor that one coordinate of an interpolation point supplies:
/// `x` where the bit is set, `1 - x` where it is clear.
pub open spec fn sel(b: int, x: int) -> int {
    if b == 1 {
        x
    } else {
        fsub(1, x)
    }
}

/// The Lagrange basis factor of the Boolean point with index `idx` at the
/// point `pt`; the last coordinate of `pt` matches the lowest bit of `idx`.
pub open spec fn eq_bits(idx: nat, pt: Seq<int>) -> int
    decreases pt.len(),
{
    if pt.len() == 0 {
        1int
    } else {
        fmul(eq_bits(idx / 2, pt.drop_last()), sel(idx as int % 2, pt.last()))
    }
}

/// The multilinear extension of a value table at a point, by splitting on
/// the leading coordinate.
pub open spec fn mle(vals: Seq<int>, pt: Seq<int>) -> int
    decreases pt.len(),
{
    if pt.len() == 0 {
        if vals.len() >= 1 {
            vals[0]
        } else {
            0int
        }
    } else {
        let half = vals.len() as int / 2;
        fadd(
            fmul(fsub(1, pt[0]), mle(vals.take(half), pt.drop_first())),
            fmul(pt[0], mle(vals.skip(half), pt.drop_first())),
        )
    }
}

/// The extension of the wiring predicate of one layer for one gate kind,
/// evaluated at an output point `z` and two input points `a` and `b`.
pub open spec fn wiring_mle(
    gates: Seq<Gate>,
    kind: GateType,
    z: Seq<int>,
    a: Seq<int>,
    b: Seq<int>,
) -> int
    decreases gates.len(),
{
    if gates.len() == 0 {
        0int
    } else {
        fadd(
            wiring_mle(gates.drop_last(), kind, z, a, b),
            if gates.last().kind == kind {
                fmul(
                    eq_bits((gates.len() - 1) as nat, z),
                    fmul(eq_bits(gates.last().left as nat, a), eq_bits(gates.last().right as nat, b)),
                )
            } else {
                0int
            },
        )
    }
}

/// Values of `eq_bits` are reduced residues.
pub proof fn lemma_eq_bits_range(idx: nat, pt: Seq<int>)
    ensures
        0 <= eq_bits(idx, pt) < MODULUS,
{
    if pt.len() == 0 {
    } else {
    }
}

/// Values of `mle` on reduced tables are reduced residues.
pub proof fn lemma_mle_range(vals: Seq<int>, pt: Seq<int>)
    requires
        forall|i: int| 0 <= i < vals.len() ==> 0 <= #[trigger] vals[i] < MODULUS,
    ensures
        0 <= mle(vals, pt) < MODULUS,
{
    if pt.len() == 0 {
        if vals.len() >= 1 {
        }
    } else {
    }
}

/// The extension interpolates: at the Boolean point with index `idx`, the
/// multilinear extension of a table of reduced residues reproduces the
/// table entry itself.
pub proof fn lemma_mle_on_cube(vals: Seq<int>, idx: nat, m: nat)
    requires
        vals.len() == exp2(m),
        idx < exp2(m),
        forall|i: int| 0 <= i < vals.len() ==> 0 <= #[trigger] vals[i] < MODULUS,
    ensures
        mle(vals, point_of(idx, m)) == vals[idx as int],
    decreases m,
{
    if m == 0 {
        assert(point_of(idx, 0) =~= Seq::<int>::empty());
    } else {
        let half = exp2((m - 1) as nat);
        lemma_exp2_pos((m - 1) as nat);
        assert(exp2(m) == 2 * half);
        let b = idx / half;
        let idx2 = idx % half;
        vstd::arithmetic::div_mod::lemma_fundamental_div_mod(idx as int, half as int);
        assert(b <= 1) by (nonlinear_arith)
            requires
                idx < 2 * half,
                half >= 1,
                b == idx / half,
        ;
        vstd::arithmetic::div_mod::lemma_mod_bound(idx as int, half as int);
        assert(idx2 < half);
        assert(idx == b * half + idx2) by (nonlinear_arith)
            requires
                idx as int == half as int * (idx as int / half as int) + idx as int % half as int,
                b == idx / half,
                idx2 == idx % half,
        ;
        lemma_point_split(b as int, idx2, (m - 1) as nat);
        let pt = point_of(idx, m);
        let rest = point_of(idx2, (m - 1) as nat);
        assert((b * exp2((m - 1) as nat) + idx2) as nat == idx);
        assert(pt =~= seq![b as int] + rest);
        assert(pt[0] == b as int);
        assert(pt.drop_first() =~= rest);
        let lo = vals.take(half as int);
        let hi = vals.skip(half as int);
        assert(vals.len() as int / 2 == half);
        if b == 0 {
            assert(forall|i: int| 0 <= i < lo.len() ==> 0 <= #[trigger] lo[i] < MODULUS);
            lemma_mle_on_cube(lo, idx2, (m - 1) as nat);
            lemma_mle_range(lo, rest);
            assert(fsub(1, 0) == 1);
            assert(fmul(1, mle(lo, rest)) == mle(lo, rest));
            assert(fmul(0, mle(hi, rest)) == 0);
            assert(mle(vals, pt) == fadd(mle(lo, rest), 0));
            assert(idx == idx2) by (nonlinear_arith)
                requires
                    idx == b * half + idx2,
                    b == 0,
            ;
            assert(lo[idx2 as int] == vals[idx as int]);
        } else {
            assert(forall|i: int| 0 <= i < hi.len() ==> 0 <= #[trigger] hi[i] < MODULUS);
            lemma_mle_on_cube(hi, idx2, (m - 1) as nat);
            lemma_mle_range(hi, rest);
            assert(fsub(1, 1) == 0);
            assert(fmul(0, mle(lo, rest)) == 0);
            assert(fmul(1, mle(hi, rest)) == mle(hi, rest));
            assert(mle(vals, pt) == fadd(0, mle(hi, rest)));
            assert(idx == half + idx2) by (nonlinear_arith)
                requires
                    idx == b * half + idx2,
                    b == 1,
            ;
            assert(hi[idx2 as int] == vals[idx as int]);
        }
    }
}

/// Evaluates the Lagrange basis factor of one Boolean index.
pub fn eq_eval(idx: u64, pt: &Vec<Fq>) -> (r: Fq)
    requires
        fqs_wf(pt@),
    ensures
        r.wf(),
        r@ == eq_bits(idx as nat, fqs(pt@)),
{
    let k = pt.len();
    let one = Fq::one();
    let mut acc = one;
    let mut cur = idx;
    let mut s: usize = 0;
    proof {
        assert(fqs(pt@).take(k as int) =~= fqs(pt@));
        lemma_eq_bits_range(idx as nat, fqs(pt@));
    }
    while s < k
        invariant
            fqs_wf(pt@),
            k == pt@.len(),
            s <= k,
            acc.wf(),
            eq_bits(idx as nat, fqs(pt@)) == fmul(
                eq_bits(cur as nat, fqs(pt@).take((k - s) as int)),
                acc@,
            ),
        decreases k - s,
    {
        let j = k - 1 - s;
        let x = pt[j];
        let bit = cur % 2;
        let f = if bit == 1 {
            x
        } else {
            let o = Fq::one();
            o.sub(x)
        };
        proof {
            let pts = fqs(pt@);
            assert(pts.take((k - s) as int).drop_last() =~= pts.take((k - s - 1) as int));
            assert(pts.take((k - s) as int).last() == pts[j as int]);
            assert(eq_bits(cur as nat, pts.take((k - s) as int)) == fmul(
                eq_bits((cur / 2) as nat, pts.take((k - s - 1) as int)),
                sel(cur as int % 2, pts[j as int]),
            ));
            assert(f@ == sel(cur as int % 2, pts[j as int]));
            lemma_fmul_assoc(
                eq_bits((cur / 2) as nat, pts.take((k - s - 1) as int)),
                sel(cur as int % 2, pts[j as int]),
                acc@,
            );
        }
        acc = f.mul(acc);
        cur = cur / 2;
        s = s + 1;
    }
    proof {
        let pts = fqs(pt@);
        assert(pts.take(0) =~= Seq::<int>::empty());
        assert(eq_bits(cur as nat, pts.take(0)) == 1);
        assert(fmul(1, acc@) == acc@);
    }
    acc
}

/// Pointwise linear combinations pass through the multilinear extension.
proof fn lemma_mle_linear(u: Seq<int>, w: Seq<int>, c0: int, c1: int, pt: Seq<int>)
    requires
        u.len() == w.len(),
    ensures
        mle(Seq::new(u.len(), |j: int| fadd(fmul(c0, u[j]), fmul(c1, w[j]))), pt) == fadd(
            fmul(c0, mle(u, pt)),
            fmul(c1, mle(w, pt)),
        ),
    decreases pt.len(),
{
    let comb = Seq::new(u.len(), |j: int| fadd(fmul(c0, u[j]), fmul(c1, w[j])));
    if pt.len() == 0 {
        if u.len() == 0 {
            assert(fmul(c0, 0) == 0);
            assert(fmul(c1, 0) == 0);
        }
    } else {
        let half = u.len() as int / 2;
        let rest = pt.drop_first();
        let x = pt[0];
        assert(comb.take(half) =~= Seq::new(u.take(half).len(), |j: int| fadd(
            fmul(c0, u.take(half)[j]),
            fmul(c1, w.take(half)[j]),
        )));
        assert(comb.skip(half) =~= Seq::new(u.skip(half).len(), |j: int| fadd(
            fmul(c0, u.skip(half)[j]),
            fmul(c1, w.skip(half)[j]),
        )));
        lemma_mle_linear(u.take(half), w.take(half), c0, c1, rest);
        lemma_mle_linear(u.skip(half), w.skip(half), c0, c1, rest);
        let u0 = mle(u.take(half), rest);
        let u1 = mle(u.skip(half), rest);
        let w0 = mle(w.take(half), rest);
        let w1 = mle(w.skip(half), rest);
        // distribute the two coordinate factors over the combinations
        lemma_fmul_dist(fsub(1, x), fmul(c0, u0), fmul(c1, w0));
        lemma_fmul_dist(x, fmul(c0, u1), fmul(c1, w1));
        lemma_fmul_swap(fsub(1, x), c0, u0);
        lemma_fmul_swap(fsub(1, x), c1, w0);
        lemma_fmul_swap(x, c0, u1);
        lemma_fmul_swap(x, c1, w1);
        lemma_fadd_rearrange(
            fmul(c0, fmul(fsub(1, x), u0)),
            fmul(c1, fmul(fsub(1, x), w0)),
            fmul(c0, fmul(x, u1)),
            fmul(c1, fmul(x, w1)),
        );
        lemma_fmul_dist(c0, fmul(fsub(1, x), u0), fmul(x, u1));
        lemma_fmul_dist(c1, fmul(fsub(1, x), w0), fmul(x, w1));
    }
}

/// Products commute past their first factor: `a(bc) == b(ac)`.
proof fn lemma_fmul_swap(a: int, b: int, c: int)
    ensures
        fmul(a, fmul(b, c)) == fmul(b, fmul(a, c)),
{
    lemma_fmul_assoc(a, b, c);
    lemma_fmul_comm(a, b);
    lemma_fmul_assoc(b, a, c);
}

/// Sums of four residues can be regrouped pairwise.
proof fn lemma_fadd_rearrange(a: int, b: int, c: int, d: int)
    ensures
        fadd(fadd(a, b), fadd(c, d)) == fadd(fadd(a, c), fadd(b, d)),
{
    let m = MODULUS as int;
    lemma_fadd_assoc(fadd(a, b), c, d);
    lemma_fadd_assoc(a, b, c);
    assert(fadd(b, c) == fadd(c, b));
    lemma_fadd_assoc(a, c, b);
    lemma_fadd_assoc(fadd(a, c), b, d);
}

/// Evaluates the multilinear extension of a value table at a point, by
/// folding one coordinate of the table at a time.
pub fn mle_eval(vals: &Vec<Fq>, pt: &Vec<Fq>) -> (r: Fq)
    requires
        fqs_wf(vals@),
        fqs_wf(pt@),
        pt@.len() < 63,
        vals@.len() == exp2(pt@.len()),
    ensures
        r.wf(),
        r@ == mle(fqs(vals@), fqs(pt@)),
{
    let k = pt.len();
    let mut buf: Vec<Fq> = Vec::new();
    let mut bi: usize = 0;
    while bi < vals.len()
        invariant
            bi <= vals@.len(),
            buf@ == vals@.take(bi as int),
        decreases vals@.len() - bi,
    {
        buf.push(vals[bi]);
        proof {
            assert(vals@.take(bi as int + 1) =~= vals@.take(bi as int).push(vals@[bi as int]));
        }
        bi = bi + 1;
    }
    proof {
        assert(vals@.take(vals@.len() as int) =~= vals@);
    }
    let mut c: usize = 0;
    proof {
        assert(fqs(pt@).skip(0) =~= fqs(pt@));
        assert(buf@ == vals@);
    }
    while c < k
        invariant
            fqs_wf(vals@),
            fqs_wf(pt@),
            k == pt@.len(),
            k < 63,
            vals@.len() == exp2(k as nat),
            c <= k,
            fqs_wf(buf@),
            buf@.len() == exp2((k - c) as nat),
            mle(fqs(buf@), fqs(pt@).skip(c as int)) == mle(fqs(vals@), fqs(pt@)),
        decreases k - c,
    {
        let blen = buf.len();
        let half = blen / 2;
        proof {
            lemma_exp2_pos((k - c - 1) as nat);
            assert(exp2((k - c) as nat) == 2 * exp2((k - c - 1) as nat));
        }
        let x = pt[c];
        let one = Fq::one();
        let omx = one.sub(x);
        let mut nb: Vec<Fq> = Vec::new();
        let mut j: usize = 0;
        while j < half
            invariant
                fqs_wf(buf@),
                fqs_wf(pt@),
                c < k == pt@.len(),
                x == pt@[c as int],
                omx.wf(),
                omx@ == fsub(1, x@),
                half == buf@.len() / 2,
                buf@.len() == blen,
                buf@.len() == 2 * half,
                j <= half,
                nb@.len() == j,
                fqs_wf(nb@),
                forall|i: int| 0 <= i < j ==> (#[trigger] nb@[i])@ == fadd(
                    fmul(fsub(1, x@), fqs(buf@)[i]),
                    fmul(x@, fqs(buf@)[half + i]),
                ),
            decreases half - j,
        {
            let lo = buf[j];
            let hi = buf[half + j];
            let v = omx.mul(lo).add(x.mul(hi));
            let ghost prev = nb@;
            nb.push(v);
            proof {
                assert(forall|i: int| 0 <= i < j ==> nb@[i] == prev[i]);
            }
            j = j + 1;
        }
        proof {
            let bv = fqs(buf@);
            let hi2 = half as int;
            assert(fqs(nb@) =~= Seq::new(bv.take(hi2).len(), |i: int| fadd(
                fmul(fsub(1, x@), bv.take(hi2)[i]),
                fmul(x@, bv.skip(hi2)[i]),
            )));
            lemma_mle_linear(bv.take(hi2), bv.skip(hi2), fsub(1, x@), x@, fqs(pt@).skip(
                c as int + 1,
            ));
            assert(fqs(pt@).skip(c as int).drop_first() =~= fqs(pt@).skip(c as int + 1));
            assert(fqs(pt@).skip(c as int)[0] == x@);
            assert(mle(bv, fqs(pt@).skip(c as int)) == fadd(
                fmul(fsub(1, x@), mle(bv.take(hi2), fqs(pt@).skip(c as int + 1))),
                fmul(x@, mle(bv.skip(hi2), fqs(pt@).skip(c as int + 1))),
            ));
        }
        buf = nb;
        c = c + 1;
    }
    proof {
        assert(fqs(pt@).skip(k as int) =~= Seq::<int>::empty());
        assert(buf@.len() == 1);
    }
    buf[0]
}

/// Evaluates the wiring extension of one layer for one gate kind.
pub fn wiring_eval(gates: &Vec<Gate>, kind: GateType, z: &Vec<Fq>, a: &Vec<Fq>, b: &Vec<Fq>) -> (r:
    Fq)
    requires
        fqs_wf(z@),
        fqs_wf(a@),
        fqs_wf(b@),
    ensures
        r.wf(),
        r@ == wiring_mle(gates@, kind, fqs(z@), fqs(a@), fqs(b@)),
{
    let mut acc = Fq::zero();
    let mut j: usize = 0;
    while j < gates.len()
        invariant
            fqs_wf(z@),
            fqs_wf(a@),
            fqs_wf(b@),
            j <= gates@.len(),
            acc.wf(),
            acc@ == wiring_mle(gates@.take(j as int), kind, fqs(z@), fqs(a@), fqs(b@)),
        decreases gates@.len() - j,
    {
        let g = gates[j];
        proof {
            assert(gates@.take(j as int + 1).drop_last() =~= gates@.take(j as int));
            assert(gates@.take(j as int + 1).last() == gates@[j as int]);
        }
        if g.kind == kind {
            let ez = eq_eval(j as u64, z);
            let ea = eq_eval(g.left as u64, a);
            let eb = eq_eval(g.right as u64, b);
            let gate_term = ez.mul(ea.mul(eb));
            acc = acc.add(gate_term);
        }
        j = j + 1;
    }
    proof {
        assert(gates@.take(gates@.len() as int) =~= gates@);
    }
    acc
}

} // verus!
