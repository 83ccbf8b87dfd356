//! Sparse multivariate polynomials over the field.
//!
//! A polynomial is a list of monomials, each a coefficient together with a
//! list of variable powers.  `poly_eval` is the mathematical meaning of such a
//! list at a point, and every executable operation is specified against it.
use vstd::prelude::*;

use crate::field::{Fq, fadd, fmul, fpow, fqs, fqs_wf, lemma_fadd_assoc, lemma_fmul_assoc,
    lemma_fmul_comm, MODULUS};

verus! {

/// One variable raised to a power inside a monomial.
#[derive(Clone, Copy, PartialEq, Eq, Structural, Debug)]
pub struct VarPow {
    pub var: usize,
    pub pow: u64,
}

/// A monomial: a coefficient times a product of variable powers.
#[derive(Clone, Debug)]
pub struct Mono {
    pub coeff: Fq,
    pub vars: Vec<VarPow>,
}

/// A sparse multivariate polynomial over a declared number of variables.
#[derive(Clone, Debug)]
pub struct SparsePoly {
    pub num_vars: usize,
    pub terms: Vec<Mono>,
}

/// The value of a product of variable powers at a point.
pub open spec fn mono_eval(vars: Seq<VarPow>, xs: Seq<int>) -> int
    decreases vars.len(),
{
    if vars.len() == 0 {
        1int
    } else {
        fmul(mono_eval(vars.drop_last(), xs), fpow(xs[vars.last().var as int], vars.last().pow as nat))
    }
}

/// The value of one monomial at a point.
pub open spec fn term_val(m: Mono, xs: Seq<int>) -> int {
    fmul(m.coeff@, mono_eval(m.vars@, xs))
}

/// The value of a polynomial, given as its monomial list, at a point.
pub open spec fn poly_eval(terms: Seq<Mono>, xs: Seq<int>) -> int
    decreases terms.len(),
{
    if terms.len() == 0 {
        0int
    } else {
        fadd(poly_eval(terms.drop_last(), xs), term_val(terms.last(), xs))
    }
}

/// The value of a univariate polynomial at a scalar.
pub open spec fn uni_eval(terms: Seq<Mono>, t: int) -> int {
    poly_eval(terms, seq![t])
}

/// Sum of the powers in a monomial, used to bound executable accumulation.
pub open spec fn sum_pows(vars: Seq<VarPow>) -> int
    decreases vars.len(),
{
    if vars.len() == 0 {
        0int
    } else {
        sum_pows(vars.drop_last()) + vars.last().pow
    }
}

/// A monomial is well formed for `nv` variables.
pub open spec fn mono_wf(m: Mono, nv: nat) -> bool {
    &&& m.coeff.wf()
    &&& forall|i: int| 0 <= i < m.vars@.len() ==> (#[trigger] m.vars@[i]).var < nv
    &&& sum_pows(m.vars@) <= u64::MAX
}

impl SparsePoly {
    /// Every monomial respects the declared variable count.
    pub open spec fn wf(self) -> bool {
        forall|i: int| 0 <= i < self.terms@.len() ==> mono_wf(#[trigger] self.terms@[i], self.num_vars as nat)
    }

    /// Builds a polynomial from a monomial list; the mirror of its fields.
    pub fn from_terms(num_vars: usize, terms: Vec<Mono>) -> (r: SparsePoly)
        ensures
            r.num_vars == num_vars,
            r.terms@ == terms@,
    {
        SparsePoly { num_vars, terms }
    }

    /// Evaluates the polynomial at the given point.
    pub fn evaluate(&self, xs: &Vec<Fq>) -> (r: Fq)
        requires
            self.wf(),
            xs@.len() == self.num_vars,
            fqs_wf(xs@),
        ensures
            r.wf(),
            r@ == poly_eval(self.terms@, fqs(xs@)),
    {
        let ghost vals = fqs(xs@);
        let mut acc = Fq::zero();
        let mut ti: usize = 0;
        while ti < self.terms.len()
            invariant
                self.wf(),
                xs@.len() == self.num_vars,
                fqs_wf(xs@),
                vals == fqs(xs@),
                ti <= self.terms@.len(),
                acc.wf(),
                acc@ == poly_eval(self.terms@.take(ti as int), vals),
            decreases self.terms@.len() - ti,
        {
            let m = &self.terms[ti];
            let mut mv = Fq::one();
            let mut vi: usize = 0;
            while vi < m.vars.len()
                invariant
                    self.wf(),
                    xs@.len() == self.num_vars,
                    fqs_wf(xs@),
                    vals == fqs(xs@),
                    ti < self.terms@.len(),
                    m == self.terms@[ti as int],
                    vi <= m.vars@.len(),
                    mv.wf(),
                    mv@ == mono_eval(m.vars@.take(vi as int), vals),
                decreases m.vars@.len() - vi,
            {
                let vp = m.vars[vi];
                assert(vp.var < self.num_vars);
                let xv = xs[vp.var];
                let f = xv.pow(vp.pow);
                proof {
                    assert(m.vars@.take(vi as int + 1).drop_last() =~= m.vars@.take(vi as int));
                    assert(m.vars@.take(vi as int + 1).last() == m.vars@[vi as int]);
                }
                mv = mv.mul(f);
                vi = vi + 1;
            }
            proof {
                assert(m.vars@.take(m.vars@.len() as int) =~= m.vars@);
                assert(self.terms@.take(ti as int + 1).drop_last() =~= self.terms@.take(ti as int));
                assert(self.terms@.take(ti as int + 1).last() == self.terms@[ti as int]);
            }
            let tv = m.coeff.mul(mv);
            acc = acc.add(tv);
            ti = ti + 1;
        }
        proof {
            assert(self.terms@.take(self.terms@.len() as int) =~= self.terms@);
        }
        acc
    }
}

/// Every field-operation result is a reduced residue.
pub proof fn lemma_fpow_range(x: int, e: nat)
    ensures
        0 <= fpow(x, e) < MODULUS,
{
    if e == 0 {
    } else {
    }
}

/// The value of a polynomial is a reduced residue.
pub proof fn lemma_poly_eval_range(terms: Seq<Mono>, xs: Seq<int>)
    ensures
        0 <= poly_eval(terms, xs) < MODULUS,
{
    if terms.len() == 0 {
    } else {
    }
}

/// Exponent laws: `fpow` turns sums of exponents into products.
pub proof fn lemma_fpow_add(x: int, a: nat, b: nat)
    ensures
        fpow(x, a + b) == fmul(fpow(x, a), fpow(x, b)),
    decreases a,
{
    if a == 0 {
        lemma_fpow_range(x, b);
        assert(fpow(x, 0) == 1);
        assert(fmul(1, fpow(x, b)) == fpow(x, b));
    } else {
        lemma_fpow_add(x, (a - 1) as nat, b);
        assert((a - 1) + b == (a + b) - 1);
        lemma_fmul_assoc(x, fpow(x, (a - 1) as nat), fpow(x, b));
    }
}

/// The product of the factors of a monomial that do not mention variable `x`.
pub open spec fn mono_except(vars: Seq<VarPow>, xs: Seq<int>, x: int) -> int
    decreases vars.len(),
{
    if vars.len() == 0 {
        1int
    } else {
        let r = mono_except(vars.drop_last(), xs, x);
        if vars.last().var == x {
            r
        } else {
            fmul(r, fpow(xs[vars.last().var as int], vars.last().pow as nat))
        }
    }
}

/// The total power with which variable `x` occurs in a monomial.
pub open spec fn xpow_in(vars: Seq<VarPow>, x: int) -> int
    decreases vars.len(),
{
    if vars.len() == 0 {
        0int
    } else {
        xpow_in(vars.drop_last(), x) + if vars.last().var == x {
            vars.last().pow as int
        } else {
            0int
        }
    }
}

/// The occurrence count of one variable is bounded by the total power sum.
pub proof fn lemma_xpow_in_bounds(vars: Seq<VarPow>, x: int)
    ensures
        0 <= xpow_in(vars, x) <= sum_pows(vars),
        sum_pows(vars) >= 0,
    decreases vars.len(),
{
    if vars.len() > 0 {
        lemma_xpow_in_bounds(vars.drop_last(), x);
    }
}

/// The largest power with which variable `x` occurs in any monomial.
pub open spec fn max_xpow(terms: Seq<Mono>, x: int) -> int
    decreases terms.len(),
{
    if terms.len() == 0 {
        0int
    } else {
        let r = max_xpow(terms.drop_last(), x);
        let l = xpow_in(terms.last().vars@, x);
        if l > r {
            l
        } else {
            r
        }
    }
}

/// Every term's power of `x` is bounded by the maximum, which is never
/// negative.
pub proof fn lemma_xpow_le_max(terms: Seq<Mono>, x: int, k: int)
    requires
        0 <= k < terms.len(),
    ensures
        xpow_in(terms[k].vars@, x) <= max_xpow(terms, x),
        max_xpow(terms, x) >= 0,
    decreases terms.len(),
{
    lemma_xpow_in_bounds(terms.last().vars@, x);
    if k < terms.len() - 1 {
        lemma_xpow_le_max(terms.drop_last(), x, k);
        assert(terms.drop_last()[k] == terms[k]);
    }
}

/// The total power of one variable in a monomial, executable.
pub fn term_xpow(m: &Mono, x: usize) -> (e: u64)
    requires
        sum_pows(m.vars@) <= u64::MAX,
    ensures
        e == xpow_in(m.vars@, x as int),
{
    let mut e: u64 = 0;
    let mut vi: usize = 0;
    while vi < m.vars.len()
        invariant
            sum_pows(m.vars@) <= u64::MAX,
            vi <= m.vars@.len(),
            e == xpow_in(m.vars@.take(vi as int), x as int),
        decreases m.vars@.len() - vi,
    {
        let vp = m.vars[vi];
        proof {
            assert(m.vars@.take(vi as int + 1).drop_last() =~= m.vars@.take(vi as int));
            assert(m.vars@.take(vi as int + 1).last() == m.vars@[vi as int]);
            lemma_xpow_in_bounds(m.vars@.take(vi as int + 1), x as int);
            lemma_sum_pows_take_le(m.vars@, vi as int + 1);
        }
        if vp.var == x {
            e = e + vp.pow;
        }
        vi = vi + 1;
    }
    proof {
        assert(m.vars@.take(m.vars@.len() as int) =~= m.vars@);
    }
    e
}

/// The per-variable degree of the polynomial in variable `x`.
pub fn poly_max_pow(p: &SparsePoly, x: usize) -> (d: u64)
    requires
        p.wf(),
    ensures
        d == max_xpow(p.terms@, x as int),
{
    let mut d: u64 = 0;
    let mut ti: usize = 0;
    while ti < p.terms.len()
        invariant
            p.wf(),
            ti <= p.terms@.len(),
            d == max_xpow(p.terms@.take(ti as int), x as int),
        decreases p.terms@.len() - ti,
    {
        proof {
            assert(mono_wf(p.terms@[ti as int], p.num_vars as nat));
        }
        let e = term_xpow(&p.terms[ti], x);
        proof {
            assert(p.terms@.take(ti as int + 1).drop_last() =~= p.terms@.take(ti as int));
            assert(p.terms@.take(ti as int + 1).last() == p.terms@[ti as int]);
        }
        if e > d {
            d = e;
        }
        ti = ti + 1;
    }
    proof {
        assert(p.terms@.take(p.terms@.len() as int) =~= p.terms@);
    }
    d
}

/// A monomial's value factors into the part without `x` and the power of `x`.
pub proof fn lemma_mono_split(vars: Seq<VarPow>, xs: Seq<int>, x: int)
    ensures
        mono_eval(vars, xs) == fmul(
            mono_except(vars, xs, x),
            fpow(xs[x], xpow_in(vars, x) as nat),
        ),
    decreases vars.len(),
{
    lemma_xpow_in_bounds(vars, x);
    if vars.len() == 0 {
        lemma_fpow_range(xs[x], 0);
        assert(fmul(1, 1) == 1int);
    } else {
        let dl = vars.drop_last();
        let vp = vars.last();
        lemma_mono_split(dl, xs, x);
        lemma_xpow_in_bounds(dl, x);
        let exc = mono_except(dl, xs, x);
        let e1 = xpow_in(dl, x) as nat;
        if vp.var == x {
            lemma_fpow_add(xs[x], e1, vp.pow as nat);
            lemma_fmul_assoc(exc, fpow(xs[x], e1), fpow(xs[x], vp.pow as nat));
        } else {
            let f = fpow(xs[vp.var as int], vp.pow as nat);
            lemma_fmul_assoc(exc, fpow(xs[x], e1), f);
            lemma_fmul_comm(fpow(xs[x], e1), f);
            lemma_fmul_assoc(exc, f, fpow(xs[x], e1));
        }
    }
}

/// Factors that do not mention `x` ignore a change of coordinate `x`.
pub proof fn lemma_mono_except_update(vars: Seq<VarPow>, xs: Seq<int>, x: int, t: int)
    requires
        0 <= x < xs.len(),
        forall|i: int| 0 <= i < vars.len() ==> (#[trigger] vars[i]).var < xs.len(),
    ensures
        mono_except(vars, xs.update(x, t), x) == mono_except(vars, xs, x),
    decreases vars.len(),
{
    if vars.len() > 0 {
        lemma_mono_except_update(vars.drop_last(), xs, x, t);
    }
}

/// Updating one coordinate turns a monomial into the fixed part times a
/// power of the new value.
pub proof fn lemma_mono_update(vars: Seq<VarPow>, xs: Seq<int>, x: int, t: int)
    requires
        0 <= x < xs.len(),
        forall|i: int| 0 <= i < vars.len() ==> (#[trigger] vars[i]).var < xs.len(),
    ensures
        mono_eval(vars, xs.update(x, t)) == fmul(
            mono_except(vars, xs, x),
            fpow(t, xpow_in(vars, x) as nat),
        ),
{
    lemma_mono_split(vars, xs.update(x, t), x);
    lemma_mono_except_update(vars, xs, x, t);
    assert(xs.update(x, t)[x] == t);
}

/// Substitutes the given values for every variable except `x`, producing a
/// univariate polynomial in that variable.
pub fn set_values(p: &SparsePoly, x: usize, values: &Vec<Fq>) -> (r: SparsePoly)
    requires
        p.wf(),
        x < p.num_vars,
        values@.len() == p.num_vars,
        fqs_wf(values@),
    ensures
        r.wf(),
        r.num_vars == 1,
        r.terms@.len() == p.terms@.len(),
        forall|t: int| #[trigger] uni_eval(r.terms@, t) == poly_eval(
            p.terms@,
            fqs(values@).update(x as int, t),
        ),
        forall|k: int|
            0 <= k < r.terms@.len() ==> (#[trigger] r.terms@[k]).vars@ == seq![
                VarPow { var: 0, pow: xpow_in(p.terms@[k].vars@, x as int) as u64 },
            ],
{
    let ghost vals = fqs(values@);
    let mut rts: Vec<Mono> = Vec::new();
    let mut ti: usize = 0;
    while ti < p.terms.len()
        invariant
            p.wf(),
            x < p.num_vars,
            values@.len() == p.num_vars,
            fqs_wf(values@),
            vals == fqs(values@),
            ti <= p.terms@.len(),
            rts@.len() == ti,
            forall|i: int| 0 <= i < ti ==> mono_wf(#[trigger] rts@[i], 1),
            forall|k: int|
                0 <= k < ti ==> (#[trigger] rts@[k]).vars@ == seq![
                    VarPow { var: 0, pow: xpow_in(p.terms@[k].vars@, x as int) as u64 },
                ],
            forall|t: int| #[trigger] poly_eval(rts@, seq![t]) == poly_eval(
                p.terms@.take(ti as int),
                vals.update(x as int, t),
            ),
        decreases p.terms@.len() - ti,
    {
        let m = &p.terms[ti];
        let mut c = m.coeff;
        let mut e: u64 = 0;
        let mut vi: usize = 0;
        proof {
            assert(mono_except(m.vars@.take(0), vals, x as int) == 1int);
        }
        while vi < m.vars.len()
            invariant
                p.wf(),
                x < p.num_vars,
                values@.len() == p.num_vars,
                fqs_wf(values@),
                vals == fqs(values@),
                ti < p.terms@.len(),
                m == p.terms@[ti as int],
                vi <= m.vars@.len(),
                c.wf(),
                c@ == fmul(m.coeff@, mono_except(m.vars@.take(vi as int), vals, x as int)),
                e == xpow_in(m.vars@.take(vi as int), x as int),
            decreases m.vars@.len() - vi,
        {
            let vp = m.vars[vi];
            proof {
                assert(m.vars@.take(vi as int + 1).drop_last() =~= m.vars@.take(vi as int));
                assert(m.vars@.take(vi as int + 1).last() == m.vars@[vi as int]);
            }
            if vp.var == x {
                proof {
                    lemma_xpow_in_bounds(m.vars@.take(vi as int + 1), x as int);
                    lemma_sum_pows_take_le(m.vars@, vi as int + 1);
                }
                e = e + vp.pow;
            } else {
                let f = values[vp.var].pow(vp.pow);
                proof {
                    lemma_fmul_assoc(
                        m.coeff@,
                        mono_except(m.vars@.take(vi as int), vals, x as int),
                        fpow(vals[vp.var as int], vp.pow as nat),
                    );
                }
                c = c.mul(f);
            }
            vi = vi + 1;
        }
        proof {
            assert(m.vars@.take(m.vars@.len() as int) =~= m.vars@);
        }
        let mut nvars: Vec<VarPow> = Vec::new();
        nvars.push(VarPow { var: 0, pow: e });
        proof {
            assert(nvars@ =~= seq![VarPow { var: 0, pow: e }]);
        }
        let nt = Mono { coeff: c, vars: nvars };
        let ghost prev = rts@;
        rts.push(nt);
        proof {
            lemma_xpow_in_bounds(m.vars@, x as int);
            assert(mono_wf(nt, 1)) by {
                assert(nt.vars@.len() == 1);
                assert(nt.vars@[0].var == 0);
                assert(sum_pows(nt.vars@.drop_last()) == 0);
                assert(sum_pows(nt.vars@) == e);
            }
            assert forall|t: int| #[trigger] poly_eval(rts@, seq![t]) == poly_eval(
                p.terms@.take(ti as int + 1),
                vals.update(x as int, t),
            ) by {
                let xs2 = vals.update(x as int, t);
                assert(rts@.drop_last() =~= prev);
                assert(rts@.last() == nt);
                assert(p.terms@.take(ti as int + 1).drop_last() =~= p.terms@.take(ti as int));
                assert(p.terms@.take(ti as int + 1).last() == p.terms@[ti as int]);
                // the new term evaluates, at `t`, to the old term at the updated point
                assert(nt.vars@.drop_last() =~= Seq::<VarPow>::empty());
                assert(nt.vars@.len() == 1);
                assert(nt.vars@.last() == VarPow { var: 0, pow: e });
                assert(mono_eval(Seq::<VarPow>::empty(), seq![t]) == 1int);
                assert(seq![t][0int] == t);
                assert(mono_eval(nt.vars@, seq![t]) == fmul(
                    mono_eval(nt.vars@.drop_last(), seq![t]),
                    fpow(seq![t][nt.vars@.last().var as int], nt.vars@.last().pow as nat),
                ));
                assert(mono_eval(nt.vars@, seq![t]) == fmul(1, fpow(t, e as nat)));
                lemma_fpow_range(t, e as nat);
                assert(fmul(1, fpow(t, e as nat)) == fpow(t, e as nat));
                lemma_mono_update(m.vars@, vals, x as int, t);
                lemma_fmul_assoc(
                    m.coeff@,
                    mono_except(m.vars@, vals, x as int),
                    fpow(t, e as nat),
                );
                assert(term_val(nt, seq![t]) == term_val(p.terms@[ti as int], xs2));
                assert(poly_eval(prev, seq![t]) == poly_eval(p.terms@.take(ti as int), xs2));
                assert(poly_eval(rts@, seq![t]) == fadd(
                    poly_eval(prev, seq![t]),
                    term_val(nt, seq![t]),
                ));
                assert(poly_eval(p.terms@.take(ti as int + 1), xs2) == fadd(
                    poly_eval(p.terms@.take(ti as int), xs2),
                    term_val(p.terms@[ti as int], xs2),
                ));
            }
        }
        ti = ti + 1;
    }
    proof {
        assert(p.terms@.take(p.terms@.len() as int) =~= p.terms@);
    }
    SparsePoly { num_vars: 1, terms: rts }
}

/// The product of the factors of a monomial whose variable is fixed by the
/// prefix.
pub open spec fn mono_prefix_val(vars: Seq<VarPow>, pre: Seq<int>) -> int
    decreases vars.len(),
{
    if vars.len() == 0 {
        1int
    } else {
        let r = mono_prefix_val(vars.drop_last(), pre);
        if (vars.last().var as int) < pre.len() {
            fmul(r, fpow(pre[vars.last().var as int], vars.last().pow as nat))
        } else {
            r
        }
    }
}

/// The factors of a monomial that survive fixing a prefix of `j` variables,
/// with the surviving variables renumbered.
pub open spec fn mono_shift(vars: Seq<VarPow>, j: nat) -> Seq<VarPow>
    decreases vars.len(),
{
    if vars.len() == 0 {
        Seq::<VarPow>::empty()
    } else {
        let r = mono_shift(vars.drop_last(), j);
        if vars.last().var >= j {
            r.push(VarPow { var: (vars.last().var - j) as usize, pow: vars.last().pow })
        } else {
            r
        }
    }
}

/// Shifting never increases the power sum.
pub proof fn lemma_mono_shift_sum(vars: Seq<VarPow>, j: nat)
    ensures
        0 <= sum_pows(mono_shift(vars, j)) <= sum_pows(vars),
    decreases vars.len(),
{
    if vars.len() == 0 {
    } else {
        lemma_mono_shift_sum(vars.drop_last(), j);
        if vars.last().var >= j {
            let r = mono_shift(vars.drop_last(), j);
            let vp = VarPow { var: (vars.last().var - j) as usize, pow: vars.last().pow };
            assert(r.push(vp).drop_last() =~= r);
            assert(r.push(vp).last() == vp);
        }
    }
}

/// Shifted variables stay in range.
pub proof fn lemma_mono_shift_vars(vars: Seq<VarPow>, j: nat, nv: nat)
    requires
        j <= nv,
        forall|i: int| 0 <= i < vars.len() ==> (#[trigger] vars[i]).var < nv,
    ensures
        forall|i: int|
            0 <= i < mono_shift(vars, j).len() ==> (#[trigger] mono_shift(vars, j)[i]).var < nv
                - j,
    decreases vars.len(),
{
    if vars.len() > 0 {
        assert(forall|i: int|
            0 <= i < vars.drop_last().len() ==> (#[trigger] vars.drop_last()[i]).var < nv);
        lemma_mono_shift_vars(vars.drop_last(), j, nv);
        let r = mono_shift(vars.drop_last(), j);
        if vars.last().var >= j {
            let vp = VarPow { var: (vars.last().var - j) as usize, pow: vars.last().pow };
            assert(mono_shift(vars, j) == r.push(vp));
            assert(vars.last().var < nv);
            assert forall|i: int| 0 <= i < r.push(vp).len() implies (#[trigger] r.push(vp)[i]).var
                < nv - j by {
                if i < r.len() {
                    assert(r.push(vp)[i] == r[i]);
                    assert(mono_shift(vars.drop_last(), j)[i].var < nv - j);
                } else {
                    assert(r.push(vp)[i] == vp);
                }
            }
        } else {
            assert(mono_shift(vars, j) == r);
        }
    }
}

/// A monomial at a split point factors into the fixed-prefix part and the
/// shifted remainder evaluated at the suffix.
pub proof fn lemma_mono_prefix_split(vars: Seq<VarPow>, pre: Seq<int>, ys: Seq<int>)
    requires
        forall|i: int| 0 <= i < vars.len() ==> (#[trigger] vars[i]).var < pre.len() + ys.len(),
    ensures
        mono_eval(vars, pre + ys) == fmul(
            mono_prefix_val(vars, pre),
            mono_eval(mono_shift(vars, pre.len()), ys),
        ),
    decreases vars.len(),
{
    let j = pre.len();
    if vars.len() == 0 {
        assert(fmul(1, 1) == 1int);
    } else {
        let dl = vars.drop_last();
        let vp = vars.last();
        assert(forall|i: int| 0 <= i < dl.len() ==> (#[trigger] dl[i]).var < pre.len() + ys.len());
        lemma_mono_prefix_split(dl, pre, ys);
        let pv = mono_prefix_val(dl, pre);
        let sv = mono_eval(mono_shift(dl, j), ys);
        if (vp.var as int) < pre.len() {
            let f = fpow((pre + ys)[vp.var as int], vp.pow as nat);
            assert((pre + ys)[vp.var as int] == pre[vp.var as int]);
            lemma_fmul_assoc(pv, sv, f);
            lemma_fmul_comm(sv, f);
            lemma_fmul_assoc(pv, f, sv);
        } else {
            let vp2 = VarPow { var: (vp.var - j) as usize, pow: vp.pow };
            let shifted = mono_shift(dl, j).push(vp2);
            assert(shifted.drop_last() =~= mono_shift(dl, j));
            assert(shifted.last() == vp2);
            assert((pre + ys)[vp.var as int] == ys[vp.var - j]);
            let f = fpow(ys[vp2.var as int], vp2.pow as nat);
            assert(mono_eval(shifted, ys) == fmul(sv, f));
            lemma_fmul_assoc(pv, sv, f);
        }
    }
}

impl SparsePoly {
    /// Fixes the first `prefix.len()` variables to the given values,
    /// producing a polynomial over the remaining variables.
    pub fn fix_variables(&self, prefix: &Vec<Fq>) -> (r: SparsePoly)
        requires
            self.wf(),
            prefix@.len() <= self.num_vars,
            fqs_wf(prefix@),
        ensures
            r.wf(),
            r.num_vars == self.num_vars - prefix@.len(),
            r.terms@.len() == self.terms@.len(),
            forall|ys: Seq<int>|
                ys.len() == r.num_vars ==> #[trigger] poly_eval(r.terms@, ys) == poly_eval(
                    self.terms@,
                    fqs(prefix@) + ys,
                ),
    {
        let j = prefix.len();
        let nv2 = self.num_vars - j;
        let ghost pre = fqs(prefix@);
        let mut rts: Vec<Mono> = Vec::new();
        let mut ti: usize = 0;
        while ti < self.terms.len()
            invariant
                self.wf(),
                j == prefix@.len(),
                j <= self.num_vars,
                nv2 == self.num_vars - j,
                fqs_wf(prefix@),
                pre == fqs(prefix@),
                ti <= self.terms@.len(),
                rts@.len() == ti,
                forall|i: int| 0 <= i < ti ==> mono_wf(#[trigger] rts@[i], nv2 as nat),
                forall|ys: Seq<int>|
                    ys.len() == nv2 ==> #[trigger] poly_eval(rts@, ys) == poly_eval(
                        self.terms@.take(ti as int),
                        pre + ys,
                    ),
            decreases self.terms@.len() - ti,
        {
            let m = &self.terms[ti];
            let mut c = m.coeff;
            let mut kept: Vec<VarPow> = Vec::new();
            let mut vi: usize = 0;
            while vi < m.vars.len()
                invariant
                    self.wf(),
                    j == prefix@.len(),
                    j <= self.num_vars,
                    nv2 == self.num_vars - j,
                    fqs_wf(prefix@),
                    pre == fqs(prefix@),
                    ti < self.terms@.len(),
                    m == self.terms@[ti as int],
                    vi <= m.vars@.len(),
                    c.wf(),
                    c@ == fmul(m.coeff@, mono_prefix_val(m.vars@.take(vi as int), pre)),
                    kept@ == mono_shift(m.vars@.take(vi as int), j as nat),
                decreases m.vars@.len() - vi,
            {
                let vp = m.vars[vi];
                proof {
                    assert(m.vars@.take(vi as int + 1).drop_last() =~= m.vars@.take(vi as int));
                    assert(m.vars@.take(vi as int + 1).last() == m.vars@[vi as int]);
                }
                if vp.var < j {
                    let f = prefix[vp.var].pow(vp.pow);
                    proof {
                        lemma_fmul_assoc(
                            m.coeff@,
                            mono_prefix_val(m.vars@.take(vi as int), pre),
                            fpow(pre[vp.var as int], vp.pow as nat),
                        );
                    }
                    c = c.mul(f);
                } else {
                    kept.push(VarPow { var: vp.var - j, pow: vp.pow });
                }
                vi = vi + 1;
            }
            proof {
                assert(m.vars@.take(m.vars@.len() as int) =~= m.vars@);
            }
            let nt = Mono { coeff: c, vars: kept };
            let ghost prevts = rts@;
            rts.push(nt);
            proof {
                assert(mono_wf(nt, nv2 as nat)) by {
                    lemma_mono_shift_sum(m.vars@, j as nat);
                    lemma_mono_shift_vars(m.vars@, j as nat, self.num_vars as nat);
                }
                assert forall|ys: Seq<int>| ys.len() == nv2 implies #[trigger] poly_eval(
                    rts@,
                    ys,
                ) == poly_eval(self.terms@.take(ti as int + 1), pre + ys) by {
                    assert(rts@.drop_last() =~= prevts);
                    assert(rts@.last() == nt);
                    assert(self.terms@.take(ti as int + 1).drop_last() =~= self.terms@.take(
                        ti as int,
                    ));
                    assert(self.terms@.take(ti as int + 1).last() == self.terms@[ti as int]);
                    lemma_mono_prefix_split(m.vars@, pre, ys);
                    lemma_fmul_assoc(
                        m.coeff@,
                        mono_prefix_val(m.vars@, pre),
                        mono_eval(mono_shift(m.vars@, j as nat), ys),
                    );
                    assert(term_val(nt, ys) == term_val(self.terms@[ti as int], pre + ys));
                    assert(poly_eval(prevts, ys) == poly_eval(self.terms@.take(ti as int), pre
                        + ys));
                    assert(poly_eval(rts@, ys) == fadd(poly_eval(prevts, ys), term_val(nt, ys)));
                }
            }
            ti = ti + 1;
        }
        proof {
            assert(self.terms@.take(self.terms@.len() as int) =~= self.terms@);
        }
        SparsePoly { num_vars: nv2, terms: rts }
    }
}

/// Concatenating monomial lists adds the polynomials they denote.
pub proof fn lemma_poly_eval_append(a: Seq<Mono>, b: Seq<Mono>, xs: Seq<int>)
    ensures
        poly_eval(a + b, xs) == fadd(poly_eval(a, xs), poly_eval(b, xs)),
    decreases b.len(),
{
    lemma_poly_eval_range(a, xs);
    if b.len() == 0 {
        assert(a + b =~= a);
    } else {
        lemma_poly_eval_append(a, b.drop_last(), xs);
        assert((a + b).drop_last() =~= a + b.drop_last());
        assert((a + b).last() == b.last());
        lemma_fadd_assoc(poly_eval(a, xs), poly_eval(b.drop_last(), xs), term_val(b.last(), xs));
    }
}

/// Adds two polynomials over the same variables.
pub fn poly_add(a: SparsePoly, b: SparsePoly) -> (r: SparsePoly)
    requires
        a.wf(),
        b.wf(),
        a.num_vars == b.num_vars,
    ensures
        r.wf(),
        r.num_vars == a.num_vars,
        r.terms@ == a.terms@ + b.terms@,
        forall|xs: Seq<int>| #[trigger] poly_eval(r.terms@, xs) == fadd(
            poly_eval(a.terms@, xs),
            poly_eval(b.terms@, xs),
        ),
{
    let ghost ats = a.terms@;
    let ghost bts = b.terms@;
    let mut a2 = a;
    let mut b2 = b;
    a2.terms.append(&mut b2.terms);
    proof {
        assert(a2.terms@ == ats + bts);
        assert forall|xs: Seq<int>| #[trigger] poly_eval(a2.terms@, xs) == fadd(
            poly_eval(ats, xs),
            poly_eval(bts, xs),
        ) by {
            lemma_poly_eval_append(ats, bts, xs);
        }
    }
    a2
}

/// Evaluates a univariate polynomial at a scalar.
pub fn eval_at(p: &SparsePoly, t: Fq) -> (r: Fq)
    requires
        p.wf(),
        p.num_vars == 1,
        t.wf(),
    ensures
        r.wf(),
        r@ == uni_eval(p.terms@, t@),
{
    let mut xs: Vec<Fq> = Vec::new();
    xs.push(t);
    proof {
        assert(fqs(xs@) =~= seq![t@]);
    }
    p.evaluate(&xs)
}

/// Power sums of a prefix are bounded by the power sum of the whole.
pub proof fn lemma_sum_pows_take_le(vars: Seq<VarPow>, i: int)
    requires
        0 <= i <= vars.len(),
    ensures
        sum_pows(vars.take(i)) <= sum_pows(vars),
    decreases vars.len() - i,
{
    if i == vars.len() {
        assert(vars.take(i) =~= vars);
    } else {
        lemma_sum_pows_take_le(vars, i + 1);
        assert(vars.take(i + 1).drop_last() =~= vars.take(i));
        assert(vars.take(i + 1).last() == vars[i]);
    }
}

/// Two raised to a power, the size of a Boolean hypercube.
pub open spec fn exp2(k: nat) -> nat
    decreases k,
{
    if k == 0 {
        1nat
    } else {
        2 * exp2((k - 1) as nat)
    }
}

/// Powers of two are positive.
pub proof fn lemma_exp2_pos(k: nat)
    ensures
        exp2(k) >= 1,
    decreases k,
{
    if k > 0 {
        lemma_exp2_pos((k - 1) as nat);
    }
}

/// `exp2` agrees with the standard power-of-two function.
pub proof fn lemma_exp2_is_pow2(k: nat)
    ensures
        exp2(k) == vstd::arithmetic::power2::pow2(k),
    decreases k,
{
    if k == 0 {
        vstd::arithmetic::power2::lemma_pow2_unfold(1);
        assert(vstd::arithmetic::power2::pow2(0) == 1) by {
            vstd::arithmetic::power::lemma_pow0(2);
        }
    } else {
        lemma_exp2_is_pow2((k - 1) as nat);
        vstd::arithmetic::power2::lemma_pow2_unfold(k);
    }
}

/// Small powers of two fit in a machine word.
pub proof fn lemma_exp2_fits(k: nat)
    requires
        k <= 62,
    ensures
        exp2(k) <= 0x4000_0000_0000_0000,
{
    lemma_exp2_is_pow2(k);
    vstd::arithmetic::power2::lemma2_to64();
    vstd::arithmetic::power2::lemma2_to64_rest();
    if k < 62 {
        vstd::arithmetic::power2::lemma_pow2_strictly_increases(k, 62);
    }
}

/// Two raised to a power, executable.
pub fn two_pow(k: usize) -> (r: u64)
    requires
        k < 63,
    ensures
        r == exp2(k as nat),
        r >= 1,
{
    let mut r: u64 = 1;
    let mut i: usize = 0;
    while i < k
        invariant
            i <= k,
            k < 63,
            r == exp2(i as nat),
            r >= 1,
        decreases k - i,
    {
        proof {
            lemma_exp2_fits(i as nat);
        }
        r = r * 2;
        i = i + 1;
    }
    r
}

/// Small powers of two stay below a gate-index cap.
pub proof fn lemma_exp2_cap(k: nat)
    requires
        k <= 29,
    ensures
        exp2(k) <= 0x2000_0000,
{
    lemma_exp2_is_pow2(k);
    vstd::arithmetic::power2::lemma2_to64();
    if k < 29 {
        vstd::arithmetic::power2::lemma_pow2_strictly_increases(k, 29);
    }
}

/// Powers of two are strictly monotone in the exponent.
pub proof fn lemma_exp2_lt(a: nat, b: nat)
    requires
        a < b,
    ensures
        exp2(a) < exp2(b),
    decreases b,
{
    lemma_exp2_pos(a);
    if a + 1 == b {
        lemma_exp2_pos(a);
    } else {
        lemma_exp2_lt(a, (b - 1) as nat);
    }
}

/// Bit `p` of `idx`, as a residue.
pub open spec fn bit_of(idx: nat, p: nat) -> int {
    (idx as int / exp2(p) as int) % 2
}

/// The point of the Boolean hypercube with index `idx`, most significant
/// bit first, over `k` variables.
pub open spec fn point_of(idx: nat, k: nat) -> Seq<int> {
    Seq::new(k, |j: int| bit_of(idx, (k - 1 - j) as nat))
}

/// The sum of the polynomial over the first `n` points of the hypercube
/// `{0,1}^m`, each point extended on the left by the fixed prefix `pre`.
pub open spec fn suffix_sum(terms: Seq<Mono>, pre: Seq<int>, m: nat, n: nat) -> int
    decreases n,
{
    if n == 0 {
        0int
    } else {
        fadd(
            suffix_sum(terms, pre, m, (n - 1) as nat),
            poly_eval(terms, pre + point_of((n - 1) as nat, m)),
        )
    }
}

/// Builds the hypercube point with the given index as field elements.
pub fn index_point(idx: u64, k: usize) -> (r: Vec<Fq>)
    requires
        k < 63,
    ensures
        r@.len() == k,
        fqs_wf(r@),
        fqs(r@) == point_of(idx as nat, k as nat),
{
    let mut r: Vec<Fq> = Vec::new();
    let mut j: usize = 0;
    while j < k
        invariant
            j <= k,
            k < 63,
            r@.len() == j,
            fqs_wf(r@),
            forall|i: int| 0 <= i < j ==> (#[trigger] r@[i])@ == bit_of(idx as nat, (k - 1 - i) as nat),
        decreases k - j,
    {
        let p: usize = k - 1 - j;
        let d = two_pow(p);
        let b: u64 = (idx / d) % 2;
        let ghost prev = r@;
        r.push(Fq { v: b });
        proof {
            assert(r@ == prev.push(Fq { v: b }));
            assert(forall|i: int| 0 <= i < j ==> r@[i] == prev[i]);
            assert(b as int == bit_of(idx as nat, p as nat));
        }
        j = j + 1;
    }
    proof {
        assert(fqs(r@) =~= point_of(idx as nat, k as nat));
    }
    r
}

/// Sums the polynomial over the whole Boolean hypercube of its variables.
pub fn sum_poly(p: &SparsePoly) -> (r: Fq)
    requires
        p.wf(),
        p.num_vars < 63,
    ensures
        r.wf(),
        r@ == suffix_sum(p.terms@, Seq::empty(), p.num_vars as nat, exp2(p.num_vars as nat)),
{
    let k = p.num_vars;
    let n = two_pow(k);
    let mut acc = Fq::zero();
    let mut idx: u64 = 0;
    while idx < n
        invariant
            p.wf(),
            p.num_vars == k,
            k < 63,
            n == exp2(k as nat),
            idx <= n,
            acc.wf(),
            acc@ == suffix_sum(p.terms@, Seq::empty(), k as nat, idx as nat),
        decreases n - idx,
    {
        let point = index_point(idx, k);
        let v = p.evaluate(&point);
        proof {
            assert(Seq::<int>::empty() + point_of(idx as nat, k as nat) =~= point_of(
                idx as nat,
                k as nat,
            ));
        }
        acc = acc.add(v);
        idx = idx + 1;
    }
    acc
}

} // verus!
