//! The sum-check engine: proving that a polynomial sums to a claimed value
//! over the Boolean hypercube, one variable per round.
//!
//! Round `i` sends the univariate polynomial obtained by fixing the first
//! `i - 1` variables to the earlier challenges, keeping variable `i` free,
//! and summing over all Boolean settings of the rest.  The verifier checks
//! that its values at 0 and 1 sum to the value carried from the previous
//! round, then answers with a fresh random challenge.
use vstd::prelude::*;

use ark_std::rand::rngs::StdRng;

use crate::field::{Fq, fadd, fqs, fqs_wf, lemma_fadd_assoc, MODULUS};
use crate::poly::{exp2, index_point, lemma_exp2_pos, lemma_xpow_le_max, max_xpow, Mono,
    point_of, poly_add, poly_eval, poly_max_pow, set_values, SparsePoly, suffix_sum, term_xpow,
    two_pow, uni_eval, eval_at, bit_of, VarPow, xpow_in};
use crate::rng::sample_fq;

verus! {

/// The full sum of the polynomial over its Boolean hypercube.
pub open spec fn hypercube_total(terms: Seq<Mono>, k: nat) -> int {
    suffix_sum(terms, Seq::empty(), k, exp2(k))
}

/// `exp2` turns sums of exponents into products.
pub proof fn lemma_exp2_adds(a: nat, b: nat)
    ensures
        exp2(a + b) == exp2(a) * exp2(b),
    decreases a,
{
    if a == 0 {
        assert(exp2(a) == 1);
        assert(exp2(a + b) == exp2(b));
    } else {
        lemma_exp2_adds((a - 1) as nat, b);
        assert((a - 1) + b == (a + b) - 1);
        assert(2 * (exp2((a - 1) as nat) * exp2(b)) == (2 * exp2((a - 1) as nat)) * exp2(b))
            by (nonlinear_arith);
    }
}

/// Splitting the leading bit off a hypercube point: the point with index
/// `b * 2^m + idx` over `m + 1` variables is the bit `b` followed by the
/// point with index `idx` over `m` variables.
pub proof fn lemma_point_split(b: int, idx: nat, m: nat)
    requires
        b == 0 || b == 1,
        idx < exp2(m),
    ensures
        point_of((b * exp2(m) + idx) as nat, m + 1) =~= seq![b] + point_of(idx, m),
{
    let big = (b * exp2(m) + idx) as nat;
    lemma_exp2_pos(m);
    assert(b * exp2(m) >= 0) by (nonlinear_arith)
        requires
            b == 0 || b == 1,
            exp2(m) >= 1,
    ;
    assert forall|j: int| 0 <= j < m + 1 implies point_of(big, m + 1)[j] == (seq![b] + point_of(
        idx,
        m,
    ))[j] by {
        if j == 0 {
            // leading coordinate: dividing by 2^m exposes the bit b
            vstd::arithmetic::div_mod::lemma_div_multiples_vanish_fancy(
                b,
                idx as int,
                exp2(m) as int,
            );
            assert(bit_of(big, m) == b % 2);
        } else {
            let p = (m - j) as nat;
            let d = exp2(p) as int;
            lemma_exp2_pos(p);
            lemma_exp2_adds(p, (m - p) as nat);
            let mm = exp2((m - p) as nat) as int;
            let q = idx as int / d;
            let r0 = idx as int % d;
            vstd::arithmetic::div_mod::lemma_fundamental_div_mod(idx as int, d);
            assert(b * exp2(m) + idx == d * (b * mm + q) + r0) by (nonlinear_arith)
                requires
                    exp2(m) == d * mm,
                    idx == d * q + r0,
            ;
            vstd::arithmetic::div_mod::lemma_div_multiples_vanish_fancy(b * mm + q, r0, d);
            assert(big as int / d == b * mm + q);
            // mm is even, so the added multiple vanishes modulo 2
            assert(mm == 2 * exp2((m - p - 1) as nat));
            assert(b * mm + q == 2 * (b * exp2((m - p - 1) as nat)) + q) by (nonlinear_arith)
                requires
                    mm == 2 * exp2((m - p - 1) as nat),
            ;
            vstd::arithmetic::div_mod::lemma_mod_multiples_vanish(
                b * exp2((m - p - 1) as nat) as int,
                q,
                2,
            );
            assert(bit_of(big, p) == q % 2);
            assert(point_of(idx, m)[j - 1] == bit_of(idx, (m - 1 - (j - 1)) as nat));
        }
    }
}

/// The value of a partial hypercube sum is a reduced residue.
pub proof fn lemma_suffix_sum_range(terms: Seq<Mono>, pre: Seq<int>, m: nat, n: nat)
    ensures
        0 <= suffix_sum(terms, pre, m, n) < MODULUS,
    decreases n,
{
    if n > 0 {
        lemma_suffix_sum_range(terms, pre, m, (n - 1) as nat);
    }
}

/// The first half of a hypercube sum fixes the leading variable to 0.
proof fn lemma_suffix_sum_low(terms: Seq<Mono>, pre: Seq<int>, m: nat, n: nat)
    requires
        n <= exp2(m),
    ensures
        suffix_sum(terms, pre, m + 1, n) == suffix_sum(terms, pre.push(0), m, n),
    decreases n,
{
    if n > 0 {
        lemma_suffix_sum_low(terms, pre, m, (n - 1) as nat);
        lemma_point_split(0, (n - 1) as nat, m);
        lemma_exp2_pos(m);
        assert(0 * exp2(m) + (n - 1) == n - 1);
        assert(pre + (seq![0int] + point_of((n - 1) as nat, m)) =~= pre.push(0) + point_of(
            (n - 1) as nat,
            m,
        ));
    }
}

/// The second half of a hypercube sum fixes the leading variable to 1.
proof fn lemma_suffix_sum_high(terms: Seq<Mono>, pre: Seq<int>, m: nat, n: nat)
    requires
        n <= exp2(m),
    ensures
        suffix_sum(terms, pre, m + 1, (exp2(m) + n) as nat) == fadd(
            suffix_sum(terms, pre, m + 1, exp2(m)),
            suffix_sum(terms, pre.push(1), m, n),
        ),
    decreases n,
{
    let s_half = suffix_sum(terms, pre, m + 1, exp2(m));
    if n == 0 {
        lemma_suffix_sum_range(terms, pre, m + 1, exp2(m));
    } else {
        lemma_suffix_sum_high(terms, pre, m, (n - 1) as nat);
        lemma_point_split(1, (n - 1) as nat, m);
        assert(1 * exp2(m) + (n - 1) == exp2(m) + n - 1);
        assert(pre + (seq![1int] + point_of((n - 1) as nat, m)) =~= pre.push(1) + point_of(
            (n - 1) as nat,
            m,
        ));
        let e = poly_eval(terms, pre.push(1) + point_of((n - 1) as nat, m));
        lemma_fadd_assoc(s_half, suffix_sum(terms, pre.push(1), m, (n - 1) as nat), e);
    }
}

/// Round consistency: the hypercube sum with prefix `pre` over `m + 1`
/// free variables equals the sum of its two restrictions that pin the next
/// variable to 0 and to 1.  Instantiated at `pre` ending in the previous
/// round's challenge, this says that an honest round polynomial's values
/// at 0 and 1 add up to the value carried from the previous round.
pub proof fn lemma_round_consistency(terms: Seq<Mono>, pre: Seq<int>, m: nat)
    ensures
        suffix_sum(terms, pre, m + 1, exp2(m + 1)) == fadd(
            suffix_sum(terms, pre.push(0), m, exp2(m)),
            suffix_sum(terms, pre.push(1), m, exp2(m)),
        ),
{
    assert(exp2(m + 1) == 2 * exp2(m));
    lemma_suffix_sum_high(terms, pre, m, exp2(m));
    lemma_suffix_sum_low(terms, pre, m, exp2(m));
}

/// Every term of a univariate round message stays within the degree
/// bound.
pub open spec fn uni_degree_ok(terms: Seq<Mono>, bound: int) -> bool {
    forall|k: int| 0 <= k < terms.len() ==> xpow_in((#[trigger] terms[k]).vars@, 0) <= bound
}

/// The verifier's degree check on a round message: a round polynomial
/// whose degree exceeds the per-variable degree bound of the proved
/// polynomial must be rejected.
pub fn check_degree(s: &SparsePoly, bound: u64) -> (ok: bool)
    requires
        s.wf(),
        s.num_vars == 1,
    ensures
        ok == uni_degree_ok(s.terms@, bound as int),
{
    let mut ti: usize = 0;
    while ti < s.terms.len()
        invariant
            s.wf(),
            s.num_vars == 1,
            ti <= s.terms@.len(),
            forall|k: int| 0 <= k < ti ==> xpow_in((#[trigger] s.terms@[k]).vars@, 0) <= bound,
        decreases s.terms@.len() - ti,
    {
        proof {
            assert(crate::poly::mono_wf(s.terms@[ti as int], 1));
        }
        let e = term_xpow(&s.terms[ti], 0);
        if e > bound {
            return false;
        }
        ti = ti + 1;
    }
    true
}

/// The honest prover's message for round `i`: the polynomial in variable
/// `i` (1-based) obtained by fixing the earlier variables to the
/// challenges `rs` and summing over all Boolean settings of the rest.
pub fn prover_gen_s(p: &SparsePoly, i: usize, rs: &Vec<Fq>) -> (s: SparsePoly)
    requires
        p.wf(),
        1 <= i <= p.num_vars,
        p.num_vars < 63,
        rs@.len() == i - 1,
        fqs_wf(rs@),
    ensures
        s.wf(),
        s.num_vars == 1,
        forall|t: int| #[trigger] uni_eval(s.terms@, t) == suffix_sum(
            p.terms@,
            fqs(rs@).push(t),
            (p.num_vars - i) as nat,
            exp2((p.num_vars - i) as nat),
        ),
        uni_degree_ok(s.terms@, max_xpow(p.terms@, i - 1)),
{
    let m = p.num_vars - i;
    let n = two_pow(m);
    let mut acc = SparsePoly { num_vars: 1, terms: Vec::new() };
    let mut idx: u64 = 0;
    while idx < n
        invariant
            p.wf(),
            1 <= i <= p.num_vars,
            p.num_vars < 63,
            rs@.len() == i - 1,
            fqs_wf(rs@),
            m == p.num_vars - i,
            n == exp2(m as nat),
            idx <= n,
            acc.wf(),
            acc.num_vars == 1,
            uni_degree_ok(acc.terms@, max_xpow(p.terms@, i - 1)),
            forall|t: int| #[trigger] uni_eval(acc.terms@, t) == suffix_sum(
                p.terms@,
                fqs(rs@).push(t),
                m as nat,
                idx as nat,
            ),
        decreases n - idx,
    {
        let mut values: Vec<Fq> = Vec::new();
        let mut vi: usize = 0;
        while vi < rs.len()
            invariant
                vi <= rs@.len(),
                fqs_wf(rs@),
                values@ == rs@.take(vi as int),
            decreases rs@.len() - vi,
        {
            values.push(rs[vi]);
            proof {
                assert(rs@.take(vi as int + 1) =~= rs@.take(vi as int).push(rs@[vi as int]));
            }
            vi = vi + 1;
        }
        proof {
            assert(rs@.take(rs@.len() as int) =~= rs@);
        }
        let zero = Fq::zero();
        values.push(zero);
        let mut suffix = index_point(idx, m);
        let ghost suffix_view = suffix@;
        values.append(&mut suffix);
        proof {
            assert(values@ == rs@.push(zero) + suffix_view);
            assert(fqs_wf(values@));
            assert(values@.len() == p.num_vars);
        }
        let sv = set_values(p, i - 1, &values);
        let ghost acc_old = acc.terms@;
        let ghost sv_terms = sv.terms@;
        acc = poly_add(acc, sv);
        proof {
            // the added block keeps the per-round degree bound
            assert forall|k: int| 0 <= k < acc.terms@.len() implies xpow_in(
                (#[trigger] acc.terms@[k]).vars@,
                0,
            ) <= max_xpow(p.terms@, i - 1) by {
                if k < acc_old.len() {
                    assert(acc.terms@[k] == acc_old[k]);
                    assert(xpow_in(acc_old[k].vars@, 0) <= max_xpow(p.terms@, i - 1));
                } else {
                    let k2 = k - acc_old.len();
                    assert(acc.terms@[k] == sv_terms[k2]);
                    let vp = VarPow {
                        var: 0,
                        pow: xpow_in(p.terms@[k2].vars@, i - 1) as u64,
                    };
                    assert(sv_terms[k2].vars@ == seq![vp]);
                    assert(crate::poly::mono_wf(p.terms@[k2], p.num_vars as nat));
                    crate::poly::lemma_xpow_in_bounds(p.terms@[k2].vars@, i - 1);
                    assert(vp.pow == xpow_in(p.terms@[k2].vars@, i - 1));
                    assert(seq![vp].len() == 1);
                    assert(seq![vp].last() == vp);
                    assert(seq![vp].drop_last() =~= Seq::<VarPow>::empty());
                    assert(xpow_in(Seq::<VarPow>::empty(), 0) == 0);
                    assert(xpow_in(seq![vp], 0) == vp.pow);
                    lemma_xpow_le_max(p.terms@, i - 1, k2);
                }
            }
            assert forall|t: int| #[trigger] uni_eval(acc.terms@, t) == suffix_sum(
                p.terms@,
                fqs(rs@).push(t),
                m as nat,
                idx as nat + 1,
            ) by {
                assert(poly_eval(acc.terms@, seq![t]) == fadd(
                    poly_eval(acc_old, seq![t]),
                    poly_eval(sv.terms@, seq![t]),
                ));
                assert(uni_eval(acc_old, t) == suffix_sum(
                    p.terms@,
                    fqs(rs@).push(t),
                    m as nat,
                    idx as nat,
                ));
                assert(uni_eval(sv.terms@, t) == poly_eval(
                    p.terms@,
                    fqs(values@).update(i - 1, t),
                ));
                assert(fqs(values@).update(i - 1, t) =~= fqs(rs@).push(t) + point_of(
                    idx as nat,
                    m as nat,
                ));
            }
        }
        idx = idx + 1;
    }
    acc
}

/// The verifier's check for round `i` (1-based): the two boundary values
/// of round polynomial `ss[i-1]` must add up to the value carried from the
/// previous round, which is the initial claim `s` for round 1 and the
/// previous round polynomial evaluated at its challenge afterwards.
pub fn verify_si(ss: &Vec<SparsePoly>, rs: &Vec<Fq>, i: usize, s: Fq) -> (ok: bool)
    requires
        1 <= i <= ss@.len(),
        forall|j: int| 0 <= j < ss@.len() ==> (#[trigger] ss@[j]).wf() && ss@[j].num_vars == 1,
        i >= 2 ==> i - 2 < rs@.len(),
        fqs_wf(rs@),
        s.wf(),
    ensures
        ok == (fadd(uni_eval(ss@[i - 1].terms@, 0), uni_eval(ss@[i - 1].terms@, 1)) == (if i == 1 {
            s@
        } else {
            uni_eval(ss@[i - 2].terms@, rs@[i - 2]@)
        })),
{
    let zero_v = eval_at(&ss[i - 1], Fq::zero());
    let one_v = eval_at(&ss[i - 1], Fq::one());
    let both = zero_v.add(one_v);
    let expected = if i == 1 {
        s
    } else {
        eval_at(&ss[i - 2], rs[i - 2])
    };
    proof {
        crate::poly::lemma_poly_eval_range(ss@[i - 1].terms@, seq![0int]);
        crate::poly::lemma_poly_eval_range(ss@[i - 1].terms@, seq![1int]);
        crate::poly::lemma_poly_eval_range(
            ss@[if i == 1 { i - 1 } else { i - 2 } as int].terms@,
            seq![if i == 1 { 0int } else { rs@[i - 2]@ }],
        );
    }
    both == expected
}

/// One full run of the sum-check protocol on a known polynomial.
pub struct SumcheckTranscript {
    /// The verifier's verdict.
    pub accepted: bool,
    /// The round polynomials the prover sent, in round order.
    pub round_polys: Vec<SparsePoly>,
    /// The challenges the verifier drew, in round order.
    pub challenges: Vec<Fq>,
}

/// Runs the whole sum-check protocol: the honest prover proves that `p`
/// sums to `claimed` over the Boolean hypercube, and the verifier checks
/// every round's degree bound and boundary sum, and the final oracle
/// evaluation.
///
/// Completeness: the run is accepted exactly when the claim is true, for
/// every possible sequence of verifier challenges.
pub fn run_sumcheck(p: &SparsePoly, claimed: Fq, rng: &mut StdRng) -> (tr: SumcheckTranscript)
    requires
        p.wf(),
        1 <= p.num_vars < 63,
        claimed.wf(),
    ensures
        tr.round_polys@.len() == p.num_vars,
        tr.challenges@.len() == p.num_vars,
        fqs_wf(tr.challenges@),
        forall|i: int, t: int|
            0 <= i < p.num_vars ==> #[trigger] uni_eval(tr.round_polys@[i].terms@, t)
                == suffix_sum(
                p.terms@,
                fqs(tr.challenges@.take(i)).push(t),
                (p.num_vars - i - 1) as nat,
                exp2((p.num_vars - i - 1) as nat),
            ),
        tr.accepted == (claimed@ == hypercube_total(p.terms@, p.num_vars as nat)),
{
    let k = p.num_vars;
    let mut rs: Vec<Fq> = Vec::new();
    let mut ss: Vec<SparsePoly> = Vec::new();
    let mut ok = true;
    let mut i: usize = 1;
    while i <= k
        invariant
            p.wf(),
            1 <= p.num_vars < 63,
            claimed.wf(),
            k == p.num_vars,
            1 <= i <= k + 1,
            rs@.len() == i - 1,
            ss@.len() == i - 1,
            fqs_wf(rs@),
            forall|j: int| 0 <= j < ss@.len() ==> (#[trigger] ss@[j]).wf() && ss@[j].num_vars == 1,
            forall|j: int, t: int|
                0 <= j < i - 1 ==> #[trigger] uni_eval(ss@[j].terms@, t) == suffix_sum(
                    p.terms@,
                    fqs(rs@.take(j)).push(t),
                    (k - j - 1) as nat,
                    exp2((k - j - 1) as nat),
                ),
            ok == (i == 1 || claimed@ == hypercube_total(p.terms@, k as nat)),
        decreases k + 1 - i,
    {
        let dbound = poly_max_pow(p, i - 1);
        let s_i = prover_gen_s(p, i, &rs);
        let okd = check_degree(&s_i, dbound);
        proof {
            // an honest round message never exceeds the degree bound
            assert(okd);
        }
        ss.push(s_i);
        let okr = verify_si(&ss, &rs, i, claimed);
        proof {
            assert(ss@[i - 1] == s_i);
            assert(rs@.take(i - 1) =~= rs@);
            if i == 1 {
                // the first check compares against the claim itself
                lemma_round_consistency(p.terms@, Seq::empty(), (k - 1) as nat);
                assert(fqs(rs@).push(0) =~= Seq::<int>::empty().push(0));
                assert(fqs(rs@).push(1) =~= Seq::<int>::empty().push(1));
                assert(okr == (fadd(
                    suffix_sum(p.terms@, Seq::empty().push(0), (k - 1) as nat, exp2((k - 1) as nat)),
                    suffix_sum(p.terms@, Seq::empty().push(1), (k - 1) as nat, exp2((k - 1) as nat)),
                ) == claimed@));
                lemma_suffix_sum_range(p.terms@, Seq::empty(), k as nat, exp2(k as nat));
                assert(okr == (claimed@ == hypercube_total(p.terms@, k as nat)));
            } else {
                // the check compares against the previous round polynomial
                // at its challenge, which the split law shows it equals
                let pre = fqs(rs@.take(i - 2)).push(rs@[i - 2]@);
                lemma_round_consistency(p.terms@, pre, (k - i) as nat);
                assert(pre =~= fqs(rs@.take(i - 1)));
                assert(pre =~= fqs(rs@));
                assert(uni_eval(ss@[i - 2].terms@, rs@[i - 2]@) == suffix_sum(
                    p.terms@,
                    pre,
                    (k - i + 1) as nat,
                    exp2((k - i + 1) as nat),
                ));
                assert(okr);
            }
        }
        ok = ok && okr && okd;
        let r = sample_fq(rng);
        let ghost rs_old = rs@;
        rs.push(r);
        proof {
            assert forall|j: int, t: int| 0 <= j < i implies #[trigger] uni_eval(
                ss@[j].terms@,
                t,
            ) == suffix_sum(
                p.terms@,
                fqs(rs@.take(j)).push(t),
                (k - j - 1) as nat,
                exp2((k - j - 1) as nat),
            ) by {
                assert(rs@.take(j) =~= rs_old.take(j));
                if j < i - 1 {
                    assert(uni_eval(ss@[j].terms@, t) == suffix_sum(
                        p.terms@,
                        fqs(rs_old.take(j)).push(t),
                        (k - j - 1) as nat,
                        exp2((k - j - 1) as nat),
                    ));
                }
            }
        }
        i = i + 1;
    }
    // final oracle check: the last round polynomial, at the last challenge,
    // must equal the polynomial itself at the fully bound random point
    let last_val = eval_at(&ss[k - 1], rs[k - 1]);
    let direct = p.evaluate(&rs);
    proof {
        let r_last = rs@[k - 1]@;
        let pre = fqs(rs@.take(k - 1)).push(r_last);
        assert(uni_eval(ss@[k - 1].terms@, r_last) == suffix_sum(p.terms@, pre, 0, 1));
        assert(suffix_sum(p.terms@, pre, 0, 0) == 0);
        assert(suffix_sum(p.terms@, pre, 0, 1) == fadd(0, poly_eval(p.terms@, pre + point_of(0, 0))));
        assert(pre + point_of(0, 0) =~= pre);
        assert(pre =~= fqs(rs@));
        crate::poly::lemma_poly_eval_range(p.terms@, fqs(rs@));
        assert(uni_eval(ss@[k - 1].terms@, r_last) == poly_eval(p.terms@, fqs(rs@)));
    }
    let okf = last_val == direct;
    assert(okf);
    let accepted = ok && okf;
    SumcheckTranscript { accepted, round_polys: ss, challenges: rs }
}

} // verus!
