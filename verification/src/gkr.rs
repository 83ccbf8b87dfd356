//! The GKR layer reduction: proving a layered circuit's output claim by one
//! sum-check instance per layer.
//!
//! A claim about layer `i` is a pair of points with a folding scalar: the
//! claimed value is `W(p1) + lambda * W(p2)` for the layer's multilinear
//! extension `W`.  One sum-check over the gates of layer `i` reduces it to a
//! claim of the same shape about layer `i + 1`; the final claim is checked
//! directly against the input's extension.
use vstd::prelude::*;

use ark_std::rand::rngs::StdRng;

use crate::circuit::{Circuit, CircuitError, CircuitLayer, eval_levels, Gate, GateType,
    level_views, level_width, lemma_eval_levels_len, lemma_eval_levels_widths};
use crate::field::{Fq, fadd, fmul, fsub, fqs, fqs_wf};
use crate::mle::{mle, mle_eval, wiring_mle, wiring_eval};
use crate::poly::{exp2, index_point, point_of, two_pow};
use crate::rng::sample_fq;

verus! {

/// A message from the prover.
#[derive(Debug)]
pub enum ProverMessage {
    /// Opens the protocol with the claimed circuit outputs.
    Begin { circuit_outputs: Vec<Fq> },
    /// Announces the sum-check for the next layer.
    LayerStart,
    /// A round polynomial, as its values on consecutive points: three
    /// values within a layer's rounds, the two sub-claim values at its end.
    RoundPolynomial { evals: Vec<Fq> },
}

/// A message from the verifier.
#[derive(Debug)]
pub enum VerifierMessage {
    /// A challenge: the next layer's claim data, or a single round
    /// challenge, or an empty acknowledgement.
    R { r: Vec<Fq> },
    /// The challenge that closes a layer's last round.
    FinalChallenge { r: Fq },
}

/// How a verifier refuses a prover message.
#[derive(Clone, Copy, PartialEq, Eq, Structural, Debug)]
pub enum VerifierError {
    /// A message of the wrong tag for the current state.
    ProtocolViolation,
    /// A check failed: the proof is invalid.
    Rejected,
}

/// The evaluation of the degree-two interpolant through `(0, v0)`,
/// `(1, v1)`, `(2, v2)` at `r`; the constants 9 and 16 are the residues of
/// one half and minus one.
pub open spec fn lag3(v0: int, v1: int, v2: int, r: int) -> int {
    fadd(
        fadd(
            fmul(v0, fmul(fmul(fsub(r, 1), fsub(r, 2)), 9)),
            fmul(v1, fmul(fmul(r, fsub(r, 2)), 16)),
        ),
        fmul(v2, fmul(fmul(r, fsub(r, 1)), 9)),
    )
}

/// Evaluates the degree-two interpolant through the three given values.
pub fn lagrange3(v0: Fq, v1: Fq, v2: Fq, r: Fq) -> (res: Fq)
    requires
        v0.wf(),
        v1.wf(),
        v2.wf(),
        r.wf(),
    ensures
        res.wf(),
        res@ == lag3(v0@, v1@, v2@, r@),
{
    let one = Fq::one();
    let two = Fq::from_u64(2);
    let half = Fq::from_u64(9);
    let m_one = Fq::from_u64(16);
    let l0 = r.sub(one).mul(r.sub(two)).mul(half);
    let l1 = r.mul(r.sub(two)).mul(m_one);
    let l2 = r.mul(r.sub(one)).mul(half);
    v0.mul(l0).add(v1.mul(l1)).add(v2.mul(l2))
}

/// The value of a quadratic with the given coefficients at `t`.
pub open spec fn qeval(a: int, b: int, c: int, t: int) -> int {
    fadd(a, fadd(fmul(b, t), fmul(c, fmul(t, t))))
}

/// One Lagrange basis factor, with its inner mods collapsed.
proof fn lemma_basis_residue(x: int, y: int, cst: int)
    ensures
        fmul(fmul(x % 17, y % 17), cst) == (x * y * cst) % 17,
{
    vstd::arithmetic::div_mod::lemma_mul_mod_noop(x, y, 17);
    vstd::arithmetic::div_mod::lemma_mul_mod_noop_left(x * y, cst, 17);
}

/// Weighting a reduced factor is weighting the integer it reduces.
proof fn lemma_weight_residue(v: int, big: int)
    ensures
        fmul(v, big % 17) == (v * big) % 17,
{
    vstd::arithmetic::div_mod::lemma_mul_mod_noop_right(v, big, 17);
}

/// The interpolant collapses to one residue of an integer combination.
proof fn lemma_lag3_as_residue(v0: int, v1: int, v2: int, r: int)
    requires
        0 <= r < 17,
    ensures
        lag3(v0, v1, v2, r) == (v0 * ((r - 1) * (r - 2) * 9) + v1 * (r * (r - 2) * 16) + v2 * (r
            * (r - 1) * 9)) % 17,
{
    let m = 17int;
    let l0 = (r - 1) * (r - 2) * 9;
    let l1 = r * (r - 2) * 16;
    let l2 = r * (r - 1) * 9;
    assert(fmul(v0, fmul(fmul(fsub(r, 1), fsub(r, 2)), 9)) == (v0 * l0) % m) by {
        lemma_basis_residue(r - 1, r - 2, 9);
        lemma_weight_residue(v0, l0);
    }
    assert(r % m == r) by {
        vstd::arithmetic::div_mod::lemma_small_mod(r as nat, 17);
    }
    assert(fmul(v1, fmul(fmul(r, fsub(r, 2)), 16)) == (v1 * l1) % m) by {
        lemma_basis_residue(r, r - 2, 16);
        assert(fmul(r % m, fsub(r, 2)) == fmul(r, fsub(r, 2)));
        lemma_weight_residue(v1, l1);
    }
    assert(fmul(v2, fmul(fmul(r, fsub(r, 1)), 9)) == (v2 * l2) % m) by {
        lemma_basis_residue(r, r - 1, 9);
        assert(fmul(r % m, fsub(r, 1)) == fmul(r, fsub(r, 1)));
        lemma_weight_residue(v2, l2);
    }
    vstd::arithmetic::div_mod::lemma_add_mod_noop(v0 * l0, v1 * l1, m);
    vstd::arithmetic::div_mod::lemma_add_mod_noop(v0 * l0 + v1 * l1, v2 * l2, m);
}

/// The three sampled values of a quadratic with reduced coefficients./// The three sampled values of a quadratic with reduced coefficients.
#[verifier::rlimit(100)]
proof fn lemma_qeval_samples(a: int, b: int, c: int)
    requires
        0 <= a < 17,
        0 <= b < 17,
        0 <= c < 17,
    ensures
        qeval(a, b, c, 0) == a,
        qeval(a, b, c, 1) == (a + b + c) % 17,
        qeval(a, b, c, 2) == (a + 2 * b + 4 * c) % 17,
{
    let m = 17int;
    assert(b * 0 == 0 && c * 0 == 0 && 0 * 0 == 0) by (nonlinear_arith);
    assert(fmul(b, 0) == 0 && fmul(c, fmul(0, 0)) == 0);
    assert(fmul(1int, 1int) == 1int);
    assert(fmul(b, 1) == b % m);
    assert(fmul(c, 1) == c % m);
    vstd::arithmetic::div_mod::lemma_add_mod_noop(b, c, m);
    vstd::arithmetic::div_mod::lemma_add_mod_noop_right(a, b + c, m);
    assert(fmul(2int, 2int) == 4int);
    assert(fmul(b, 2) == (2 * b) % m) by {
        vstd::arithmetic::mul::lemma_mul_is_commutative(b, 2);
    }
    assert(fmul(c, 4) == (4 * c) % m) by {
        vstd::arithmetic::mul::lemma_mul_is_commutative(c, 4);
    }
    vstd::arithmetic::div_mod::lemma_add_mod_noop(2 * b, 4 * c, m);
    vstd::arithmetic::div_mod::lemma_add_mod_noop_right(a, 2 * b + 4 * c, m);
}

/// A quadratic's value collapses to one residue of an integer expression.
proof fn lemma_qeval_as_residue(a: int, b: int, c: int, r: int)
    ensures
        qeval(a, b, c, r) == (a + b * r + c * (r * r)) % 17,
{
    let m = 17int;
    vstd::arithmetic::div_mod::lemma_mul_mod_noop_right(c, r * r, m);
    vstd::arithmetic::div_mod::lemma_add_mod_noop(b * r, c * (r * r), m);
    vstd::arithmetic::div_mod::lemma_add_mod_noop_right(a, b * r + c * (r * r), m);
}

/// The integer combination behind the interpolant is the quadratic's own
/// value, up to a multiple of the modulus.
proof fn lemma_lag3_core(a: int, b: int, c: int, r: int)
    ensures
        (a * ((r - 1) * (r - 2) * 9) + (a + b + c) * (r * (r - 2) * 16) + (a + 2 * b + 4 * c) * (
        r * (r - 1) * 9)) % 17 == (a + b * r + c * (r * r)) % 17,
{
    let m = 17int;
    let rr = r * r;
    let l0 = (r - 1) * (r - 2) * 9;
    let l1 = r * (r - 2) * 16;
    let l2 = r * (r - 1) * 9;
    assert(a * l0 == 9 * (a * rr) - 27 * (a * r) + 18 * a) by (nonlinear_arith)
        requires
            l0 == (r - 1) * (r - 2) * 9,
            rr == r * r,
    ;
    assert((a + b + c) * l1 == 16 * (a * rr) - 32 * (a * r) + 16 * (b * rr) - 32 * (b * r) + 16 * (
    c * rr) - 32 * (c * r)) by (nonlinear_arith)
        requires
            l1 == r * (r - 2) * 16,
            rr == r * r,
    ;
    assert((a + 2 * b + 4 * c) * l2 == 9 * (a * rr) - 9 * (a * r) + 18 * (b * rr) - 18 * (b * r)
        + 36 * (c * rr) - 36 * (c * r)) by (nonlinear_arith)
        requires
            l2 == r * (r - 1) * 9,
            rr == r * r,
    ;
    let target = a + b * r + c * rr;
    let k = 2 * (a * rr) - 4 * (a * r) + a + 2 * (b * rr) - 3 * (b * r) + 3 * (c * rr) - 4 * (c
        * r);
    assert(a * l0 + (a + b + c) * l1 + (a + 2 * b + 4 * c) * l2 == m * k + target);
    vstd::arithmetic::div_mod::lemma_mod_multiples_vanish(k, target, m);
}

/// Lagrange interpolation is exact on quadratics: evaluating the
/// interpolant through a quadratic's values at 0, 1 and 2 at any point
/// gives the quadratic's own value there.
pub proof fn lemma_lag3_interpolates(a: int, b: int, c: int, r: int)
    requires
        0 <= a < 17,
        0 <= b < 17,
        0 <= c < 17,
        0 <= r < 17,
    ensures
        lag3(qeval(a, b, c, 0), qeval(a, b, c, 1), qeval(a, b, c, 2), r) == qeval(a, b, c, r),
{
    let m = 17int;
    let l0 = (r - 1) * (r - 2) * 9;
    let l1 = r * (r - 2) * 16;
    let l2 = r * (r - 1) * 9;
    let v1 = (a + b + c) % m;
    let v2 = (a + 2 * b + 4 * c) % m;
    lemma_qeval_samples(a, b, c);
    lemma_lag3_as_residue(a, v1, v2, r);
    // replace the two reduced samples by their integer forms
    vstd::arithmetic::div_mod::lemma_mul_mod_noop_left(a + b + c, l1, m);
    vstd::arithmetic::div_mod::lemma_mul_mod_noop_left(a + 2 * b + 4 * c, l2, m);
    vstd::arithmetic::div_mod::lemma_add_mod_noop(a * l0, v1 * l1, m);
    vstd::arithmetic::div_mod::lemma_add_mod_noop(a * l0 + v1 * l1, v2 * l2, m);
    vstd::arithmetic::div_mod::lemma_add_mod_noop(a * l0, (a + b + c) * l1, m);
    vstd::arithmetic::div_mod::lemma_add_mod_noop(a * l0 + (a + b + c) * l1, (a + 2 * b + 4 * c)
        * l2, m);
    lemma_lag3_core(a, b, c, r);
    lemma_qeval_as_residue(a, b, c, r);
}

/// A product of two residues times a small constant,/// A product of two residues times a small constant,/// A product of two residues times a small constant, with the inner mods
/// collapsed to one.
proof fn lemma_residue_product(x: int, y: int, c: int)
    ensures
        fmul(fmul(x, y), c) == (x * y * c) % 17,
{
    let m = 17int;
    vstd::arithmetic::div_mod::lemma_mod_twice(x, m);
    vstd::arithmetic::div_mod::lemma_mul_mod_noop(x % m, y % m, m);
    vstd::arithmetic::div_mod::lemma_mul_mod_noop_left(x * y, c, m);
}

/// A level's width is an accessible power of two.
pub open spec fn level_pow2(layers: Seq<CircuitLayer>, ninputs: nat, i: int) -> bool {
    exists|m: nat| m < 31 && level_width(layers, ninputs, i) == #[trigger] exp2(m)
}

/// The folded wiring extension of one gate kind under a two-point claim.
pub open spec fn combined_wiring(
    gates: Seq<Gate>,
    kind: GateType,
    p1: Seq<int>,
    p2: Seq<int>,
    lam: int,
    a: Seq<int>,
    b: Seq<int>,
) -> int {
    fadd(wiring_mle(gates, kind, p1, a, b), fmul(lam, wiring_mle(gates, kind, p2, a, b)))
}

/// The polynomial of one layer's sum-check instance, evaluated at a point
/// `ab` of its `2 * mh` variables: the folded wiring extensions select the
/// gates, and `W` is the next level's extension.
pub open spec fn layer_poly(
    gates: Seq<Gate>,
    p1: Seq<int>,
    p2: Seq<int>,
    lam: int,
    nextv: Seq<int>,
    ab: Seq<int>,
    mh: nat,
) -> int {
    let a = ab.take(mh as int);
    let b = ab.skip(mh as int);
    let av = mle(nextv, a);
    let bv = mle(nextv, b);
    fadd(
        fmul(combined_wiring(gates, GateType::Add, p1, p2, lam, a, b), fadd(av, bv)),
        fmul(combined_wiring(gates, GateType::Mul, p1, p2, lam, a, b), fmul(av, bv)),
    )
}

/// The sum of the layer polynomial over the first `n` points of the
/// Boolean hypercube of its last `ms` variables, after the prefix `pre`.
pub open spec fn layer_sum(
    gates: Seq<Gate>,
    p1: Seq<int>,
    p2: Seq<int>,
    lam: int,
    nextv: Seq<int>,
    pre: Seq<int>,
    mh: nat,
    ms: nat,
    n: nat,
) -> int
    decreases n,
{
    if n == 0 {
        0int
    } else {
        fadd(
            layer_sum(gates, p1, p2, lam, nextv, pre, mh, ms, (n - 1) as nat),
            layer_poly(gates, p1, p2, lam, nextv, pre + point_of((n - 1) as nat, ms), mh),
        )
    }
}

/// A sum of arbitrary summands over the first `n` points of a Boolean
/// hypercube, each point extended on the left by a fixed prefix.
pub open spec fn cube_sum(f: spec_fn(Seq<int>) -> int, pre: Seq<int>, ms: nat, n: nat) -> int
    decreases n,
{
    if n == 0 {
        0int
    } else {
        fadd(cube_sum(f, pre, ms, (n - 1) as nat), f(pre + point_of((n - 1) as nat, ms)))
    }
}

/// The value of a partial cube sum is a reduced residue.
proof fn lemma_cube_sum_range(f: spec_fn(Seq<int>) -> int, pre: Seq<int>, ms: nat, n: nat)
    ensures
        0 <= cube_sum(f, pre, ms, n) < crate::field::MODULUS,
    decreases n,
{
    if n > 0 {
        lemma_cube_sum_range(f, pre, ms, (n - 1) as nat);
    }
}

/// The first half of a cube sum fixes the leading variable to 0.
proof fn lemma_cube_sum_low(f: spec_fn(Seq<int>) -> int, pre: Seq<int>, ms: nat, n: nat)
    requires
        n <= exp2(ms),
    ensures
        cube_sum(f, pre, ms + 1, n) == cube_sum(f, pre.push(0), ms, n),
    decreases n,
{
    if n > 0 {
        lemma_cube_sum_low(f, pre, ms, (n - 1) as nat);
        crate::sumcheck::lemma_point_split(0, (n - 1) as nat, ms);
        crate::poly::lemma_exp2_pos(ms);
        assert(0 * exp2(ms) + (n - 1) == n - 1);
        assert(pre + (seq![0int] + point_of((n - 1) as nat, ms)) =~= pre.push(0) + point_of(
            (n - 1) as nat,
            ms,
        ));
    }
}

/// The second half of a cube sum fixes the leading variable to 1.
proof fn lemma_cube_sum_high(f: spec_fn(Seq<int>) -> int, pre: Seq<int>, ms: nat, n: nat)
    requires
        n <= exp2(ms),
    ensures
        cube_sum(f, pre, ms + 1, (exp2(ms) + n) as nat) == fadd(
            cube_sum(f, pre, ms + 1, exp2(ms)),
            cube_sum(f, pre.push(1), ms, n),
        ),
    decreases n,
{
    let s_half = cube_sum(f, pre, ms + 1, exp2(ms));
    if n == 0 {
        lemma_cube_sum_range(f, pre, ms + 1, exp2(ms));
    } else {
        lemma_cube_sum_high(f, pre, ms, (n - 1) as nat);
        crate::sumcheck::lemma_point_split(1, (n - 1) as nat, ms);
        assert(1 * exp2(ms) + (n - 1) == exp2(ms) + n - 1);
        assert(pre + (seq![1int] + point_of((n - 1) as nat, ms)) =~= pre.push(1) + point_of(
            (n - 1) as nat,
            ms,
        ));
        let e = f(pre.push(1) + point_of((n - 1) as nat, ms));
        crate::field::lemma_fadd_assoc(
            s_half,
            cube_sum(f, pre.push(1), ms, (n - 1) as nat),
            e,
        );
    }
}

/// The summand of one layer's sum-check instance, as a function of the
/// point alone.
pub open spec fn layer_fn(
    gates: Seq<Gate>,
    p1: Seq<int>,
    p2: Seq<int>,
    lam: int,
    nextv: Seq<int>,
    mh: nat,
) -> spec_fn(Seq<int>) -> int {
    |ab: Seq<int>| layer_poly(gates, p1, p2, lam, nextv, ab, mh)
}

/// A layer sum is the cube sum of the layer's summand function.
pub proof fn lemma_layer_sum_is_cube(
    gates: Seq<Gate>,
    p1: Seq<int>,
    p2: Seq<int>,
    lam: int,
    nextv: Seq<int>,
    pre: Seq<int>,
    mh: nat,
    ms: nat,
    n: nat,
)
    ensures
        layer_sum(gates, p1, p2, lam, nextv, pre, mh, ms, n) == cube_sum(
            layer_fn(gates, p1, p2, lam, nextv, mh),
            pre,
            ms,
            n,
        ),
    decreases n,
{
    if n > 0 {
        lemma_layer_sum_is_cube(gates, p1, p2, lam, nextv, pre, mh, ms, (n - 1) as nat);
    }
}

/// Round consistency for a layer's sum-check: the sum of the layer
/// polynomial with one more free round variable equals the sum of its two
/// restrictions that pin that variable to 0 and to 1.  Instantiated at a
/// prefix ending in the previous challenge, this says that an honest round
/// polynomial's values at 0 and 1 add up to the value carried from the
/// previous round.
pub proof fn lemma_layer_round_consistency(
    gates: Seq<Gate>,
    p1: Seq<int>,
    p2: Seq<int>,
    lam: int,
    nextv: Seq<int>,
    pre: Seq<int>,
    mh: nat,
    ms: nat,
)
    ensures
        layer_sum(gates, p1, p2, lam, nextv, pre, mh, ms + 1, exp2(ms + 1)) == fadd(
            layer_sum(gates, p1, p2, lam, nextv, pre.push(0), mh, ms, exp2(ms)),
            layer_sum(gates, p1, p2, lam, nextv, pre.push(1), mh, ms, exp2(ms)),
        ),
{
    let f = layer_fn(gates, p1, p2, lam, nextv, mh);
    assert(exp2(ms + 1) == 2 * exp2(ms));
    lemma_cube_sum_high(f, pre, ms, exp2(ms));
    lemma_cube_sum_low(f, pre, ms, exp2(ms));
    lemma_layer_sum_is_cube(gates, p1, p2, lam, nextv, pre, mh, ms + 1, exp2(ms + 1));
    lemma_layer_sum_is_cube(gates, p1, p2, lam, nextv, pre.push(0), mh, ms, exp2(ms));
    lemma_layer_sum_is_cube(gates, p1, p2, lam, nextv, pre.push(1), mh, ms, exp2(ms));
}

/// Copies a range of a vector of field elements.
pub fn vec_range(v: &Vec<Fq>, lo: usize, hi: usize) -> (r: Vec<Fq>)
    requires
        lo <= hi <= v@.len(),
    ensures
        r@ == v@.subrange(lo as int, hi as int),
{
    let mut r: Vec<Fq> = Vec::new();
    let mut i: usize = lo;
    while i < hi
        invariant
            lo <= i <= hi <= v@.len(),
            r@ == v@.subrange(lo as int, i as int),
        decreases hi - i,
    {
        r.push(v[i]);
        proof {
            assert(v@.subrange(lo as int, i as int + 1) =~= v@.subrange(lo as int, i as int).push(
                v@[i as int],
            ));
        }
        i = i + 1;
    }
    r
}

/// Copies a vector of field elements.
pub fn copy_fqs(v: &Vec<Fq>) -> (r: Vec<Fq>)
    ensures
        r@ == v@,
{
    let r = vec_range(v, 0, v.len());
    proof {
        assert(v@.subrange(0, v@.len() as int) =~= v@);
    }
    r
}

/// Evaluates the layer polynomial at one point of its variables.
fn layer_poly_eval(
    gates: &Vec<Gate>,
    p1: &Vec<Fq>,
    p2: &Vec<Fq>,
    lam: Fq,
    nextv: &Vec<Fq>,
    ab: &Vec<Fq>,
    mh: usize,
) -> (r: Fq)
    requires
        fqs_wf(p1@),
        fqs_wf(p2@),
        fqs_wf(nextv@),
        fqs_wf(ab@),
        lam.wf(),
        mh < 63,
        nextv@.len() == exp2(mh as nat),
        ab@.len() == 2 * mh,
    ensures
        r.wf(),
        r@ == layer_poly(gates@, fqs(p1@), fqs(p2@), lam@, fqs(nextv@), fqs(ab@), mh as nat),
{
    let a = vec_range(ab, 0, mh);
    let b = vec_range(ab, mh, 2 * mh);
    proof {
        assert(fqs(a@) =~= fqs(ab@).take(mh as int));
        assert(fqs(b@) =~= fqs(ab@).skip(mh as int));
        assert(fqs_wf(a@));
        assert(fqs_wf(b@));
    }
    let av = mle_eval(nextv, &a);
    let bv = mle_eval(nextv, &b);
    let add1 = wiring_eval(gates, GateType::Add, p1, &a, &b);
    let add2 = wiring_eval(gates, GateType::Add, p2, &a, &b);
    let mul1 = wiring_eval(gates, GateType::Mul, p1, &a, &b);
    let mul2 = wiring_eval(gates, GateType::Mul, p2, &a, &b);
    let addc = add1.add(lam.mul(add2));
    let mulc = mul1.add(lam.mul(mul2));
    addc.mul(av.add(bv)).add(mulc.mul(av.mul(bv)))
}

/// The prover's state: the evaluated circuit and, within a layer, the
/// current claim and the challenges bound so far.
pub struct Prover {
    pub circuit: Circuit,
    pub levels: Vec<Vec<Fq>>,
    pub layer: usize,
    pub in_layer: bool,
    pub p1: Vec<Fq>,
    pub p2: Vec<Fq>,
    pub lambda: Fq,
    pub mh: usize,
    pub bound: Vec<Fq>,
}

impl Prover {
    /// The prover's internal consistency: its levels are the circuit's
    /// evaluation on the stored input level, and in-layer bookkeeping is
    /// in range.
    pub open spec fn wf(self) -> bool {
        &&& self.circuit.wf()
        &&& self.levels@.len() == self.circuit.layers@.len() + 1
        &&& (forall|i: int| 0 <= i < self.levels@.len() ==> fqs_wf((#[trigger] self.levels@[i])@))
        &&& level_views(self.levels@) == eval_levels(
            self.circuit.layers@,
            fqs(self.levels@[self.levels@.len() - 1]@),
        )
        &&& self.layer <= self.circuit.layers@.len()
        &&& self.levels@[self.levels@.len() - 1]@.len() == self.circuit.num_inputs
        &&& fqs_wf(self.p1@)
        &&& fqs_wf(self.p2@)
        &&& fqs_wf(self.bound@)
        &&& self.lambda.wf()
        &&& (self.in_layer ==> {
            &&& self.layer < self.circuit.layers@.len()
            &&& self.mh < 31
            &&& self.levels@[self.layer + 1]@.len() == exp2(self.mh as nat)
            &&& self.bound@.len() <= 2 * self.mh
        })
    }

    /// The gates of the layer currently being reduced.
    pub open spec fn cur_gates(self) -> Seq<Gate> {
        self.circuit.layers@[self.layer as int].gates@
    }

    /// The value table of the next level, as residues.
    pub open spec fn next_level(self) -> Seq<int> {
        fqs(self.levels@[self.layer + 1]@)
    }

    /// The first `upto` entries of `evals` are the honest round-`j`
    /// polynomial values at 0, 1, 2.
    pub open spec fn honest_round_evals(self, j: int, evals: Seq<Fq>, upto: int) -> bool {
        forall|t2: int|
            0 <= t2 < upto ==> (#[trigger] evals[t2])@ == layer_sum(
                self.cur_gates(),
                fqs(self.p1@),
                fqs(self.p2@),
                self.lambda@,
                self.next_level(),
                fqs(self.bound@).push(t2),
                self.mh as nat,
                (2 * self.mh - j - 1) as nat,
                exp2((2 * self.mh - j - 1) as nat),
            )
    }

    /// Builds a prover by evaluating the circuit on the input; an input of
    /// the wrong length is rejected.
    pub fn new(circuit: Circuit, input: &Vec<Fq>) -> (r: Result<Prover, CircuitError>)
        requires
            circuit.wf(),
            fqs_wf(input@),
        ensures
            input@.len() != circuit.num_inputs ==> (r matches Err(e) && e
                == CircuitError::InputLength),
            input@.len() == circuit.num_inputs ==> (r matches Ok(p) && p.wf() && p.layer == 0
                && !p.in_layer && p.circuit == circuit && level_views(p.levels@) == eval_levels(
                circuit.layers@,
                fqs(input@),
            )),
    {
        let ev = match circuit.evaluate(input) {
            Ok(ev) => ev,
            Err(e) => {
                return Err(e);
            },
        };
        proof {
            lemma_eval_levels_len(circuit.layers@, fqs(input@));
            assert(level_views(ev.layers@)[ev.layers@.len() - 1] == fqs(input@));
            assert(fqs(ev.layers@[ev.layers@.len() - 1]@) == fqs(input@));
        }
        Ok(
            Prover {
                circuit,
                levels: ev.layers,
                layer: 0,
                in_layer: false,
                p1: Vec::new(),
                p2: Vec::new(),
                lambda: Fq::zero(),
                mh: 0,
                bound: Vec::new(),
            },
        )
    }

    /// Opens the protocol with the circuit's computed outputs.
    pub fn start_protocol(&self) -> (msg: ProverMessage)
        requires
            self.wf(),
        ensures
            msg matches ProverMessage::Begin { circuit_outputs } && circuit_outputs@
                == self.levels@[0]@,
    {
        proof {
            assert(self.levels@.len() >= 1);
        }
        let outputs = copy_fqs(&self.levels[0]);
        ProverMessage::Begin { circuit_outputs: outputs }
    }

    /// Starts the sum-check of layer `i`, taking the verifier's claim
    /// data: the output-layer point for the first layer, and the folded
    /// two-point claim afterwards.
    pub fn start_round(&mut self, i: usize, r: &Vec<Fq>) -> (msg: ProverMessage)
        requires
            old(self).wf(),
            i < old(self).circuit.layers@.len(),
            fqs_wf(r@),
        ensures
            final(self).wf(),
            msg is LayerStart,
            final(self).circuit == old(self).circuit,
            final(self).levels == old(self).levels,
            final(self).layer == i,
            final(self).bound@.len() == 0,
            final(self).in_layer == level_pow2(
                old(self).circuit.layers@,
                old(self).circuit.num_inputs as nat,
                i + 1,
            ),
            final(self).in_layer ==> level_width(
                old(self).circuit.layers@,
                old(self).circuit.num_inputs as nat,
                i + 1,
            ) == exp2(final(self).mh as nat),
            i == 0 ==> final(self).p1@ == r@ && final(self).p2@ == r@ && final(self).lambda@ == 0,
            i > 0 && r@.len() == 0 ==> final(self).p1@ == r@ && final(self).p2@ == r@
                && final(self).lambda@ == 0,
            i > 0 && r@.len() >= 1 ==> {
                let m2 = (r@.len() - 1) as int / 2;
                &&& final(self).p1@ == r@.subrange(0, m2)
                &&& final(self).p2@ == r@.subrange(m2, 2 * m2)
                &&& final(self).lambda == r@[r@.len() - 1]
            },
    {
        if i == 0 || r.len() == 0 {
            self.p1 = copy_fqs(r);
            self.p2 = copy_fqs(r);
            self.lambda = Fq::zero();
        } else {
            let m2 = (r.len() - 1) / 2;
            self.p1 = vec_range(r, 0, m2);
            self.p2 = vec_range(r, m2, 2 * m2);
            self.lambda = r[r.len() - 1];
        }
        self.bound = Vec::new();
        self.layer = i;
        let d = self.circuit.layers.len();
        match self.circuit.num_vars_at(i + 1) {
            Some(m) => {
                if m < 31 {
                    self.mh = m;
                    self.in_layer = true;
                    proof {
                        lemma_level_view_width(self, i + 1);
                    }
                } else {
                    self.mh = 0;
                    self.in_layer = false;
                    proof {
                        let width = level_width(
                            self.circuit.layers@,
                            self.circuit.num_inputs as nat,
                            i + 1,
                        );
                        assert forall|m2: nat| m2 < 31 implies width != #[trigger] exp2(m2) by {
                            crate::poly::lemma_exp2_lt(m2, m as nat);
                        }
                    }
                }
            },
            None => {
                self.mh = 0;
                self.in_layer = false;
                proof {
                    assert(!level_pow2(
                        self.circuit.layers@,
                        self.circuit.num_inputs as nat,
                        i + 1,
                    ));
                }
            },
        }
        ProverMessage::LayerStart
    }

    /// Records a challenge from the verifier as the next bound variable.
    pub fn receive_verifier_msg(&mut self, msg: VerifierMessage)
        requires
            old(self).wf(),
            old(self).in_layer,
            old(self).bound@.len() < 2 * old(self).mh,
            msg matches VerifierMessage::R { r } ==> fqs_wf(r@),
            msg matches VerifierMessage::FinalChallenge { r } ==> r.wf(),
        ensures
            final(self).wf(),
            final(self).circuit == old(self).circuit,
            final(self).levels == old(self).levels,
            final(self).layer == old(self).layer,
            final(self).in_layer == old(self).in_layer,
            final(self).mh == old(self).mh,
            final(self).p1 == old(self).p1,
            final(self).p2 == old(self).p2,
            final(self).lambda == old(self).lambda,
            match msg {
                VerifierMessage::R { r } => if r@.len() >= 1 {
                    final(self).bound@ == old(self).bound@.push(r@[0])
                } else {
                    final(self).bound@ == old(self).bound@
                },
                VerifierMessage::FinalChallenge { r } => final(self).bound@
                    == old(self).bound@.push(r),
            },
    {
        match msg {
            VerifierMessage::R { r } => {
                if r.len() >= 1 {
                    let c = r[0];
                    self.bound.push(c);
                }
            },
            VerifierMessage::FinalChallenge { r } => {
                self.bound.push(r);
            },
        }
    }
}

impl Prover {
    /// The prover's message for round `j` of the current layer: for
    /// `j < 2 * mh`, the round polynomial as its values at 0, 1 and 2; at
    /// `j == 2 * mh`, the two sub-claim values: the next level's extension
    /// at the two bound half-points.
    #[verifier::rlimit(50)]
    pub fn round_msg(&self, j: usize) -> (msg: ProverMessage)
        requires
            self.wf(),
            self.in_layer,
            j == self.bound@.len(),
            j <= 2 * self.mh,
        ensures
            msg matches ProverMessage::RoundPolynomial { evals } && fqs_wf(evals@) && {
                if j < 2 * self.mh {
                    &&& evals@.len() == 3
                    &&& self.honest_round_evals(j as int, evals@, 3)
                } else {
                    &&& evals@.len() == 2
                    &&& evals@[0]@ == mle(self.next_level(), fqs(self.bound@).take(self.mh as int))
                    &&& evals@[1]@ == mle(self.next_level(), fqs(self.bound@).skip(self.mh as int))
                }
            },
    {
        let _d = self.circuit.layers.len();
        let li = self.layer;
        let nextv = &self.levels[li + 1];
        if j == 2 * self.mh {
            let a = vec_range(&self.bound, 0, self.mh);
            let b = vec_range(&self.bound, self.mh, 2 * self.mh);
            proof {
                assert(fqs(a@) =~= fqs(self.bound@).take(self.mh as int));
                assert(fqs(b@) =~= fqs(self.bound@).skip(self.mh as int));
                assert(fqs_wf(a@));
                assert(fqs_wf(b@));
            }
            let wa = mle_eval(nextv, &a);
            let wb = mle_eval(nextv, &b);
            let mut evals: Vec<Fq> = Vec::new();
            evals.push(wa);
            evals.push(wb);
            ProverMessage::RoundPolynomial { evals }
        } else {
            let ms = 2 * self.mh - j - 1;
            let n = two_pow(ms);
            let mut evals: Vec<Fq> = Vec::new();
            let mut t: u64 = 0;
            while t < 3
                invariant
                    self.wf(),
                    self.in_layer,
                    j == self.bound@.len(),
                    j < 2 * self.mh,
                    ms == 2 * self.mh - j - 1,
                    n == exp2(ms as nat),
                    li == self.layer,
                    nextv@ == self.levels@[li + 1]@,
                    t <= 3,
                    evals@.len() == t,
                    fqs_wf(evals@),
                    self.honest_round_evals(j as int, evals@, t as int),
                decreases 3 - t,
            {
                let tf = Fq { v: t };
                proof {
                    assert(tf.wf());
                    assert(ms < 63);
                    assert(self.bound@.len() + 1 + ms == 2 * self.mh);
                }
                let gates2 = &self.circuit.layers[li].gates;
                let acc = sum_layer_at(
                    gates2,
                    &self.p1,
                    &self.p2,
                    self.lambda,
                    nextv,
                    &self.bound,
                    tf,
                    self.mh,
                    ms,
                );
                let ghost prev = evals@;
                evals.push(acc);
                proof {
                    assert(forall|t2: int| 0 <= t2 < t ==> evals@[t2] == prev[t2]);
                    assert(evals@[t as int]@ == layer_sum(
                        self.cur_gates(),
                        fqs(self.p1@),
                        fqs(self.p2@),
                        self.lambda@,
                        self.next_level(),
                        fqs(self.bound@).push(t as int),
                        self.mh as nat,
                        ms as nat,
                        exp2(ms as nat),
                    ));
                    assert(self.honest_round_evals(j as int, evals@, t as int + 1));
                }
                t = t + 1;
            }
            ProverMessage::RoundPolynomial { evals }
        }
    }
}

/// Sums the layer polynomial over the Boolean suffix cube after the bound
/// prefix and one fixed value for the round variable.
fn sum_layer_at(
    gates: &Vec<Gate>,
    p1: &Vec<Fq>,
    p2: &Vec<Fq>,
    lam: Fq,
    nextv: &Vec<Fq>,
    bound: &Vec<Fq>,
    tf: Fq,
    mh: usize,
    ms: usize,
) -> (r: Fq)
    requires
        fqs_wf(p1@),
        fqs_wf(p2@),
        fqs_wf(nextv@),
        fqs_wf(bound@),
        lam.wf(),
        tf.wf(),
        mh < 31,
        ms < 63,
        nextv@.len() == exp2(mh as nat),
        bound@.len() + 1 + ms == 2 * mh,
    ensures
        r.wf(),
        r@ == layer_sum(
            gates@,
            fqs(p1@),
            fqs(p2@),
            lam@,
            fqs(nextv@),
            fqs(bound@).push(tf@),
            mh as nat,
            ms as nat,
            exp2(ms as nat),
        ),
{
    let n = two_pow(ms);
    let mut acc = Fq::zero();
    let mut idx: u64 = 0;
    while idx < n
        invariant
            fqs_wf(p1@),
            fqs_wf(p2@),
            fqs_wf(nextv@),
            fqs_wf(bound@),
            lam.wf(),
            tf.wf(),
            mh < 31,
            ms < 63,
            nextv@.len() == exp2(mh as nat),
            bound@.len() + 1 + ms == 2 * mh,
            n == exp2(ms as nat),
            idx <= n,
            acc.wf(),
            acc@ == layer_sum(
                gates@,
                fqs(p1@),
                fqs(p2@),
                lam@,
                fqs(nextv@),
                fqs(bound@).push(tf@),
                mh as nat,
                ms as nat,
                idx as nat,
            ),
        decreases n - idx,
    {
        let mut ab = copy_fqs(bound);
        ab.push(tf);
        let mut suffix = index_point(idx, ms);
        let ghost sv = suffix@;
        ab.append(&mut suffix);
        proof {
            assert(ab@ == bound@.push(tf) + sv);
            assert(fqs_wf(ab@));
            assert(ab@.len() == 2 * mh);
            assert(fqs(ab@) =~= fqs(bound@).push(tf@) + point_of(idx as nat, ms as nat));
        }
        let v = layer_poly_eval(gates, p1, p2, lam, nextv, &ab, mh);
        acc = acc.add(v);
        idx = idx + 1;
    }
    acc
}

/// Checks that every element of a vector is a reduced residue.
pub fn all_wf(v: &Vec<Fq>) -> (b: bool)
    ensures
        b == fqs_wf(v@),
{
    let mut i: usize = 0;
    while i < v.len()
        invariant
            i <= v@.len(),
            forall|j: int| 0 <= j < i ==> (#[trigger] v@[j]).wf(),
        decreases v@.len() - i,
    {
        if v[i].v >= crate::field::MODULUS {
            return false;
        }
        i = i + 1;
    }
    true
}

/// Where the verifier stands in the protocol.
#[derive(Clone, Copy, PartialEq, Eq, Structural, Debug)]
pub enum Phase {
    /// Waiting for the opening message.
    Start,
    /// Between layers: waiting for the next layer's start.
    LayerIdle,
    /// Inside a layer's rounds.
    InLayer,
    /// The last round polynomial arrived; its challenge is still to be
    /// drawn.
    LastPending,
    /// Waiting for the layer's two sub-claim values.
    AwaitClaims,
    /// The reduction reached the input layer.
    Done,
}

/// The verifier's state: the current claim, the running round value, and
/// the challenges bound in the current layer.
pub struct Verifier {
    pub circuit: Circuit,
    pub phase: Phase,
    pub layer: usize,
    pub mh: usize,
    pub claim_p1: Vec<Fq>,
    pub claim_p2: Vec<Fq>,
    pub claim_lambda: Fq,
    pub claim_value: Fq,
    pub carried: Fq,
    pub bound: Vec<Fq>,
    pub last_evals: Vec<Fq>,
}

impl Verifier {
    /// Internal consistency of the verifier's bookkeeping.
    pub open spec fn wf(self) -> bool {
        &&& self.circuit.wf()
        &&& self.circuit.layers@.len() >= 1
        &&& fqs_wf(self.claim_p1@)
        &&& fqs_wf(self.claim_p2@)
        &&& fqs_wf(self.bound@)
        &&& fqs_wf(self.last_evals@)
        &&& self.claim_lambda.wf()
        &&& self.claim_value.wf()
        &&& self.carried.wf()
        &&& self.mh < 31
        &&& (self.phase is LayerIdle ==> self.layer < self.circuit.layers@.len())
        &&& (self.phase is InLayer ==> self.layer < self.circuit.layers@.len() && 1 <= self.mh
            && self.bound@.len() < 2 * self.mh)
        &&& (self.phase is LastPending ==> self.layer < self.circuit.layers@.len() && 1 <= self.mh
            && self.bound@.len() == 2 * self.mh - 1 && self.last_evals@.len() == 3)
        &&& (self.phase is AwaitClaims ==> self.layer < self.circuit.layers@.len()
            && self.bound@.len() == 2 * self.mh)
    }

    /// The gates of the layer now being checked.
    pub open spec fn cur_gates(self) -> Seq<Gate> {
        self.circuit.layers@[self.layer as int].gates@
    }

    /// Builds a verifier for a circuit.
    pub fn new(circuit: Circuit) -> (v: Verifier)
        requires
            circuit.wf(),
            circuit.layers@.len() >= 1,
        ensures
            v.wf(),
            v.phase is Start,
            v.circuit == circuit,
    {
        Verifier {
            circuit,
            phase: Phase::Start,
            layer: 0,
            mh: 0,
            claim_p1: Vec::new(),
            claim_p2: Vec::new(),
            claim_lambda: Fq::zero(),
            claim_value: Fq::zero(),
            carried: Fq::zero(),
            bound: Vec::new(),
            last_evals: Vec::new(),
        }
    }
}

impl Verifier {
    /// Processes one prover message: validates it against the current
    /// state, performs the round or oracle check it calls for, draws any
    /// challenge, and answers.  A message of the wrong tag is a protocol
    /// violation; a failed check is a rejection.
    pub fn receive_prover_msg(&mut self, msg: ProverMessage, rng: &mut StdRng) -> (r: Result<
        VerifierMessage,
        VerifierError,
    >)
        requires
            old(self).wf(),
        ensures
            final(self).wf(),
            final(self).circuit == old(self).circuit,
            r is Err ==> *final(self) == *old(self),
            r matches Err(e) ==> (e is ProtocolViolation || e is Rejected),
            match msg {
                ProverMessage::Begin { circuit_outputs } => {
                    if old(self).phase is Start && fqs_wf(circuit_outputs@) && level_pow2(
                        old(self).circuit.layers@,
                        old(self).circuit.num_inputs as nat,
                        0,
                    ) && circuit_outputs@.len() == level_width(
                        old(self).circuit.layers@,
                        old(self).circuit.num_inputs as nat,
                        0,
                    ) {
                        &&& r matches Ok(vm)
                        &&& vm matches VerifierMessage::R { r: z }
                        &&& fqs_wf(z@)
                        &&& circuit_outputs@.len() == exp2(z@.len())
                        &&& final(self).claim_p1@ == z@
                        &&& final(self).claim_p2@ == z@
                        &&& final(self).claim_lambda@ == 0
                        &&& final(self).claim_value@ == mle(fqs(circuit_outputs@), fqs(z@))
                        &&& final(self).phase is LayerIdle
                        &&& final(self).layer == 0
                    } else {
                        r matches Err(e) && e is ProtocolViolation
                    }
                },
                ProverMessage::LayerStart => {
                    if old(self).phase is LayerIdle && level_pow2(
                        old(self).circuit.layers@,
                        old(self).circuit.num_inputs as nat,
                        old(self).layer + 1,
                    ) {
                        &&& r matches Ok(vm)
                        &&& vm matches VerifierMessage::R { r: ra }
                        &&& ra@.len() == 0
                        &&& level_width(
                            old(self).circuit.layers@,
                            old(self).circuit.num_inputs as nat,
                            old(self).layer + 1,
                        ) == exp2(final(self).mh as nat)
                        &&& final(self).phase == (if final(self).mh == 0 {
                            Phase::AwaitClaims
                        } else {
                            Phase::InLayer
                        })
                        &&& final(self).carried == old(self).claim_value
                        &&& final(self).bound@.len() == 0
                        &&& final(self).layer == old(self).layer
                        &&& final(self).claim_p1 == old(self).claim_p1
                        &&& final(self).claim_p2 == old(self).claim_p2
                        &&& final(self).claim_lambda == old(self).claim_lambda
                        &&& final(self).claim_value == old(self).claim_value
                    } else {
                        r matches Err(e) && e is ProtocolViolation
                    }
                },
                ProverMessage::RoundPolynomial { evals } => {
                    if old(self).phase is InLayer {
                        if evals@.len() == 3 && fqs_wf(evals@) && fadd(evals@[0]@, evals@[1]@)
                            == old(self).carried@ {
                            &&& r matches Ok(vm)
                            &&& (if old(self).bound@.len() < 2 * old(self).mh - 1 {
                                &&& vm matches VerifierMessage::R { r: rv }
                                &&& rv@.len() == 1
                                &&& rv@[0].wf()
                                &&& final(self).bound@ == old(self).bound@.push(rv@[0])
                                &&& final(self).carried@ == lag3(
                                    evals@[0]@,
                                    evals@[1]@,
                                    evals@[2]@,
                                    rv@[0]@,
                                )
                                &&& final(self).phase is InLayer
                            } else {
                                &&& vm matches VerifierMessage::R { r: rv }
                                &&& rv@.len() == 0
                                &&& final(self).last_evals@ == evals@
                                &&& final(self).bound == old(self).bound
                                &&& final(self).carried == old(self).carried
                                &&& final(self).phase is LastPending
                            })
                            &&& final(self).layer == old(self).layer
                            &&& final(self).mh == old(self).mh
                            &&& final(self).claim_p1 == old(self).claim_p1
                            &&& final(self).claim_p2 == old(self).claim_p2
                            &&& final(self).claim_lambda == old(self).claim_lambda
                            &&& final(self).claim_value == old(self).claim_value
                        } else {
                            r matches Err(e) && e is Rejected
                        }
                    } else if old(self).phase is AwaitClaims {
                        if evals@.len() == 2 && fqs_wf(evals@) && fadd(
                            fmul(
                                combined_wiring(
                                    old(self).cur_gates(),
                                    GateType::Add,
                                    fqs(old(self).claim_p1@),
                                    fqs(old(self).claim_p2@),
                                    old(self).claim_lambda@,
                                    fqs(old(self).bound@).take(old(self).mh as int),
                                    fqs(old(self).bound@).skip(old(self).mh as int),
                                ),
                                fadd(evals@[0]@, evals@[1]@),
                            ),
                            fmul(
                                combined_wiring(
                                    old(self).cur_gates(),
                                    GateType::Mul,
                                    fqs(old(self).claim_p1@),
                                    fqs(old(self).claim_p2@),
                                    old(self).claim_lambda@,
                                    fqs(old(self).bound@).take(old(self).mh as int),
                                    fqs(old(self).bound@).skip(old(self).mh as int),
                                ),
                                fmul(evals@[0]@, evals@[1]@),
                            ),
                        ) == old(self).carried@ {
                            &&& r matches Ok(vm)
                            &&& vm matches VerifierMessage::R { r: rv }
                            &&& rv@ == old(self).bound@.push(final(self).claim_lambda)
                            &&& fqs_wf(rv@)
                            &&& final(self).claim_lambda.wf()
                            &&& final(self).claim_p1@ == old(self).bound@.take(old(self).mh as int)
                            &&& final(self).claim_p2@ == old(self).bound@.skip(old(self).mh as int)
                            &&& final(self).claim_value@ == fadd(
                                evals@[0]@,
                                fmul(final(self).claim_lambda@, evals@[1]@),
                            )
                            &&& final(self).layer == old(self).layer + 1
                            &&& final(self).phase == (if final(self).layer
                                == final(self).circuit.layers@.len() {
                                Phase::Done
                            } else {
                                Phase::LayerIdle
                            })
                        } else {
                            r matches Err(e) && e is Rejected
                        }
                    } else {
                        r matches Err(e) && e is ProtocolViolation
                    }
                },
            },
    {
        match msg {
            ProverMessage::Begin { circuit_outputs } => {
                if !(matches!(self.phase, Phase::Start)) {
                    return Err(VerifierError::ProtocolViolation);
                }
                if !all_wf(&circuit_outputs) {
                    return Err(VerifierError::ProtocolViolation);
                }
                let m0 = match self.circuit.num_vars_at(0) {
                    Some(m) => m,
                    None => {
                        proof {
                            assert(!level_pow2(
                                self.circuit.layers@,
                                self.circuit.num_inputs as nat,
                                0,
                            ));
                        }
                        return Err(VerifierError::ProtocolViolation);
                    },
                };
                if m0 >= 31 {
                    proof {
                        let width = level_width(
                            self.circuit.layers@,
                            self.circuit.num_inputs as nat,
                            0,
                        );
                        assert forall|m2: nat| m2 < 31 implies width != #[trigger] exp2(m2) by {
                            crate::poly::lemma_exp2_lt(m2, m0 as nat);
                        }
                    }
                    return Err(VerifierError::ProtocolViolation);
                }
                let w0 = two_pow(m0);
                if (circuit_outputs.len() as u64) != w0 {
                    return Err(VerifierError::ProtocolViolation);
                }
                let mut z: Vec<Fq> = Vec::new();
                let mut zi: usize = 0;
                while zi < m0
                    invariant
                        zi <= m0,
                        z@.len() == zi,
                        fqs_wf(z@),
                    decreases m0 - zi,
                {
                    let c = sample_fq(rng);
                    z.push(c);
                    zi = zi + 1;
                }
                let v = mle_eval(&circuit_outputs, &z);
                self.claim_p1 = copy_fqs(&z);
                self.claim_p2 = copy_fqs(&z);
                self.claim_lambda = Fq::zero();
                self.claim_value = v;
                self.phase = Phase::LayerIdle;
                self.layer = 0;
                Ok(VerifierMessage::R { r: z })
            },
            ProverMessage::LayerStart => {
                if !(matches!(self.phase, Phase::LayerIdle)) {
                    return Err(VerifierError::ProtocolViolation);
                }
                let li = self.layer;
                let layer_total = self.circuit.layers.len();
                proof {
                    assert(li < layer_total);
                }
                let m = match self.circuit.num_vars_at(li + 1) {
                    Some(m) => m,
                    None => {
                        proof {
                            assert(!level_pow2(
                                self.circuit.layers@,
                                self.circuit.num_inputs as nat,
                                li + 1,
                            ));
                        }
                        return Err(VerifierError::ProtocolViolation);
                    },
                };
                if m >= 31 {
                    proof {
                        let width = level_width(
                            self.circuit.layers@,
                            self.circuit.num_inputs as nat,
                            li + 1,
                        );
                        assert forall|m2: nat| m2 < 31 implies width != #[trigger] exp2(m2) by {
                            crate::poly::lemma_exp2_lt(m2, m as nat);
                        }
                    }
                    return Err(VerifierError::ProtocolViolation);
                }
                self.mh = m;
                self.carried = self.claim_value;
                self.bound = Vec::new();
                if m == 0 {
                    self.phase = Phase::AwaitClaims;
                } else {
                    self.phase = Phase::InLayer;
                }
                Ok(VerifierMessage::R { r: Vec::new() })
            },
            ProverMessage::RoundPolynomial { evals } => {
                if matches!(self.phase, Phase::InLayer) {
                    if evals.len() != 3 {
                        return Err(VerifierError::Rejected);
                    }
                    if !all_wf(&evals) {
                        return Err(VerifierError::Rejected);
                    }
                    let e0 = evals[0];
                    let e1 = evals[1];
                    let e2 = evals[2];
                    let both = e0.add(e1);
                    if !(both == self.carried) {
                        return Err(VerifierError::Rejected);
                    }
                    if self.bound.len() < 2 * self.mh - 1 {
                        let rc = sample_fq(rng);
                        let nc = lagrange3(e0, e1, e2, rc);
                        self.carried = nc;
                        self.bound.push(rc);
                        let mut rv: Vec<Fq> = Vec::new();
                        rv.push(rc);
                        Ok(VerifierMessage::R { r: rv })
                    } else {
                        self.last_evals = evals;
                        self.phase = Phase::LastPending;
                        Ok(VerifierMessage::R { r: Vec::new() })
                    }
                } else if matches!(self.phase, Phase::AwaitClaims) {
                    if evals.len() != 2 {
                        return Err(VerifierError::Rejected);
                    }
                    if !all_wf(&evals) {
                        return Err(VerifierError::Rejected);
                    }
                    let wa = evals[0];
                    let wb = evals[1];
                    let li = self.layer;
                    let d = self.circuit.layers.len();
                    proof {
                        assert(li < d);
                    }
                    let gates = &self.circuit.layers[li].gates;
                    let a = vec_range(&self.bound, 0, self.mh);
                    let b = vec_range(&self.bound, self.mh, 2 * self.mh);
                    proof {
                        assert(fqs(a@) =~= fqs(self.bound@).take(self.mh as int));
                        assert(fqs(b@) =~= fqs(self.bound@).skip(self.mh as int));
                        assert(fqs_wf(a@));
                        assert(fqs_wf(b@));
                    }
                    let add1 = wiring_eval(gates, GateType::Add, &self.claim_p1, &a, &b);
                    let add2 = wiring_eval(gates, GateType::Add, &self.claim_p2, &a, &b);
                    let mul1 = wiring_eval(gates, GateType::Mul, &self.claim_p1, &a, &b);
                    let mul2 = wiring_eval(gates, GateType::Mul, &self.claim_p2, &a, &b);
                    let addc = add1.add(self.claim_lambda.mul(add2));
                    let mulc = mul1.add(self.claim_lambda.mul(mul2));
                    let expected = addc.mul(wa.add(wb)).add(mulc.mul(wa.mul(wb)));
                    if !(expected == self.carried) {
                        return Err(VerifierError::Rejected);
                    }
                    let lam = sample_fq(rng);
                    let nv = wa.add(lam.mul(wb));
                    let mut rv = copy_fqs(&self.bound);
                    rv.push(lam);
                    self.claim_p1 = a;
                    self.claim_p2 = b;
                    self.claim_lambda = lam;
                    self.claim_value = nv;
                    self.layer = li + 1;
                    if self.layer == d {
                        self.phase = Phase::Done;
                    } else {
                        self.phase = Phase::LayerIdle;
                    }
                    Ok(VerifierMessage::R { r: rv })
                } else {
                    Err(VerifierError::ProtocolViolation)
                }
            },
        }
    }

    /// Draws the challenge that closes a layer's last round, after its
    /// round polynomial has been received.
    pub fn final_random_point(&mut self, rng: &mut StdRng) -> (r: Result<
        VerifierMessage,
        VerifierError,
    >)
        requires
            old(self).wf(),
        ensures
            final(self).wf(),
            final(self).circuit == old(self).circuit,
            !(old(self).phase is LastPending) ==> (r matches Err(e) && e is ProtocolViolation
                && *final(self) == *old(self)),
            old(self).phase is LastPending ==> {
                &&& r matches Ok(vm)
                &&& vm matches VerifierMessage::FinalChallenge { r: rc }
                &&& rc.wf()
                &&& final(self).bound@ == old(self).bound@.push(rc)
                &&& final(self).carried@ == lag3(
                    old(self).last_evals@[0]@,
                    old(self).last_evals@[1]@,
                    old(self).last_evals@[2]@,
                    rc@,
                )
                &&& final(self).phase is AwaitClaims
                &&& final(self).layer == old(self).layer
                &&& final(self).mh == old(self).mh
                &&& final(self).claim_p1 == old(self).claim_p1
                &&& final(self).claim_p2 == old(self).claim_p2
                &&& final(self).claim_lambda == old(self).claim_lambda
                &&& final(self).claim_value == old(self).claim_value
            },
    {
        if !(matches!(self.phase, Phase::LastPending)) {
            return Err(VerifierError::ProtocolViolation);
        }
        let rc = sample_fq(rng);
        let e0 = self.last_evals[0];
        let e1 = self.last_evals[1];
        let e2 = self.last_evals[2];
        let nc = lagrange3(e0, e1, e2, rc);
        self.carried = nc;
        self.bound.push(rc);
        self.phase = Phase::AwaitClaims;
        Ok(VerifierMessage::FinalChallenge { r: rc })
    }

    /// Checks the final claim directly against the known input: the
    /// input's extension at the two final points, folded by the final
    /// scalar, must equal the final claimed value.
    pub fn check_input(&self, input: &Vec<Fq>) -> (ok: bool)
        requires
            self.wf(),
            fqs_wf(input@),
        ensures
            ok == (self.phase is Done && self.claim_p1@.len() == self.claim_p2@.len()
                && self.claim_p1@.len() < 31 && input@.len() == exp2(self.claim_p1@.len()) && fadd(
                mle(fqs(input@), fqs(self.claim_p1@)),
                fmul(self.claim_lambda@, mle(fqs(input@), fqs(self.claim_p2@))),
            ) == self.claim_value@),
    {
        if !(matches!(self.phase, Phase::Done)) {
            return false;
        }
        let m = self.claim_p1.len();
        if self.claim_p2.len() != m || m >= 31 {
            return false;
        }
        let w = two_pow(m);
        if (input.len() as u64) != w {
            return false;
        }
        let wa = mle_eval(input, &self.claim_p1);
        let wb = mle_eval(input, &self.claim_p2);
        let v = wa.add(self.claim_lambda.mul(wb));
        v == self.claim_value
    }
}

/// The width of a stored level agrees with the declared level width.
pub proof fn lemma_level_view_width(p: &Prover, i: int)
    requires
        p.circuit.wf(),
        p.levels@.len() == p.circuit.layers@.len() + 1,
        level_views(p.levels@) == eval_levels(
            p.circuit.layers@,
            fqs(p.levels@[p.levels@.len() - 1]@),
        ),
        p.levels@[p.levels@.len() - 1]@.len() == p.circuit.num_inputs,
        0 <= i <= p.circuit.layers@.len(),
    ensures
        p.levels@[i]@.len() == level_width(p.circuit.layers@, p.circuit.num_inputs as nat, i),
{
    let input = fqs(p.levels@[p.levels@.len() - 1]@);
    lemma_eval_levels_len(p.circuit.layers@, input);
    lemma_eval_levels_widths(p.circuit.layers@, p.circuit.num_inputs as nat, input, i);
    assert(level_views(p.levels@)[i] == fqs(p.levels@[i]@));
    assert(eval_levels(p.circuit.layers@.skip(i), input)[0] == eval_levels(
        p.circuit.layers@,
        input,
    )[i]) by {
        lemma_eval_levels_skip(p.circuit.layers@, input, i);
    }
}

/// Levels of a sub-circuit are the tail levels of the whole circuit.
proof fn lemma_eval_levels_skip(layers: Seq<CircuitLayer>, input: Seq<int>, i: int)
    requires
        0 <= i <= layers.len(),
    ensures
        eval_levels(layers, input).skip(i) =~= eval_levels(layers.skip(i), input),
    decreases i,
{
    if i == 0 {
        assert(layers.skip(0) =~= layers);
    } else {
        lemma_eval_levels_skip(layers, input, i - 1);
        let sub = layers.skip(i - 1);
        assert(sub.drop_first() =~= layers.skip(i));
        lemma_eval_levels_len(sub, input);
        lemma_eval_levels_len(layers, input);
        let whole = eval_levels(layers, input);
        let subl = eval_levels(sub, input);
        let rest = eval_levels(sub.drop_first(), input);
        assert(sub.len() > 0);
        assert(subl == seq![crate::circuit::layer_vals(sub[0].gates@, rest[0])] + rest);
        assert(whole.skip(i - 1) == subl);
        assert forall|n: int| 0 <= n < whole.skip(i).len() implies whole.skip(i)[n] == rest[n] by {
            assert(whole.skip(i)[n] == whole[i + n]);
            assert(whole.skip(i - 1)[n + 1] == whole[i - 1 + (n + 1)]);
            assert(subl[n + 1] == rest[n]);
        }
        assert(whole.skip(i) =~= rest);
    }
}

} // verus!
