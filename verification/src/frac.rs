//! The fractional-sum reduction and the lookup argument built on it.
//!
//! Interleaved pairs `(p_i, q_i)` are combined bottom-up by a binary-tree
//! circuit whose nodes compute the numerator and denominator of the sum of
//! two fractions; the root's numerator is zero and its denominator nonzero
//! exactly when the fractions sum to zero.  The tree is an ordinary layered
//! circuit, proved by the GKR layer reduction, and the lookup argument only
//! shapes its input.
use vstd::prelude::*;

use ark_std::rand::rngs::StdRng;

use crate::circuit::{Circuit, CircuitLayer, eval_levels, Gate, GateType, level_views,
    level_width, wiring_ok};
use crate::field::{Fq, fadd, fmul, fsub, fqs, fqs_wf};
use crate::mle::mle;
use crate::gkr::{copy_fqs, Phase, Prover, ProverMessage, Verifier, VerifierError, VerifierMessage};
use crate::poly::{exp2, lemma_exp2_pos, two_pow};

verus! {

/// How a fractional-sum run fails.
#[derive(Clone, Copy, PartialEq, Eq, Structural, Debug)]
pub enum FracError {
    /// The circuit or the input is malformed.
    Malformed,
    /// A message arrived out of sequence.
    Protocol,
    /// The root checks or the reduction rejected the instance.
    Rejected,
}

/// The add gate at position `j` of an even combination layer: it sums two
/// adjacent products of the layer below.
pub open spec fn frac_add_gate(j: int) -> Gate {
    Gate {
        kind: GateType::Add,
        left: (4 * (j / 2) + 2 * (j % 2)) as usize,
        right: (4 * (j / 2) + 2 * (j % 2) + 1) as usize,
    }
}

/// The mul gate at position `j` of an odd combination layer: the four
/// cross products of a block of two fractions.
pub open spec fn frac_mul_gate(j: int) -> Gate {
    Gate {
        kind: GateType::Mul,
        left: (4 * (j / 4) + if j % 4 == 0 {
            0int
        } else {
            1int
        }) as usize,
        right: (4 * (j / 4) + if j % 4 == 1 {
            2int
        } else {
            3int
        }) as usize,
    }
}

/// The exact wiring of the fractional-sum combination tree over `2^n`
/// fraction pairs.
pub open spec fn frac_gates_ok(layers: Seq<CircuitLayer>, n: nat) -> bool {
    &&& layers.len() == 2 * n
    &&& forall|li: int|
        0 <= li < 2 * n ==> (#[trigger] layers[li].gates@).len() == (if li % 2 == 0 {
            2 * exp2((li / 2) as nat)
        } else {
            4 * exp2((li / 2) as nat)
        })
    &&& forall|li: int, j: int|
        0 <= li < 2 * n && 0 <= j < layers[li].gates@.len() ==> #[trigger] layers[li].gates@[j]
            == (if li % 2 == 0 {
            frac_add_gate(j)
        } else {
            frac_mul_gate(j)
        })
}

/// Builds the balanced binary combination circuit over `2^n` interleaved
/// fraction pairs: each pair of levels combines adjacent fractions into
/// the numerator and denominator of their sum.
pub fn gen_circuit(n: usize) -> (c: Circuit)
    requires
        1 <= n < 30,
    ensures
        c.wf(),
        c.num_inputs == 2 * exp2(n as nat),
        frac_gates_ok(c.layers@, n as nat),
{
    let mut v: Vec<CircuitLayer> = Vec::new();
    let mut i: usize = 0;
    while i < n
        invariant
            1 <= n < 30,
            i <= n,
            v@.len() == 2 * i,
            forall|li: int|
                0 <= li < 2 * i ==> (#[trigger] v@[li].gates@).len() == (if li % 2 == 0 {
                    2 * exp2((li / 2) as nat)
                } else {
                    4 * exp2((li / 2) as nat)
                }),
            forall|li: int, j: int|
                0 <= li < 2 * i && 0 <= j < v@[li].gates@.len() ==> #[trigger] v@[li].gates@[j] == (
                if li % 2 == 0 {
                    frac_add_gate(j)
                } else {
                    frac_mul_gate(j)
                }),
        decreases n - i,
    {
        proof {
            crate::poly::lemma_exp2_cap(i as nat);
        }
        let blocks = two_pow(i);
        let mut layer1: Vec<Gate> = Vec::new();
        let mut layer2: Vec<Gate> = Vec::new();
        let mut jb: u64 = 0;
        while jb < blocks
            invariant
                jb <= blocks,
                blocks == exp2(i as nat),
                blocks <= 0x2000_0000,
                layer1@.len() == 2 * jb,
                layer2@.len() == 4 * jb,
                forall|j: int| 0 <= j < 2 * jb ==> #[trigger] layer1@[j] == frac_add_gate(j),
                forall|j: int| 0 <= j < 4 * jb ==> #[trigger] layer2@[j] == frac_mul_gate(j),
            decreases blocks - jb,
        {
            let base = 4 * (jb as usize);
            let g0 = Gate::new(GateType::Add, [base, base + 1]);
            let g1 = Gate::new(GateType::Add, [base + 2, base + 3]);
            let m0 = Gate::new(GateType::Mul, [base, base + 3]);
            let m1 = Gate::new(GateType::Mul, [base + 1, base + 2]);
            let m2 = Gate::new(GateType::Mul, [base + 1, base + 3]);
            let m3 = Gate::new(GateType::Mul, [base + 1, base + 3]);
            let ghost l1p = layer1@;
            let ghost l2p = layer2@;
            layer1.push(g0);
            layer1.push(g1);
            layer2.push(m0);
            layer2.push(m1);
            layer2.push(m2);
            layer2.push(m3);
            proof {
                assert(forall|j: int| 0 <= j < 2 * jb ==> layer1@[j] == l1p[j]);
                assert(forall|j: int| 0 <= j < 4 * jb ==> layer2@[j] == l2p[j]);
                assert forall|j: int| 2 * jb <= j < 2 * jb + 2 implies #[trigger] layer1@[j]
                    == frac_add_gate(j) by {
                    assert(j / 2 == jb && (j % 2 == j - 2 * jb)) by (nonlinear_arith)
                        requires
                            2 * jb <= j < 2 * jb + 2,
                    ;
                    assert(4 * (j / 2) + 2 * (j % 2) + 1 <= 4 * jb + 3);
                    if j == 2 * jb {
                        assert(layer1@[j] == g0);
                    } else {
                        assert(layer1@[j] == g1);
                    }
                }
                assert forall|j: int| 4 * jb <= j < 4 * jb + 4 implies #[trigger] layer2@[j]
                    == frac_mul_gate(j) by {
                    assert(j / 4 == jb && (j % 4 == j - 4 * jb)) by (nonlinear_arith)
                        requires
                            4 * jb <= j < 4 * jb + 4,
                    ;
                    assert(4 * (j / 4) + 3 <= 4 * jb + 3);
                    if j == 4 * jb {
                        assert(layer2@[j] == m0);
                    } else if j == 4 * jb + 1 {
                        assert(layer2@[j] == m1);
                    } else if j == 4 * jb + 2 {
                        assert(layer2@[j] == m2);
                    } else {
                        assert(layer2@[j] == m3);
                    }
                }
            }
            jb = jb + 1;
        }
        let ghost vp = v@;
        v.push(CircuitLayer::new(layer1));
        v.push(CircuitLayer::new(layer2));
        proof {
            assert(v@.len() == 2 * i + 2);
            assert(forall|li: int| 0 <= li < 2 * i ==> v@[li] == vp[li]);
            assert(v@[2 * i as int].gates@.len() == 2 * exp2(i as nat));
            assert(v@[2 * i as int + 1].gates@.len() == 4 * exp2(i as nat));
            assert((2 * i as int) % 2 == 0 && (2 * i as int + 1) % 2 == 1 && (2 * i as int) / 2
                == i && (2 * i as int + 1) / 2 == i);
        }
        i = i + 1;
    }
    proof {
        crate::poly::lemma_exp2_cap(n as nat);
    }
    let ninputs_u = two_pow(n);
    let ninputs: usize = 2 * (ninputs_u as usize);
    proof {
        lemma_frac_wiring(v@, n as nat, ninputs as nat);
    }
    match Circuit::new(v, ninputs) {
        Ok(c) => c,
        Err(_) => {
            proof {
                assert(false);
            }
            Circuit { layers: Vec::new(), num_inputs: 0 }
        },
    }
}

/// The combination circuit's wiring stays inside each next level.
proof fn lemma_frac_wiring(layers: Seq<CircuitLayer>, n: nat, ninputs: nat)
    requires
        1 <= n,
        frac_gates_ok(layers, n),
        ninputs == 2 * exp2(n),
    ensures
        wiring_ok(layers, ninputs),
{
    assert forall|li: int, j: int|
        0 <= li < layers.len() && 0 <= j < layers[li].gates@.len() implies {
        let g = #[trigger] layers[li].gates@[j];
        g.left < level_width(layers, ninputs, li + 1) && g.right < level_width(
            layers,
            ninputs,
            li + 1,
        )
    } by {
        let g = layers[li].gates@[j];
        let i = li / 2;
        lemma_exp2_pos(i as nat);
        if li % 2 == 0 {
            // an add layer reads the mul layer below, of width 4 * 2^i
            assert(layers[li + 1].gates@.len() == 4 * exp2(((li + 1) / 2) as nat));
            assert((li + 1) / 2 == i);
            assert(g == frac_add_gate(j));
            assert(j < 2 * exp2(i as nat));
            assert(4 * (j / 2) + 2 * (j % 2) + 1 < 4 * exp2(i as nat)) by (nonlinear_arith)
                requires
                    0 <= j < 2 * exp2(i as nat),
                    exp2(i as nat) >= 1,
            ;
        } else {
            // a mul layer reads the next add layer, or the input level,
            // both of width 4 * 2^i
            assert(g == frac_mul_gate(j));
            assert(j < 4 * exp2(i as nat));
            if li + 1 < layers.len() {
                assert(layers[li + 1].gates@.len() == 2 * exp2(((li + 1) / 2) as nat));
                assert((li + 1) / 2 == i + 1);
                assert(exp2((i + 1) as nat) == 2 * exp2(i as nat));
            } else {
                assert(li == 2 * n - 1);
                assert(i == n - 1);
                assert(exp2(n) == 2 * exp2((n - 1) as nat));
            }
            assert(4 * (j / 4) + 3 < 4 * exp2(i as nat)) by (nonlinear_arith)
                requires
                    0 <= j < 4 * exp2(i as nat),
                    exp2(i as nat) >= 1,
            ;
        }
    }
}

/// The root values of the combination tree over the given fractions: the
/// output level of a circuit with the tree's wiring, evaluated on the
/// interleaved input.  Any two such circuits evaluate identically, so the
/// choice does not matter.
pub open spec fn frac_root(n: nat, pv: Seq<int>, qv: Seq<int>) -> Seq<int> {
    let layers = choose|layers: Seq<CircuitLayer>| frac_gates_ok(layers, n);
    eval_levels(layers, interleave(pv, qv))[0]
}

/// Layer sequences with pointwise equal gate lists evaluate identically.
proof fn lemma_eval_levels_congruent(l1: Seq<CircuitLayer>, l2: Seq<CircuitLayer>, input: Seq<int>)
    requires
        l1.len() == l2.len(),
        forall|i: int| 0 <= i < l1.len() ==> (#[trigger] l1[i]).gates@ == l2[i].gates@,
    ensures
        eval_levels(l1, input) == eval_levels(l2, input),
    decreases l1.len(),
{
    if l1.len() > 0 {
        assert(forall|i: int|
            0 <= i < l1.drop_first().len() ==> (#[trigger] l1.drop_first()[i]).gates@
                == l2.drop_first()[i].gates@);
        lemma_eval_levels_congruent(l1.drop_first(), l2.drop_first(), input);
        assert(l1[0].gates@ == l2[0].gates@);
    }
}

/// The output level of any circuit with the tree's wiring is `frac_root`.
pub proof fn lemma_frac_root_unique(l1: Seq<CircuitLayer>, n: nat, pv: Seq<int>, qv: Seq<int>)
    requires
        frac_gates_ok(l1, n),
    ensures
        eval_levels(l1, interleave(pv, qv))[0] == frac_root(n, pv, qv),
{
    assert(exists|layers: Seq<CircuitLayer>| frac_gates_ok(layers, n)) by {
        assert(frac_gates_ok(l1, n));
    }
    let l2 = choose|layers: Seq<CircuitLayer>| frac_gates_ok(layers, n);
    assert forall|i: int| 0 <= i < l1.len() implies (#[trigger] l1[i]).gates@ == l2[i].gates@ by {
        assert(l1[i].gates@ =~= l2[i].gates@);
    }
    lemma_eval_levels_congruent(l1, l2, interleave(pv, qv));
}

/// Equal powers of two have equal exponents.
pub proof fn lemma_exp2_inj(a: nat, b: nat)
    requires
        exp2(a) == exp2(b),
    ensures
        a == b,
{
    if a < b {
        crate::poly::lemma_exp2_lt(a, b);
    }
    if b < a {
        crate::poly::lemma_exp2_lt(b, a);
    }
}

/// Every level of the combination circuit has a power-of-two width, and
/// that width is the stated power.
pub proof fn lemma_frac_level_pow2(layers: Seq<CircuitLayer>, n: nat, ninputs: nat, j: int)
    requires
        1 <= n < 30,
        frac_gates_ok(layers, n),
        ninputs == 2 * exp2(n),
        0 <= j <= 2 * n,
    ensures
        crate::gkr::level_pow2(layers, ninputs, j),
        level_width(layers, ninputs, j) == exp2(frac_level_log(n, j)),
        frac_level_log(n, j) < 31,
        1 <= frac_level_log(n, j),
{
    let m = frac_level_log(n, j);
    if j == 2 * n {
        assert(exp2(n + 1) == 2 * exp2(n));
    } else if j % 2 == 0 {
        assert(layers[j].gates@.len() == 2 * exp2((j / 2) as nat));
        assert(exp2((j / 2 + 1) as nat) == 2 * exp2((j / 2) as nat));
    } else {
        assert(layers[j].gates@.len() == 4 * exp2((j / 2) as nat));
        assert(exp2((j / 2 + 1) as nat) == 2 * exp2((j / 2) as nat));
        assert(exp2((j / 2 + 2) as nat) == 2 * exp2((j / 2 + 1) as nat));
    }
    assert(level_width(layers, ninputs, j) == exp2(m));
}

/// The base-two logarithm of the width of level `j` of the combination
/// circuit over `2^n` fraction pairs.
pub open spec fn frac_level_log(n: nat, j: int) -> nat {
    if j == 2 * n {
        n + 1
    } else if j % 2 == 0 {
        (j / 2 + 1) as nat
    } else {
        (j / 2 + 2) as nat
    }
}

/// The verifier's claim is true of the given value table: the claimed
/// value is the table's extension at the first claim point plus lambda
/// times its extension at the second.
pub open spec fn claim_true(v: Verifier, table: Seq<int>) -> bool {
    v.claim_value@ == fadd(
        mle(table, fqs(v.claim_p1@)),
        fmul(v.claim_lambda@, mle(table, fqs(v.claim_p2@))),
    )
}

/// Runs the sum-check of one layer between the prover and the verifier:
/// the layer announcement, one round polynomial and challenge per
/// variable, and the closing pair of sub-claim values.  Returns the
/// verifier's folded claim data for the next layer.  In this pairing the
/// prover is honest, so the only possible failure is a rejection by a
/// round or oracle check; no message is ever out of sequence, and on
/// success the verifier's new claim is the true statement about the next
/// level's values.
#[verifier::rlimit(100)]
pub fn run_layer(
    prover: &mut Prover,
    verifier: &mut Verifier,
    n: usize,
    i: usize,
    r_i: &Vec<Fq>,
    rng: &mut StdRng,
) -> (res: Result<Vec<Fq>, FracError>)
    requires
        old(prover).wf(),
        old(verifier).wf(),
        1 <= n < 30,
        frac_gates_ok(old(prover).circuit.layers@, n as nat),
        frac_gates_ok(old(verifier).circuit.layers@, n as nat),
        old(prover).circuit.num_inputs == 2 * exp2(n as nat),
        old(verifier).circuit.num_inputs == 2 * exp2(n as nat),
        i < 2 * n,
        old(verifier).phase is LayerIdle,
        old(verifier).layer == i,
        fqs_wf(r_i@),
    ensures
        final(prover).wf(),
        final(verifier).wf(),
        final(prover).circuit == old(prover).circuit,
        final(prover).levels == old(prover).levels,
        final(verifier).circuit == old(verifier).circuit,
        res matches Err(e) ==> e == FracError::Rejected,
        res matches Ok(nr) ==> {
            &&& fqs_wf(nr@)
            &&& final(verifier).layer == i + 1
            &&& final(verifier).phase == (if i + 1 == 2 * n {
                Phase::Done
            } else {
                Phase::LayerIdle
            })
            &&& nr@ == final(verifier).claim_p1@ + final(verifier).claim_p2@ + seq![
                final(verifier).claim_lambda,
            ]
            &&& final(verifier).claim_p1@.len() == final(verifier).claim_p2@.len()
            &&& final(verifier).claim_p1@.len() < 31
            &&& exp2(final(verifier).claim_p1@.len()) == level_width(
                old(verifier).circuit.layers@,
                old(verifier).circuit.num_inputs as nat,
                i + 1,
            )
            &&& claim_true(*final(verifier), fqs(old(prover).levels@[i + 1]@))
        },
{
    let ghost players = old(prover).circuit.layers@;
    let ghost vlayers = old(verifier).circuit.layers@;
    let ghost nin = old(prover).circuit.num_inputs as nat;
    proof {
        lemma_frac_level_pow2(players, n as nat, nin, i + 1);
        lemma_frac_level_pow2(vlayers, n as nat, nin, i + 1);
    }
    let msg = prover.start_round(i, r_i);
    let _ack = match verifier.receive_prover_msg(msg, rng) {
        Ok(m) => m,
        Err(_) => {
            // an honest layer announcement is always in sequence
            proof {
                assert(false);
            }
            return Err(FracError::Rejected);
        },
    };
    let m = verifier.mh;
    proof {
        assert(exp2(verifier.mh as nat) == level_width(vlayers, nin, i + 1));
        assert(exp2(prover.mh as nat) == level_width(players, nin, i + 1));
        lemma_exp2_inj(prover.mh as nat, verifier.mh as nat);
        assert(prover.mh == m);
        assert(frac_level_log(n as nat, i + 1) >= 1);
        lemma_exp2_inj(verifier.mh as nat, frac_level_log(n as nat, i + 1));
        assert(m >= 1);
        assert(verifier.phase is InLayer);
        assert(prover.in_layer);
        assert(prover.bound@.len() == 0);
        assert(verifier.bound@.len() == 0);
        assert(prover.bound@ =~= verifier.bound@);
    }
    let nv = 2 * m;
    let mut j: usize = 0;
    while j < nv - 1
        invariant
            prover.wf(),
            verifier.wf(),
            prover.in_layer,
            prover.layer == i,
            prover.mh == m,
            verifier.mh == m,
            1 <= m < 31,
            nv == 2 * m,
            j <= nv - 1,
            prover.bound@.len() == j,
            prover.bound@ == verifier.bound@,
            verifier.phase is InLayer,
            verifier.bound@.len() == j,
            verifier.layer == i,
            prover.circuit == old(prover).circuit,
            prover.levels == old(prover).levels,
            verifier.circuit == old(verifier).circuit,
        decreases nv - 1 - j,
    {
        let pm = prover.round_msg(j);
        let vm2 = match verifier.receive_prover_msg(pm, rng) {
            Ok(mm) => mm,
            Err(_) => {
                return Err(FracError::Rejected);
            },
        };
        proof {
            match vm2 {
                VerifierMessage::R { r: ref rv } => {
                    assert(rv@.len() == 1);
                    assert(rv@[0].wf());
                    assert(fqs_wf(rv@));
                    assert(verifier.bound@ == prover.bound@.push(rv@[0]));
                },
                _ => {
                    assert(false);
                },
            }
        }
        prover.receive_verifier_msg(vm2);
        j = j + 1;
    }
    let pm = prover.round_msg(nv - 1);
    let ack2 = match verifier.receive_prover_msg(pm, rng) {
        Ok(mm) => mm,
        Err(_) => {
            return Err(FracError::Rejected);
        },
    };
    proof {
        match ack2 {
            VerifierMessage::R { r: ref rv } => {
                assert(rv@.len() == 0);
                assert(fqs_wf(rv@));
            },
            _ => {
                assert(false);
            },
        }
        assert(verifier.phase is LastPending);
    }
    prover.receive_verifier_msg(ack2);
    let fc = match verifier.final_random_point(rng) {
        Ok(mm) => mm,
        Err(_) => {
            // the layer's last challenge is always owed at this point
            proof {
                assert(false);
            }
            return Err(FracError::Rejected);
        },
    };
    prover.receive_verifier_msg(fc);
    proof {
        assert(prover.bound@ == verifier.bound@);
        assert(prover.bound@.len() == nv);
    }
    let ghost vb = verifier.bound@;
    let ghost nextv = fqs(prover.levels@[i + 1]@);
    let pm2 = prover.round_msg(nv);
    let vm3 = match verifier.receive_prover_msg(pm2, rng) {
        Ok(mm) => mm,
        Err(_) => {
            return Err(FracError::Rejected);
        },
    };
    proof {
        assert(fqs(vb.take(m as int)) =~= fqs(vb).take(m as int));
        assert(fqs(vb.skip(m as int)) =~= fqs(vb).skip(m as int));
        assert(verifier.claim_p1@ + verifier.claim_p2@ + seq![verifier.claim_lambda] =~= vb.push(
            verifier.claim_lambda,
        ));
        assert(claim_true(*verifier, nextv));
    }
    match vm3 {
        VerifierMessage::R { r } => Ok(r),
        VerifierMessage::FinalChallenge { .. } => {
            // the fold always answers with the next claim data
            proof {
                assert(false);
            }
            Err(FracError::Rejected)
        },
    }
}

/// The interleaving of two sequences: numerators at even positions,
/// denominators at odd ones.
pub open spec fn interleave(a: Seq<int>, b: Seq<int>) -> Seq<int> {
    Seq::new(2 * a.len(), |i: int| if i % 2 == 0 {
        a[i / 2]
    } else {
        b[i / 2]
    })
}

/// Builds the interleaved input vector of a fractional-sum instance.
pub fn build_frac_input(p: &Vec<Fq>, q: &Vec<Fq>) -> (r: Vec<Fq>)
    requires
        p@.len() == q@.len(),
        fqs_wf(p@),
        fqs_wf(q@),
    ensures
        r@.len() == 2 * p@.len(),
        fqs_wf(r@),
        fqs(r@) == interleave(fqs(p@), fqs(q@)),
{
    let mut r: Vec<Fq> = Vec::new();
    let mut i: usize = 0;
    while i < p.len()
        invariant
            i <= p@.len(),
            p@.len() == q@.len(),
            fqs_wf(p@),
            fqs_wf(q@),
            r@.len() == 2 * i,
            fqs_wf(r@),
            forall|k: int|
                0 <= k < 2 * i ==> (#[trigger] r@[k])@ == (if k % 2 == 0 {
                    p@[k / 2]@
                } else {
                    q@[k / 2]@
                }),
        decreases p@.len() - i,
    {
        let ghost prev = r@;
        r.push(p[i]);
        r.push(q[i]);
        proof {
            assert(forall|k: int| 0 <= k < 2 * i ==> r@[k] == prev[k]);
            assert((2 * i as int) % 2 == 0 && (2 * i as int) / 2 == i);
            assert((2 * i as int + 1) % 2 == 1 && (2 * i as int + 1) / 2 == i);
        }
        i = i + 1;
    }
    proof {
        assert(fqs(r@) =~= interleave(fqs(p@), fqs(q@)));
    }
    r
}

/// Proves and checks that the fractions `p[i] / q[i]` sum to zero: builds
/// the combination circuit over `2^n` pairs, runs the whole GKR reduction
/// between an honest prover and the verifier, and checks the root
/// conditions — numerator zero, denominator nonzero — and the final input
/// claim.  Returns the two true root values on acceptance; a bad root is
/// always a definite rejection, and the only possible error is a
/// rejection — never a protocol violation or a crash.
#[verifier::rlimit(50)]
pub fn verify_rational_sum(n: usize, p: &Vec<Fq>, q: &Vec<Fq>, rng: &mut StdRng) -> (res: Result<
    Vec<Fq>,
    FracError,
>)
    requires
        1 <= n < 30,
        p@.len() == exp2(n as nat),
        q@.len() == p@.len(),
        fqs_wf(p@),
        fqs_wf(q@),
    ensures
        res matches Ok(outs) ==> {
            &&& fqs_wf(outs@)
            &&& outs@.len() == 2
            &&& outs@[0]@ == 0
            &&& outs@[1]@ != 0
            &&& fqs(outs@) == frac_root(n as nat, fqs(p@), fqs(q@))
        },
        frac_root(n as nat, fqs(p@), fqs(q@))[0] != 0 || frac_root(n as nat, fqs(p@), fqs(q@))[1]
            == 0 ==> (res matches Err(e) && e == FracError::Rejected),
        res matches Err(e) ==> e == FracError::Rejected,
{
    let c1 = gen_circuit(n);
    let c2 = gen_circuit(n);
    let ghost players = c1.layers@;
    let ghost vlayers = c2.layers@;
    let input = build_frac_input(p, q);
    let mut prover = match Prover::new(c1, &input) {
        Ok(pr) => pr,
        Err(_) => {
            // the interleaved input always has the declared width
            proof {
                assert(false);
            }
            return Err(FracError::Rejected);
        },
    };
    let begin = prover.start_protocol();
    proof {
        assert(prover.levels@.len() >= 1);
        crate::gkr::lemma_level_view_width(&prover, 0);
        lemma_frac_level_pow2(players, n as nat, (2 * exp2(n as nat)) as nat, 0);
        lemma_frac_root_unique(players, n as nat, fqs(p@), fqs(q@));
        assert(fqs(input@) == interleave(fqs(p@), fqs(q@)));
    }
    let outs = copy_fqs(&prover.levels[0]);
    proof {
        assert(fqs_wf(prover.levels@[0]@));
        assert(fqs(outs@) == frac_root(n as nat, fqs(p@), fqs(q@)));
        assert(outs@.len() == 2);
    }
    let zero = Fq::zero();
    if !(outs[0] == zero) {
        return Err(FracError::Rejected);
    }
    if outs[1] == zero {
        return Err(FracError::Rejected);
    }
    proof {
        assert(outs@[0]@ == 0 && outs@[1]@ != 0);
    }
    let mut verifier = Verifier::new(c2);
    proof {
        lemma_frac_level_pow2(vlayers, n as nat, (2 * exp2(n as nat)) as nat, 0);
    }
    let vm = match verifier.receive_prover_msg(begin, rng) {
        Ok(m) => m,
        Err(_) => {
            // the opening message always fits the verifier's start state
            proof {
                assert(false);
            }
            return Err(FracError::Rejected);
        },
    };
    let mut r_i = match vm {
        VerifierMessage::R { r } => r,
        VerifierMessage::FinalChallenge { .. } => {
            proof {
                assert(false);
            }
            return Err(FracError::Rejected);
        },
    };
    proof {
        // the opening claim is the true statement about the output level
        let t0 = fqs(prover.levels@[0]@);
        assert(forall|k: int| 0 <= k < t0.len() ==> 0 <= #[trigger] t0[k] < 17);
        crate::mle::lemma_mle_range(t0, fqs(verifier.claim_p1@));
        assert(fmul(verifier.claim_lambda@, mle(t0, fqs(verifier.claim_p2@))) == 0);
        assert(claim_true(verifier, t0));
        lemma_exp2_inj(verifier.claim_p1@.len(), 1);
    }
    let ghost levels0 = prover.levels@;
    let d = verifier.circuit.layers.len();
    let mut i: usize = 0;
    while i < d
        invariant
            prover.wf(),
            verifier.wf(),
            1 <= n < 30,
            prover.circuit.layers@ == players,
            prover.levels@ == levels0,
            level_views(levels0) == eval_levels(players, fqs(input@)),
            fqs(outs@) == level_views(levels0)[0],
            frac_gates_ok(prover.circuit.layers@, n as nat),
            frac_gates_ok(verifier.circuit.layers@, n as nat),
            prover.circuit.num_inputs == 2 * exp2(n as nat),
            verifier.circuit.num_inputs == 2 * exp2(n as nat),
            d == verifier.circuit.layers@.len(),
            d == 2 * n,
            i <= d,
            verifier.layer == i,
            verifier.phase == (if i == d {
                Phase::Done
            } else {
                Phase::LayerIdle
            }),
            fqs_wf(r_i@),
            input@.len() == 2 * exp2(n as nat),
            fqs_wf(input@),
            claim_true(verifier, fqs(levels0[i as int]@)),
            verifier.claim_p1@.len() == verifier.claim_p2@.len(),
            verifier.claim_p1@.len() < 31,
            exp2(verifier.claim_p1@.len()) == level_width(
                verifier.circuit.layers@,
                verifier.circuit.num_inputs as nat,
                i as int,
            ),
        decreases d - i,
    {
        let nr = match run_layer(&mut prover, &mut verifier, n, i, &r_i, rng) {
            Ok(nr) => nr,
            Err(e) => {
                return Err(e);
            },
        };
        r_i = nr;
        i = i + 1;
    }
    proof {
        // the final claim is the true statement about the input level, so
        // the direct input check cannot fail
        crate::circuit::lemma_eval_levels_len(players, fqs(input@));
        assert(level_views(levels0)[d as int] == fqs(levels0[d as int]@));
        assert(fqs(levels0[d as int]@) == fqs(input@));
        assert(exp2(verifier.claim_p1@.len()) == 2 * exp2(n as nat));
    }
    if verifier.check_input(&input) {
        Ok(outs)
    } else {
        proof {
            assert(false);
        }
        Err(FracError::Rejected)
    }
}

/// How often `x` occurs in one witness row.
pub open spec fn count_row(row: Seq<int>, x: int) -> nat
    decreases row.len(),
{
    if row.len() == 0 {
        0nat
    } else {
        count_row(row.drop_last(), x) + (if row.last() == x {
            1nat
        } else {
            0nat
        })
    }
}

/// How often `x` occurs across all witness rows.
pub open spec fn count_rows(rows: Seq<Seq<int>>, x: int) -> nat
    decreases rows.len(),
{
    if rows.len() == 0 {
        0nat
    } else {
        count_rows(rows.drop_last(), x) + count_row(rows.last(), x)
    }
}

/// The residues of a batch of witness rows.
pub open spec fn rows_view(ws: Seq<Vec<Fq>>) -> Seq<Seq<int>> {
    ws.map_values(|v: Vec<Fq>| fqs(v@))
}

/// A count within one row is bounded by the row length.
proof fn lemma_count_row_le(row: Seq<int>, x: int)
    ensures
        count_row(row, x) <= row.len(),
    decreases row.len(),
{
    if row.len() > 0 {
        lemma_count_row_le(row.drop_last(), x);
    }
}

/// A count across rows is bounded by the number of rows times a cap on
/// their lengths.
proof fn lemma_count_rows_le(rows: Seq<Seq<int>>, x: int, cap: nat)
    requires
        forall|i: int| 0 <= i < rows.len() ==> (#[trigger] rows[i]).len() <= cap,
    ensures
        count_rows(rows, x) <= rows.len() * cap,
    decreases rows.len(),
{
    if rows.len() > 0 {
        assert(forall|i: int|
            0 <= i < rows.drop_last().len() ==> (#[trigger] rows.drop_last()[i]).len() <= cap);
        lemma_count_rows_le(rows.drop_last(), x, cap);
        lemma_count_row_le(rows.last(), x);
        assert(rows.len() * cap == (rows.len() - 1) * cap + cap) by (nonlinear_arith);
    }
}

/// Derives the multiplicity vector of a lookup instance: entry `i` is the
/// number of occurrences of table entry `t[i]` across all witness rows,
/// as a field element.
pub fn multiplicities(ws: &Vec<Vec<Fq>>, t: &Vec<Fq>) -> (m: Vec<Fq>)
    requires
        ws@.len() <= 0x4000_0000,
        forall|j: int| 0 <= j < ws@.len() ==> (#[trigger] ws@[j])@.len() <= 0x4000_0000,
        fqs_wf(t@),
    ensures
        m@.len() == t@.len(),
        fqs_wf(m@),
        forall|i: int|
            0 <= i < t@.len() ==> (#[trigger] m@[i])@ == (count_rows(rows_view(ws@), t@[i]@) as int)
                % 17,
{
    let mut m: Vec<Fq> = Vec::new();
    let mut i: usize = 0;
    while i < t.len()
        invariant
            ws@.len() <= 0x4000_0000,
            forall|j: int| 0 <= j < ws@.len() ==> (#[trigger] ws@[j])@.len() <= 0x4000_0000,
            fqs_wf(t@),
            i <= t@.len(),
            m@.len() == i,
            fqs_wf(m@),
            forall|i2: int|
                0 <= i2 < i ==> (#[trigger] m@[i2])@ == (count_rows(rows_view(ws@), t@[i2]@) as int)
                    % 17,
        decreases t@.len() - i,
    {
        let x = t[i];
        let ghost rv = rows_view(ws@);
        let ghost xv = x@;
        let mut count: u64 = 0;
        let mut j: usize = 0;
        proof {
            assert(rv.take(0) =~= Seq::<Seq<int>>::empty());
        }
        while j < ws.len()
            invariant
                ws@.len() <= 0x4000_0000,
                forall|j2: int| 0 <= j2 < ws@.len() ==> (#[trigger] ws@[j2])@.len() <= 0x4000_0000,
                j <= ws@.len(),
                rv == rows_view(ws@),
                xv == x@,
                count == count_rows(rv.take(j as int), xv),
                count <= 0x4000_0000 * 0x4000_0000,
            decreases ws@.len() - j,
        {
            let row = &ws[j];
            let mut k: usize = 0;
            proof {
                assert(rv[j as int].take(0) =~= Seq::<int>::empty());
                lemma_count_rows_le(rv.take(j as int), xv, 0x4000_0000);
                assert(rv.take(j as int).len() * 0x4000_0000 <= 0x4000_0000 * 0x4000_0000)
                    by (nonlinear_arith)
                    requires
                        0 <= rv.take(j as int).len() <= 0x4000_0000,
                ;
            }
            while k < row.len()
                invariant
                    ws@.len() <= 0x4000_0000,
                    forall|j2: int|
                        0 <= j2 < ws@.len() ==> (#[trigger] ws@[j2])@.len() <= 0x4000_0000,
                    j < ws@.len(),
                    row == &ws@[j as int],
                    k <= row@.len(),
                    rv == rows_view(ws@),
                    xv == x@,
                    count == count_rows(rv.take(j as int), xv) + count_row(
                        rv[j as int].take(k as int),
                        xv,
                    ),
                    count_rows(rv.take(j as int), xv) <= 0x4000_0000 * 0x4000_0000
                        - 0x4000_0000,
                decreases row@.len() - k,
            {
                proof {
                    assert(rv[j as int].take(k as int + 1).drop_last() =~= rv[j as int].take(
                        k as int,
                    ));
                    assert(rv[j as int].take(k as int + 1).last() == rv[j as int][k as int]);
                    assert(rv[j as int][k as int] == row@[k as int]@);
                    lemma_count_row_le(rv[j as int].take(k as int), xv);
                }
                if row[k] == x {
                    count = count + 1;
                }
                k = k + 1;
            }
            proof {
                assert(rv[j as int].take(row@.len() as int) =~= rv[j as int]);
                assert(rv.take(j as int + 1).drop_last() =~= rv.take(j as int));
                assert(rv.take(j as int + 1).last() == rv[j as int]);
                lemma_count_rows_le(rv.take(j as int + 1), xv, 0x4000_0000);
                assert(rv.take(j as int + 1).len() * 0x4000_0000 <= 0x4000_0000 * 0x4000_0000)
                    by (nonlinear_arith)
                    requires
                        0 <= rv.take(j as int + 1).len() <= 0x4000_0000,
                ;
            }
            j = j + 1;
        }
        proof {
            assert(rv.take(ws@.len() as int) =~= rv);
        }
        let mf = Fq::from_u64(count);
        let ghost prev = m@;
        m.push(mf);
        proof {
            assert(forall|i2: int| 0 <= i2 < i ==> m@[i2] == prev[i2]);
        }
        i = i + 1;
    }
    m
}

/// Builds the numerator vector of a lookup instance: each table slot
/// contributes a block of `2^kk - 1` entries holding minus one, closed by
/// the slot's multiplicity.
pub fn build_p(m: &Vec<Fq>, kk: usize) -> (p: Vec<Fq>)
    requires
        1 <= kk < 30,
        fqs_wf(m@),
        m@.len() <= 0x4000_0000,
    ensures
        p@.len() == m@.len() * exp2(kk as nat),
        fqs_wf(p@),
        forall|idx: int|
            0 <= idx < p@.len() ==> (#[trigger] p@[idx])@ == (if idx % (exp2(kk as nat) as int)
                == exp2(kk as nat) - 1 {
                m@[idx / (exp2(kk as nat) as int)]@
            } else {
                16int
            }),
{
    proof {
        crate::poly::lemma_exp2_cap(kk as nat);
    }
    let bsize = two_pow(kk);
    let ghost bs = exp2(kk as nat) as int;
    let mut p: Vec<Fq> = Vec::new();
    let mut i: usize = 0;
    while i < m.len()
        invariant
            1 <= kk < 30,
            fqs_wf(m@),
            m@.len() <= 0x4000_0000,
            bsize == exp2(kk as nat),
            bsize <= 0x2000_0000,
            bs == bsize,
            i <= m@.len(),
            p@.len() == i * bs,
            fqs_wf(p@),
            forall|idx: int|
                0 <= idx < p@.len() ==> (#[trigger] p@[idx])@ == (if idx % bs == bs - 1 {
                    m@[idx / bs]@
                } else {
                    16int
                }),
        decreases m@.len() - i,
    {
        proof {
            assert(i * bs <= 0x4000_0000 * 0x2000_0000) by (nonlinear_arith)
                requires
                    0 <= i <= 0x4000_0000,
                    0 <= bs <= 0x2000_0000,
            ;
        }
        let minus_one = Fq { v: 16 };
        proof {
            lemma_exp2_pos((kk - 1) as nat);
            assert(exp2(kk as nat) == 2 * exp2((kk - 1) as nat));
        }
        let mut w: u64 = 0;
        while w < bsize - 1
            invariant
                1 <= kk < 30,
                fqs_wf(m@),
                m@.len() <= 0x4000_0000,
                i < m@.len(),
                bsize == exp2(kk as nat),
                bsize <= 0x2000_0000,
                bs == bsize,
                minus_one == (Fq { v: 16 }),
                w <= bsize - 1,
                p@.len() == i * bs + w,
                i * bs <= 0x4000_0000 * 0x2000_0000,
                fqs_wf(p@),
                forall|idx: int|
                    0 <= idx < p@.len() ==> (#[trigger] p@[idx])@ == (if idx % bs == bs - 1 {
                        m@[idx / bs]@
                    } else {
                        16int
                    }),
            decreases bsize - w,
        {
            let ghost prev = p@;
            p.push(minus_one);
            proof {
                assert(forall|idx: int| 0 <= idx < prev.len() ==> p@[idx] == prev[idx]);
                let idx = prev.len() as int;
                assert(idx == i * bs + w);
                assert(idx / bs == i && idx % bs == w) by (nonlinear_arith)
                    requires
                        idx == i * bs + w,
                        0 <= w < bs,
                        0 <= i,
                        0 < bs,
                ;
            }
            w = w + 1;
        }
        let ghost prev = p@;
        p.push(m[i]);
        proof {
            assert(forall|idx: int| 0 <= idx < prev.len() ==> p@[idx] == prev[idx]);
            let idx = prev.len() as int;
            assert(idx == i * bs + (bs - 1));
            assert(idx / bs == i && idx % bs == bs - 1) by (nonlinear_arith)
                requires
                    idx == i * bs + (bs - 1),
                    0 <= i,
                    0 < bs,
            ;
            assert((i + 1) * bs == i * bs + bs) by (nonlinear_arith);
        }
        i = i + 1;
    }
    p
}

/// Builds the denominator vector of a lookup instance: each block holds
/// the offset differences between the challenge and the witnessed values
/// of one table column, closed by the difference with the table entry.
pub fn build_q(ws: &Vec<Vec<Fq>>, t: &Vec<Fq>, alpha: Fq, kk: usize) -> (q: Vec<Fq>)
    requires
        1 <= kk < 30,
        fqs_wf(t@),
        alpha.wf(),
        t@.len() <= 0x4000_0000,
        ws@.len() == exp2(kk as nat) - 1,
        forall|j: int| 0 <= j < ws@.len() ==> fqs_wf((#[trigger] ws@[j])@) && ws@[j]@.len()
            == t@.len(),
    ensures
        q@.len() == t@.len() * exp2(kk as nat),
        fqs_wf(q@),
        forall|idx: int|
            0 <= idx < q@.len() ==> (#[trigger] q@[idx])@ == (if idx % (exp2(kk as nat) as int)
                == exp2(kk as nat) - 1 {
                fsub(alpha@, t@[idx / (exp2(kk as nat) as int)]@)
            } else {
                fsub(alpha@, (ws@[idx % (exp2(kk as nat) as int)])@[idx / (exp2(
                    kk as nat,
                ) as int)]@)
            }),
{
    proof {
        crate::poly::lemma_exp2_cap(kk as nat);
    }
    let bsize = two_pow(kk);
    let ghost bs = exp2(kk as nat) as int;
    let mut q: Vec<Fq> = Vec::new();
    let mut i: usize = 0;
    while i < t.len()
        invariant
            1 <= kk < 30,
            fqs_wf(t@),
            alpha.wf(),
            t@.len() <= 0x4000_0000,
            ws@.len() == exp2(kk as nat) - 1,
            forall|j: int|
                0 <= j < ws@.len() ==> fqs_wf((#[trigger] ws@[j])@) && ws@[j]@.len() == t@.len(),
            bsize == exp2(kk as nat),
            bsize <= 0x2000_0000,
            bs == bsize,
            i <= t@.len(),
            q@.len() == i * bs,
            fqs_wf(q@),
            forall|idx: int|
                0 <= idx < q@.len() ==> (#[trigger] q@[idx])@ == (if idx % bs == bs - 1 {
                    fsub(alpha@, t@[idx / bs]@)
                } else {
                    fsub(alpha@, (ws@[idx % bs])@[idx / bs]@)
                }),
        decreases t@.len() - i,
    {
        proof {
            assert(i * bs <= 0x4000_0000 * 0x2000_0000) by (nonlinear_arith)
                requires
                    0 <= i <= 0x4000_0000,
                    0 <= bs <= 0x2000_0000,
            ;
        }
        proof {
            lemma_exp2_pos((kk - 1) as nat);
            assert(exp2(kk as nat) == 2 * exp2((kk - 1) as nat));
        }
        let mut w: u64 = 0;
        while w < bsize - 1
            invariant
                1 <= kk < 30,
                fqs_wf(t@),
                alpha.wf(),
                t@.len() <= 0x4000_0000,
                ws@.len() == exp2(kk as nat) - 1,
                forall|j: int|
                    0 <= j < ws@.len() ==> fqs_wf((#[trigger] ws@[j])@) && ws@[j]@.len()
                        == t@.len(),
                i < t@.len(),
                bsize == exp2(kk as nat),
                bsize <= 0x2000_0000,
                bs == bsize,
                w <= bsize - 1,
                q@.len() == i * bs + w,
                i * bs <= 0x4000_0000 * 0x2000_0000,
                fqs_wf(q@),
                forall|idx: int|
                    0 <= idx < q@.len() ==> (#[trigger] q@[idx])@ == (if idx % bs == bs - 1 {
                        fsub(alpha@, t@[idx / bs]@)
                    } else {
                        fsub(alpha@, (ws@[idx % bs])@[idx / bs]@)
                    }),
            decreases bsize - w,
        {
            let wrow = &ws[w as usize];
            let e = alpha.sub(wrow[i]);
            let ghost prev = q@;
            q.push(e);
            proof {
                assert(forall|idx: int| 0 <= idx < prev.len() ==> q@[idx] == prev[idx]);
                let idx = prev.len() as int;
                assert(idx == i * bs + w);
                assert(idx / bs == i && idx % bs == w) by (nonlinear_arith)
                    requires
                        idx == i * bs + w,
                        0 <= w < bs,
                        0 <= i,
                        0 < bs,
                ;
            }
            w = w + 1;
        }
        let e = alpha.sub(t[i]);
        let ghost prev = q@;
        q.push(e);
        proof {
            assert(forall|idx: int| 0 <= idx < prev.len() ==> q@[idx] == prev[idx]);
            let idx = prev.len() as int;
            assert(idx == i * bs + (bs - 1));
            assert(idx / bs == i && idx % bs == bs - 1) by (nonlinear_arith)
                requires
                    idx == i * bs + (bs - 1),
                    0 <= i,
                    0 < bs,
            ;
            assert((i + 1) * bs == i * bs + bs) by (nonlinear_arith);
        }
        i = i + 1;
    }
    q
}

/// The multiplicity vector of a lookup instance, as residues.
pub open spec fn mult_spec(rows: Seq<Seq<int>>, tv: Seq<int>) -> Seq<int> {
    Seq::new(tv.len(), |i: int| (count_rows(rows, tv[i]) as int) % 17)
}

/// The numerator vector of a lookup instance: blocks of minus ones, each
/// closed by the block's multiplicity.
pub open spec fn p_spec(mv: Seq<int>, kk: nat) -> Seq<int> {
    Seq::new(mv.len() * exp2(kk), |idx: int| if idx % (exp2(kk) as int) == exp2(kk) - 1 {
        mv[idx / (exp2(kk) as int)]
    } else {
        16int
    })
}

/// The denominator vector of a lookup instance with offset `alpha`:
/// blocks of witness differences, each closed by the table difference.
pub open spec fn q_spec(rows: Seq<Seq<int>>, tv: Seq<int>, alpha: int, kk: nat) -> Seq<int> {
    Seq::new(tv.len() * exp2(kk), |idx: int| if idx % (exp2(kk) as int) == exp2(kk) - 1 {
        fsub(alpha, tv[idx / (exp2(kk) as int)])
    } else {
        fsub(alpha, rows[idx % (exp2(kk) as int)][idx / (exp2(kk) as int)])
    })
}

/// Proves and checks that every witnessed value lies in the table: the
/// multiplicity vector is derived by exact counting, a random offset
/// binds the batch, and the resulting fractional sum is proved to be zero
/// by the full reduction.  On acceptance the returned root values are the
/// true root of the instance that the exact constructions derive from the
/// witnesses, the table, and the drawn offset; the only possible error is
/// a rejection.
pub fn verify_lookup(nn: usize, kk: usize, ws: &Vec<Vec<Fq>>, t: &Vec<Fq>, rng: &mut StdRng) -> (res:
    Result<Vec<Fq>, FracError>)
    requires
        1 <= nn,
        1 <= kk,
        nn + kk < 30,
        t@.len() == exp2(nn as nat),
        ws@.len() == exp2(kk as nat) - 1,
        fqs_wf(t@),
        forall|j: int| 0 <= j < ws@.len() ==> fqs_wf((#[trigger] ws@[j])@) && ws@[j]@.len()
            == t@.len(),
    ensures
        res matches Ok(outs) ==> {
            &&& fqs_wf(outs@)
            &&& outs@.len() == 2
            &&& outs@[0]@ == 0
            &&& outs@[1]@ != 0
            &&& exists|alpha: int|
                #![trigger q_spec(rows_view(ws@), fqs(t@), alpha, kk as nat)]
                0 <= alpha < 17 && fqs(outs@) == frac_root(
                    (nn + kk) as nat,
                    p_spec(mult_spec(rows_view(ws@), fqs(t@)), kk as nat),
                    q_spec(rows_view(ws@), fqs(t@), alpha, kk as nat),
                )
        },
        res matches Err(e) ==> e == FracError::Rejected,
{
    proof {
        crate::poly::lemma_exp2_cap(nn as nat);
        crate::poly::lemma_exp2_cap(kk as nat);
    }
    let m = multiplicities(ws, t);
    let alpha = crate::rng::sample_fq(rng);
    let p = build_p(&m, kk);
    let q = build_q(ws, t, alpha, kk);
    proof {
        crate::sumcheck::lemma_exp2_adds(nn as nat, kk as nat);
        assert(fqs(m@) =~= mult_spec(rows_view(ws@), fqs(t@)));
        let bs = exp2(kk as nat) as int;
        assert forall|idx: int| 0 <= idx < p@.len() implies fqs(p@)[idx] == p_spec(
            fqs(m@),
            kk as nat,
        )[idx] by {
            lemma_exp2_pos(kk as nat);
            assert(idx / bs < m@.len() && idx % bs < bs) by (nonlinear_arith)
                requires
                    0 <= idx < m@.len() * bs,
                    bs >= 1,
            ;
            assert((p@[idx])@ == (if idx % bs == bs - 1 {
                m@[idx / bs]@
            } else {
                16int
            }));
        }
        assert(fqs(p@) =~= p_spec(fqs(m@), kk as nat));
        assert forall|idx: int| 0 <= idx < q@.len() implies fqs(q@)[idx] == q_spec(
            rows_view(ws@),
            fqs(t@),
            alpha@,
            kk as nat,
        )[idx] by {
            assert((q@[idx])@ == (if idx % bs == bs - 1 {
                fsub(alpha@, t@[idx / bs]@)
            } else {
                fsub(alpha@, (ws@[idx % bs])@[idx / bs]@)
            }));
            lemma_exp2_pos(kk as nat);
            assert(idx / bs < t@.len() && idx % bs < bs) by (nonlinear_arith)
                requires
                    0 <= idx < t@.len() * bs,
                    bs >= 1,
            ;
            if idx % bs != bs - 1 {
                assert(rows_view(ws@)[idx % bs] == fqs(ws@[idx % bs]@));
                assert(rows_view(ws@)[idx % bs][idx / bs] == (ws@[idx % bs])@[idx / bs]@);
            }
        }
        assert(fqs(q@) =~= q_spec(rows_view(ws@), fqs(t@), alpha@, kk as nat));
    }
    let res = verify_rational_sum(nn + kk, &p, &q, rng);
    proof {
        let ghost gres = res;
        match gres {
            Ok(outs) => {
                assert(q_spec(rows_view(ws@), fqs(t@), alpha@, kk as nat) == fqs(q@));
                assert(fqs(outs@) == frac_root(
                    (nn + kk) as nat,
                    p_spec(mult_spec(rows_view(ws@), fqs(t@)), kk as nat),
                    q_spec(rows_view(ws@), fqs(t@), alpha@, kk as nat),
                ));
            },
            Err(_) => {},
        }
    }
    res
}

} // verus!
