//! Layered arithmetic circuits of Add and Mul gates.
//!
//! Layers are ordered from the output side to the input side: the gates of
//! layer `i` read the values of level `i + 1`, and the last level is the
//! input vector itself.  Evaluation is specified by `eval_levels`, a pure
//! function of the circuit and the input.
use vstd::prelude::*;

use crate::field::{Fq, fadd, fmul, fqs, fqs_wf};
use crate::poly::exp2;

verus! {

/// What a gate does with its two inputs.
#[derive(Clone, Copy, PartialEq, Eq, Structural, Debug)]
pub enum GateType {
    Add,
    Mul,
}

/// One gate: a kind and the two indices it reads in the next level.
#[derive(Clone, Copy, PartialEq, Eq, Structural, Debug)]
pub struct Gate {
    pub kind: GateType,
    pub left: usize,
    pub right: usize,
}

impl Gate {
    /// Builds a gate from its kind and input-wire pair.
    pub fn new(kind: GateType, inputs: [usize; 2]) -> (g: Gate)
        ensures
            g.kind == kind,
            g.left == inputs[0],
            g.right == inputs[1],
    {
        Gate { kind, left: inputs[0], right: inputs[1] }
    }
}

/// One layer: an ordered sequence of gates.
#[derive(Clone, Debug)]
pub struct CircuitLayer {
    pub gates: Vec<Gate>,
}

impl CircuitLayer {
    /// Builds a layer from its gates.
    pub fn new(gates: Vec<Gate>) -> (l: CircuitLayer)
        ensures
            l.gates@ == gates@,
    {
        CircuitLayer { gates }
    }
}

/// Construction-time errors: malformed wiring or a wrong input length.
#[derive(Clone, Copy, PartialEq, Eq, Structural, Debug)]
pub enum CircuitError {
    /// A gate references an index outside the next level.
    Wiring,
    /// The input vector does not match the declared input width.
    InputLength,
}

/// The value of one gate given the values of the next level.
pub open spec fn gate_val(g: Gate, prev: Seq<int>) -> int {
    match g.kind {
        GateType::Add => fadd(prev[g.left as int], prev[g.right as int]),
        GateType::Mul => fmul(prev[g.left as int], prev[g.right as int]),
    }
}

/// The values of a whole layer given the values of the next level.
pub open spec fn layer_vals(gates: Seq<Gate>, prev: Seq<int>) -> Seq<int> {
    Seq::new(gates.len(), |j: int| gate_val(gates[j], prev))
}

/// The width of level `i`: how many gates layer `i` has, or the declared
/// input width at the last level.
pub open spec fn level_width(layers: Seq<CircuitLayer>, num_inputs: nat, i: int) -> nat {
    if i == layers.len() {
        num_inputs
    } else {
        layers[i].gates@.len()
    }
}

/// Every gate of every layer references only indices of the next level.
pub open spec fn wiring_ok(layers: Seq<CircuitLayer>, num_inputs: nat) -> bool {
    forall|i: int, j: int|
        0 <= i < layers.len() && 0 <= j < layers[i].gates@.len() ==> {
            let g = #[trigger] layers[i].gates@[j];
            g.left < level_width(layers, num_inputs, i + 1) && g.right < level_width(
                layers,
                num_inputs,
                i + 1,
            )
        }
}

/// The values of every level, output level first, input level last.
pub open spec fn eval_levels(layers: Seq<CircuitLayer>, input: Seq<int>) -> Seq<Seq<int>>
    decreases layers.len(),
{
    if layers.len() == 0 {
        seq![input]
    } else {
        let rest = eval_levels(layers.drop_first(), input);
        seq![layer_vals(layers[0].gates@, rest[0])] + rest
    }
}

/// The residues of a sequence of value vectors.
pub open spec fn level_views(vss: Seq<Vec<Fq>>) -> Seq<Seq<int>> {
    vss.map_values(|v: Vec<Fq>| fqs(v@))
}

/// The values of every level of an evaluated circuit, output first.
#[derive(Clone, Debug)]
pub struct CircuitEvaluation {
    pub layers: Vec<Vec<Fq>>,
}

/// A layered circuit with a declared input width.
#[derive(Clone, Debug)]
pub struct Circuit {
    pub layers: Vec<CircuitLayer>,
    pub num_inputs: usize,
}

/// Evaluates one layer of gates over the values of the next level.
fn exec_layer(gates: &Vec<Gate>, prev: &Vec<Fq>) -> (r: Vec<Fq>)
    requires
        fqs_wf(prev@),
        forall|j: int|
            0 <= j < gates@.len() ==> (#[trigger] gates@[j]).left < prev@.len()
                && gates@[j].right < prev@.len(),
    ensures
        r@.len() == gates@.len(),
        fqs_wf(r@),
        fqs(r@) == layer_vals(gates@, fqs(prev@)),
{
    let mut r: Vec<Fq> = Vec::new();
    let mut j: usize = 0;
    while j < gates.len()
        invariant
            fqs_wf(prev@),
            forall|i: int|
                0 <= i < gates@.len() ==> (#[trigger] gates@[i]).left < prev@.len()
                    && gates@[i].right < prev@.len(),
            j <= gates@.len(),
            r@.len() == j,
            fqs_wf(r@),
            forall|i: int| 0 <= i < j ==> (#[trigger] r@[i])@ == gate_val(gates@[i], fqs(prev@)),
        decreases gates@.len() - j,
    {
        let g = gates[j];
        let a = prev[g.left];
        let b = prev[g.right];
        let v = match g.kind {
            GateType::Add => a.add(b),
            GateType::Mul => a.mul(b),
        };
        let ghost prev_r = r@;
        r.push(v);
        proof {
            assert(forall|i: int| 0 <= i < j ==> r@[i] == prev_r[i]);
        }
        j = j + 1;
    }
    proof {
        assert(fqs(r@) =~= layer_vals(gates@, fqs(prev@)));
    }
    r
}

impl Circuit {
    /// Well-formed: all wiring stays inside the next level.
    pub open spec fn wf(self) -> bool {
        wiring_ok(self.layers@, self.num_inputs as nat)
    }

    /// Builds a circuit, rejecting malformed wiring at construction time.
    pub fn new(layers: Vec<CircuitLayer>, num_inputs: usize) -> (r: Result<Circuit, CircuitError>)
        ensures
            wiring_ok(layers@, num_inputs as nat) ==> (r matches Ok(c) && c.layers@ == layers@
                && c.num_inputs == num_inputs),
            !wiring_ok(layers@, num_inputs as nat) ==> (r matches Err(e) && e
                == CircuitError::Wiring),
    {
        let mut i: usize = 0;
        while i < layers.len()
            invariant
                i <= layers@.len(),
                forall|i2: int, j: int|
                    0 <= i2 < i && 0 <= j < layers@[i2].gates@.len() ==> {
                        let g = #[trigger] layers@[i2].gates@[j];
                        g.left < level_width(layers@, num_inputs as nat, i2 + 1) && g.right
                            < level_width(layers@, num_inputs as nat, i2 + 1)
                    },
            decreases layers@.len() - i,
        {
            let width: usize = if i + 1 == layers.len() {
                num_inputs
            } else {
                layers[i + 1].gates.len()
            };
            let gates = &layers[i].gates;
            let mut j: usize = 0;
            while j < gates.len()
                invariant
                    i < layers@.len(),
                    gates == &layers@[i as int].gates,
                    width == level_width(layers@, num_inputs as nat, i as int + 1),
                    j <= gates@.len(),
                    forall|j2: int|
                        0 <= j2 < j ==> (#[trigger] gates@[j2]).left < width && gates@[j2].right
                            < width,
                decreases gates@.len() - j,
            {
                let g = gates[j];
                if g.left >= width || g.right >= width {
                    return Err(CircuitError::Wiring);
                }
                j = j + 1;
            }
            i = i + 1;
        }
        Ok(Circuit { layers, num_inputs })
    }

    /// The number of layers, not counting the input level.
    pub fn depth(&self) -> (d: usize)
        ensures
            d == self.layers@.len(),
    {
        self.layers.len()
    }

    /// Evaluates the circuit on an input, producing the values of every
    /// level, output level first.  An input of the wrong length is a
    /// construction-time error and is rejected.
    pub fn evaluate(&self, input: &Vec<Fq>) -> (r: Result<CircuitEvaluation, CircuitError>)
        requires
            self.wf(),
            fqs_wf(input@),
        ensures
            input@.len() != self.num_inputs ==> (r matches Err(e) && e == CircuitError::InputLength),
            input@.len() == self.num_inputs ==> (r matches Ok(ev) && level_views(ev.layers@)
                == eval_levels(self.layers@, fqs(input@)) && ev.layers@.len() == self.layers@.len()
                + 1 && (forall|i: int|
                0 <= i < ev.layers@.len() ==> fqs_wf((#[trigger] ev.layers@[i])@))),
    {
        if input.len() != self.num_inputs {
            return Err(CircuitError::InputLength);
        }
        let mut base: Vec<Fq> = Vec::new();
        let mut bi: usize = 0;
        while bi < input.len()
            invariant
                bi <= input@.len(),
                base@ == input@.take(bi as int),
            decreases input@.len() - bi,
        {
            base.push(input[bi]);
            proof {
                assert(input@.take(bi as int + 1) =~= input@.take(bi as int).push(
                    input@[bi as int],
                ));
            }
            bi = bi + 1;
        }
        proof {
            assert(input@.take(input@.len() as int) =~= input@);
        }
        let mut levels: Vec<Vec<Fq>> = Vec::new();
        levels.push(base);
        proof {
            assert(self.layers@.skip(self.layers@.len() as int) =~= Seq::<CircuitLayer>::empty());
            assert(level_views(levels@) =~= eval_levels(
                self.layers@.skip(self.layers@.len() as int),
                fqs(input@),
            ));
        }
        let mut j: usize = self.layers.len();
        while j > 0
            invariant
                self.wf(),
                fqs_wf(input@),
                input@.len() == self.num_inputs,
                j <= self.layers@.len(),
                levels@.len() == self.layers@.len() - j + 1,
                level_views(levels@) == eval_levels(self.layers@.skip(j as int), fqs(input@)),
                forall|i: int| 0 <= i < levels@.len() ==> fqs_wf((#[trigger] levels@[i])@),
            decreases j,
        {
            let ghost old_levels = levels@;
            let ghost sub = self.layers@.skip(j as int);
            proof {
                // the widths of the sub-circuit levels match the spec
                lemma_eval_levels_len(sub, fqs(input@));
                assert(levels@[0] == old_levels[0]);
                lemma_eval_levels_widths(
                    self.layers@,
                    self.num_inputs as nat,
                    fqs(input@),
                    j as int,
                );
            }
            let top = &self.layers[j - 1];
            let new_level = exec_layer(&top.gates, &levels[0]);
            levels.insert(0, new_level);
            proof {
                let sub2 = self.layers@.skip(j as int - 1);
                assert(sub2.drop_first() =~= sub);
                assert(sub2[0] == self.layers@[j as int - 1]);
                assert(levels@ == old_levels.insert(0, new_level));
                assert(level_views(levels@) =~= eval_levels(sub2, fqs(input@)));
                assert(forall|i: int| 1 <= i < levels@.len() ==> levels@[i] == old_levels[i - 1]);
            }
            j = j - 1;
        }
        proof {
            assert(self.layers@.skip(0) =~= self.layers@);
        }
        Ok(CircuitEvaluation { layers: levels })
    }

    /// The number of variables of the multilinear extension of level `i`:
    /// the base-two logarithm of its width, if that width is a power of
    /// two.
    pub fn num_vars_at(&self, i: usize) -> (r: Option<usize>)
        ensures
            match r {
                Some(m) => m < 63 && level_width(self.layers@, self.num_inputs as nat, i as int)
                    == exp2(m as nat),
                None => i > self.layers@.len() || (forall|m: nat|
                    m < 63 ==> exp2(m) != level_width(
                        self.layers@,
                        self.num_inputs as nat,
                        i as int,
                    )),
            },
    {
        if i > self.layers.len() {
            return None;
        }
        let width: usize = if i == self.layers.len() {
            self.num_inputs
        } else {
            self.layers[i].gates.len()
        };
        let mut m: usize = 0;
        let mut w: u64 = 1;
        while m < 62
            invariant
                m <= 62,
                w == exp2(m as nat),
                width == level_width(self.layers@, self.num_inputs as nat, i as int),
                forall|m2: nat| m2 < m ==> exp2(m2) != width,
            decreases 62 - m,
        {
            if w == width as u64 {
                return Some(m);
            }
            proof {
                crate::poly::lemma_exp2_fits(m as nat);
            }
            w = w * 2;
            m = m + 1;
        }
        if w == width as u64 {
            return Some(m);
        }
        proof {
            assert forall|m2: nat| m2 < 63 implies exp2(m2) != width by {
                if m2 < 62 {
                } else {
                    assert(m2 == 62);
                    assert(exp2(62) == w);
                }
            }
        }
        None
    }
}

/// Every level sequence has one entry per layer plus the input level.
pub proof fn lemma_eval_levels_len(layers: Seq<CircuitLayer>, input: Seq<int>)
    ensures
        eval_levels(layers, input).len() == layers.len() + 1,
        eval_levels(layers, input)[layers.len() as int] == input,
        forall|i: int|
            0 <= i < layers.len() ==> #[trigger] eval_levels(layers, input)[i] == layer_vals(
                layers[i].gates@,
                eval_levels(layers, input)[i + 1],
            ),
    decreases layers.len(),
{
    if layers.len() == 0 {
    } else {
        lemma_eval_levels_len(layers.drop_first(), input);
        let rest = eval_levels(layers.drop_first(), input);
        assert forall|i: int| 0 <= i < layers.len() implies #[trigger] eval_levels(layers, input)[i]
            == layer_vals(layers[i].gates@, eval_levels(layers, input)[i + 1]) by {
            if i > 0 {
                assert(layers.drop_first()[i - 1] == layers[i]);
                assert(eval_levels(layers, input)[i] == rest[i - 1]);
            }
        }
    }
}

/// The width of each computed level matches the declared level width.
pub proof fn lemma_eval_levels_widths(
    layers: Seq<CircuitLayer>,
    num_inputs: nat,
    input: Seq<int>,
    j: int,
)
    requires
        0 <= j <= layers.len(),
        input.len() == num_inputs,
    ensures
        eval_levels(layers.skip(j), input)[0].len() == level_width(layers, num_inputs, j),
    decreases layers.len() - j,
{
    let sub = layers.skip(j);
    lemma_eval_levels_len(sub, input);
    if j == layers.len() {
        assert(sub =~= Seq::<CircuitLayer>::empty());
    } else {
        assert(sub[0] == layers[j]);
        assert(eval_levels(sub, input)[0] == layer_vals(sub[0].gates@, eval_levels(sub, input)[1]));
    }
}

} // verus!
