//! The prime field that every protocol value lives in.
//!
//! An element is a residue in `[0, MODULUS)`; addition, subtraction,
//! multiplication and inversion are the usual modular operations.  The
//! contracts state each result exactly over the spec-level field operations
//! `fadd`, `fsub`, `fmul` and `fneg`.
use vstd::prelude::*;

verus! {

/// The prime modulus of the field.
pub const MODULUS: u64 = 17;

/// Names the field's parameters: the prime modulus and a generator of its
/// multiplicative group.
pub struct FqConfig;

impl FqConfig {
    /// The modulus, as an executable value.
    pub fn modulus() -> (m: u64)
        ensures
            m == MODULUS,
    {
        MODULUS
    }

    /// A generator of the multiplicative group of the field.
    pub fn generator() -> (g: Fq)
        ensures
            g.wf(),
            g@ == 3,
    {
        Fq { v: 3 }
    }
}

/// Field addition on residues.
pub open spec fn fadd(a: int, b: int) -> int {
    (a + b) % (MODULUS as int)
}

/// Field subtraction on residues.
pub open spec fn fsub(a: int, b: int) -> int {
    (a - b) % (MODULUS as int)
}

/// Field multiplication on residues.
pub open spec fn fmul(a: int, b: int) -> int {
    (a * b) % (MODULUS as int)
}

/// Field negation on residues.
pub open spec fn fneg(a: int) -> int {
    (0 - a) % (MODULUS as int)
}

/// Field exponentiation on residues.
pub open spec fn fpow(x: int, e: nat) -> int
    decreases e,
{
    if e == 0 {
        1int
    } else {
        fmul(x, fpow(x, (e - 1) as nat))
    }
}

/// The residues of a sequence of field elements.
pub open spec fn fqs(s: Seq<Fq>) -> Seq<int> {
    s.map_values(|f: Fq| f@)
}

/// Every element of the sequence is a reduced residue.
pub open spec fn fqs_wf(s: Seq<Fq>) -> bool {
    forall|i: int| 0 <= i < s.len() ==> (#[trigger] s[i]).wf()
}

/// Field multiplication commutes.
pub proof fn lemma_fmul_comm(a: int, b: int)
    ensures
        fmul(a, b) == fmul(b, a),
{
    vstd::arithmetic::mul::lemma_mul_is_commutative(a, b);
}

/// Field addition is associative.
pub proof fn lemma_fadd_assoc(a: int, b: int, c: int)
    ensures
        fadd(fadd(a, b), c) == fadd(a, fadd(b, c)),
{
    let m = MODULUS as int;
    vstd::arithmetic::div_mod::lemma_add_mod_noop(a + b, c, m);
    vstd::arithmetic::div_mod::lemma_add_mod_noop_right(a, b + c, m);
    vstd::arithmetic::div_mod::lemma_mod_twice(a + b, m);
    vstd::arithmetic::div_mod::lemma_mod_twice(c, m);
    vstd::arithmetic::div_mod::lemma_mod_twice(a, m);
    vstd::arithmetic::div_mod::lemma_mod_twice(b + c, m);
}

/// Field multiplication is associative.
pub proof fn lemma_fmul_assoc(a: int, b: int, c: int)
    ensures
        fmul(fmul(a, b), c) == fmul(a, fmul(b, c)),
{
    let m = MODULUS as int;
    vstd::arithmetic::div_mod::lemma_mul_mod_noop_left(a * b, c, m);
    vstd::arithmetic::div_mod::lemma_mul_mod_noop_right(a, b * c, m);
    vstd::arithmetic::mul::lemma_mul_is_associative(a, b, c);
}

/// Field multiplication distributes over field addition.
pub proof fn lemma_fmul_dist(a: int, b: int, c: int)
    ensures
        fmul(a, fadd(b, c)) == fadd(fmul(a, b), fmul(a, c)),
{
    let m = MODULUS as int;
    vstd::arithmetic::div_mod::lemma_mul_mod_noop_right(a, b + c, m);
    vstd::arithmetic::mul::lemma_mul_is_distributive_add(a, b, c);
    vstd::arithmetic::div_mod::lemma_add_mod_noop(a * b, a * c, m);
}

/// The distinct error of the field: only zero has no inverse.
#[derive(Clone, Copy, PartialEq, Eq, Structural, Debug)]
pub enum FieldError {
    ZeroInverse,
}

/// A field element: a residue modulo `MODULUS`.
#[derive(Clone, Copy, PartialEq, Eq, Structural, Debug)]
pub struct Fq {
    pub v: u64,
}

impl View for Fq {
    type V = int;

    open spec fn view(&self) -> int {
        self.v as int
    }
}

impl Fq {
    /// Well-formed: the residue is reduced.
    pub open spec fn wf(self) -> bool {
        self.v < MODULUS
    }

    /// The additive identity.
    pub fn zero() -> (r: Fq)
        ensures
            r.wf(),
            r@ == 0,
    {
        Fq { v: 0 }
    }

    /// The multiplicative identity.
    pub fn one() -> (r: Fq)
        ensures
            r.wf(),
            r@ == 1,
    {
        Fq { v: 1 }
    }

    /// The element representing `x`, reduced modulo the modulus.
    pub fn from_u64(x: u64) -> (r: Fq)
        ensures
            r.wf(),
            r@ == x as int % (MODULUS as int),
    {
        Fq { v: x % MODULUS }
    }

    /// Field addition.
    pub fn add(self, other: Fq) -> (r: Fq)
        requires
            self.wf(),
            other.wf(),
        ensures
            r.wf(),
            r@ == fadd(self@, other@),
    {
        Fq { v: (self.v + other.v) % MODULUS }
    }

    /// Field subtraction.
    pub fn sub(self, other: Fq) -> (r: Fq)
        requires
            self.wf(),
            other.wf(),
        ensures
            r.wf(),
            r@ == fsub(self@, other@),
    {
        proof {
            vstd::arithmetic::div_mod::lemma_mod_multiples_vanish(
                1,
                self@ - other@,
                MODULUS as int,
            );
        }
        Fq { v: (self.v + MODULUS - other.v) % MODULUS }
    }

    /// Field negation.
    pub fn neg(self) -> (r: Fq)
        requires
            self.wf(),
        ensures
            r.wf(),
            r@ == fneg(self@),
    {
        proof {
            vstd::arithmetic::div_mod::lemma_mod_multiples_vanish(1, 0 - self@, MODULUS as int);
        }
        Fq { v: (MODULUS - self.v) % MODULUS }
    }

    /// Field multiplication.
    pub fn mul(self, other: Fq) -> (r: Fq)
        requires
            self.wf(),
            other.wf(),
        ensures
            r.wf(),
            r@ == fmul(self@, other@),
    {
        proof {
            assert(self.v * other.v <= 16 * 16) by (nonlinear_arith)
                requires
                    self.v < 17,
                    other.v < 17,
            ;
        }
        Fq { v: (self.v * other.v) % MODULUS }
    }

    /// Field exponentiation by squaring-free repeated multiplication.
    pub fn pow(self, e: u64) -> (r: Fq)
        requires
            self.wf(),
        ensures
            r.wf(),
            r@ == fpow(self@, e as nat),
    {
        let mut res = Fq::one();
        let mut i: u64 = 0;
        while i < e
            invariant
                self.wf(),
                res.wf(),
                i <= e,
                res@ == fpow(self@, i as nat),
            decreases e - i,
        {
            proof {
                lemma_fmul_comm(res@, self@);
            }
            res = res.mul(self);
            i = i + 1;
        }
        res
    }

    /// Field inversion: defined for every element but zero, which is reported
    /// as the distinct `ZeroInverse` error.
    pub fn inv(self) -> (r: Result<Fq, FieldError>)
        requires
            self.wf(),
        ensures
            self@ == 0 ==> (r matches Err(e) && e == FieldError::ZeroInverse),
            self@ != 0 ==> (r matches Ok(y) && y.wf() && fmul(self@, y@) == 1),
    {
        match self.v {
            1 => Ok(Fq { v: 1 }),
            2 => Ok(Fq { v: 9 }),
            3 => Ok(Fq { v: 6 }),
            4 => Ok(Fq { v: 13 }),
            5 => Ok(Fq { v: 7 }),
            6 => Ok(Fq { v: 3 }),
            7 => Ok(Fq { v: 5 }),
            8 => Ok(Fq { v: 15 }),
            9 => Ok(Fq { v: 2 }),
            10 => Ok(Fq { v: 12 }),
            11 => Ok(Fq { v: 14 }),
            12 => Ok(Fq { v: 10 }),
            13 => Ok(Fq { v: 4 }),
            14 => Ok(Fq { v: 11 }),
            15 => Ok(Fq { v: 8 }),
            16 => Ok(Fq { v: 16 }),
            _ => Err(FieldError::ZeroInverse),
        }
    }
}

} // verus!
