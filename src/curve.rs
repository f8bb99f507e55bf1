use crate::field::{
    base_modulus, base_modulus_bytes, base_modulus_word, is_reduced, mod_add, mod_mul,
    mod_neg, mod_sub,
};
use crate::uint::{is_word, le_value, lemma_top_byte_lt, same_value, zero_word};
use vstd::arithmetic::div_mod::{lemma_add_mod_noop, lemma_sub_mod_noop};
use vstd::prelude::*;

verus! {

/// An element `c0 + c1·u` of the quadratic extension, where `u² = -1`.
pub struct Fq2 {
    pub c0: Vec<u8>,
    pub c1: Vec<u8>,
}

/// A point of the curve over the base field, in affine coordinates; `(0, 0)` stands for
/// the point at infinity, which the curve equation never admits.
pub struct G1Point {
    pub x: Vec<u8>,
    pub y: Vec<u8>,
}

/// A point of the twisted curve over the quadratic extension, in affine coordinates;
/// all four coordinates zero stand for the point at infinity.
pub struct G2Point {
    pub x: Fq2,
    pub y: Fq2,
}

pub type Fq2Value = (nat, nat);

pub type G1Value = (nat, nat);

pub type G2Value = (Fq2Value, Fq2Value);

impl Fq2 {
    pub open spec fn view(&self) -> Fq2Value {
        (le_value(self.c0@), le_value(self.c1@))
    }

    pub open spec fn wf(&self) -> bool {
        is_reduced(self.c0@, base_modulus_bytes()) && is_reduced(self.c1@, base_modulus_bytes())
    }
}

impl G1Point {
    pub open spec fn view(&self) -> G1Value {
        (le_value(self.x@), le_value(self.y@))
    }

    pub open spec fn wf(&self) -> bool {
        is_reduced(self.x@, base_modulus_bytes()) && is_reduced(self.y@, base_modulus_bytes())
    }
}

impl G2Point {
    pub open spec fn view(&self) -> G2Value {
        (self.x.view(), self.y.view())
    }

    pub open spec fn wf(&self) -> bool {
        self.x.wf() && self.y.wf()
    }
}

pub open spec fn fq(a: int) -> nat {
    (a % (base_modulus() as int)) as nat
}

pub open spec fn fq2_add(a: Fq2Value, b: Fq2Value) -> Fq2Value {
    (fq((a.0 + b.0) as int), fq((a.1 + b.1) as int))
}

pub open spec fn fq2_mul(a: Fq2Value, b: Fq2Value) -> Fq2Value {
    (fq(a.0 * b.0 - a.1 * b.1), fq((a.0 * b.1 + a.1 * b.0) as int))
}

/// The constant of the twisted curve, `3 / (9 + u)`: 19485874751759354771024239261021720505790618469301721065564631296452457478373
/// + 266929791119991161246907387137283842545076965332900288569378510910307636690·u.
pub open spec fn twist_b() -> Fq2Value {
    (le_value(twist_b_c0()), le_value(twist_b_c1()))
}

pub open spec fn fq2_sub(a: Fq2Value, b: Fq2Value) -> Fq2Value {
    (fq(a.0 - b.0), fq(a.1 - b.1))
}

/// A point of the twisted curve in homogeneous projective coordinates `(X : Y : Z)`;
/// `Z = 0` is the point at infinity.
pub struct G2Proj {
    pub x: Fq2,
    pub y: Fq2,
    pub z: Fq2,
}

pub type G2ProjValue = (Fq2Value, Fq2Value, Fq2Value);

impl G2Proj {
    pub open spec fn view(&self) -> G2ProjValue {
        (self.x.view(), self.y.view(), self.z.view())
    }

    pub open spec fn wf(&self) -> bool {
        self.x.wf() && self.y.wf() && self.z.wf()
    }
}

/// `3·b`, the constant that the complete formulas use.
pub open spec fn twist_b3() -> Fq2Value {
    fq2_mul((3, 0), twist_b())
}

pub open spec fn proj_identity() -> G2ProjValue {
    ((0, 0), (1, 0), (0, 0))
}

/// The sum of two points by the complete addition formulas for `y² = x³ + b`
/// (Renes, Costello and Batina, algorithm 7), valid for every pair of inputs on a curve
/// without points of order two.
pub open spec fn proj_add(p: G2ProjValue, q: G2ProjValue) -> G2ProjValue {
    let t0 = fq2_mul(p.0, q.0);
    let t1 = fq2_mul(p.1, q.1);
    let t2 = fq2_mul(p.2, q.2);
    let t3 = fq2_mul(fq2_add(p.0, p.1), fq2_add(q.0, q.1));
    let t3 = fq2_sub(t3, fq2_add(t0, t1));
    let t4 = fq2_mul(fq2_add(p.1, p.2), fq2_add(q.1, q.2));
    let t4 = fq2_sub(t4, fq2_add(t1, t2));
    let x3 = fq2_mul(fq2_add(p.0, p.2), fq2_add(q.0, q.2));
    let y3 = fq2_sub(x3, fq2_add(t0, t2));
    let t0 = fq2_add(fq2_add(t0, t0), t0);
    let t2 = fq2_mul(twist_b3(), t2);
    let z3 = fq2_add(t1, t2);
    let t1 = fq2_sub(t1, t2);
    let y3 = fq2_mul(twist_b3(), y3);
    let x3 = fq2_sub(fq2_mul(t3, t1), fq2_mul(t4, y3));
    let y3 = fq2_add(fq2_mul(t1, z3), fq2_mul(y3, t0));
    let z3 = fq2_add(fq2_mul(z3, t4), fq2_mul(t0, t3));
    (x3, y3, z3)
}

/// `2·p` by the complete doubling formulas (same source, algorithm 9).
pub open spec fn proj_double(p: G2ProjValue) -> G2ProjValue {
    let t0 = fq2_mul(p.1, p.1);
    let z3 = fq2_add(t0, t0);
    let z3 = fq2_add(z3, z3);
    let z3 = fq2_add(z3, z3);
    let t1 = fq2_mul(p.1, p.2);
    let t2 = fq2_mul(twist_b3(), fq2_mul(p.2, p.2));
    let x3 = fq2_mul(t2, z3);
    let y3 = fq2_add(t0, t2);
    let z3 = fq2_mul(t1, z3);
    let t2 = fq2_add(fq2_add(t2, t2), t2);
    let t0 = fq2_sub(t0, t2);
    let y3 = fq2_add(x3, fq2_mul(t0, y3));
    let x3 = fq2_mul(t0, fq2_mul(p.0, p.1));
    let x3 = fq2_add(x3, x3);
    (x3, y3, z3)
}

/// `n·p`, by doubling and adding from the highest bit of `n`.
pub open spec fn proj_mul(p: G2ProjValue, n: nat) -> G2ProjValue
    decreases n,
{
    if n == 0 {
        proj_identity()
    } else if n == 1 {
        p
    } else {
        let h = proj_double(proj_mul(p, n / 2));
        if n % 2 == 1 {
            proj_add(h, p)
        } else {
            h
        }
    }
}

/// An affine point of the twisted curve with `Z = 1`, or `(0 : 1 : 0)` for infinity.
pub open spec fn to_proj(q: G2Value) -> G2ProjValue {
    if q == g2_identity() {
        proj_identity()
    } else {
        (q.0, q.1, (1, 0))
    }
}

/// A point of the prime-order subgroup: the point at infinity, or a point `Q` with
/// `r·Q = O` for the group order `r`.
pub open spec fn g2_in_subgroup(q: G2Value) -> bool {
    q == g2_identity() || proj_mul(to_proj(q), crate::field::scalar_modulus()).2 == (0nat, 0nat)
}

pub open spec fn g1_identity() -> G1Value {
    (0, 0)
}

pub open spec fn g2_identity() -> G2Value {
    ((0, 0), (0, 0))
}

/// `y² = x³ + 3` over the base field.
pub open spec fn g1_on_curve(p: G1Value) -> bool {
    fq((p.1 * p.1) as int) == fq((p.0 * p.0 * p.0 + 3) as int)
}

/// `y² = x³ + b` over the quadratic extension.
pub open spec fn g2_on_curve(q: G2Value) -> bool {
    fq2_mul(q.1, q.1) == fq2_add(fq2_mul(fq2_mul(q.0, q.0), q.0), twist_b())
}

/// A point of the first group: the point at infinity or a point of the curve.
pub open spec fn g1_valid(p: G1Value) -> bool {
    p.0 < base_modulus() && p.1 < base_modulus() && (p == g1_identity() || g1_on_curve(p))
}

/// A point of the twisted curve: the point at infinity or a solution of its equation.
pub open spec fn g2_valid(q: G2Value) -> bool {
    &&& q.0.0 < base_modulus()
    &&& q.0.1 < base_modulus()
    &&& q.1.0 < base_modulus()
    &&& q.1.1 < base_modulus()
    &&& (q == g2_identity() || g2_on_curve(q))
}

/// `-q` on the twisted curve.
pub open spec fn g2_neg(q: G2Value) -> G2Value {
    if q == g2_identity() {
        q
    } else {
        (q.0, (fq(0 - q.1.0), fq(0 - q.1.1)))
    }
}

/// `-p`: the point at infinity stays, otherwise `y` is negated.
pub open spec fn g1_neg(p: G1Value) -> G1Value {
    if p == g1_identity() {
        p
    } else {
        (p.0, fq(0 - p.1))
    }
}

pub proof fn lemma_twist_b_nonzero()
    ensures
        0 < twist_b().0 < base_modulus(),
{
    let c = twist_b_c0();
    lemma_top_byte_lt(c, base_modulus_bytes());
    let mut z = Seq::new(32, |i: int| 0u8);
    z = z.update(31, 1u8);
    lemma_top_byte_lt(z, c);
}

/// Negation keeps a point in the first group.
pub proof fn lemma_g1_neg_valid(p: G1Value)
    requires
        g1_valid(p),
    ensures
        g1_valid(g1_neg(p)),
{
    if p != g1_identity() {
        let m = base_modulus() as int;
        crate::field::lemma_top_value();
        let y = p.1 as int;
        vstd::arithmetic::div_mod::lemma_mul_mod_noop(0 - y, 0 - y, m);
        assert((0 - y) * (0 - y) == y * y) by (nonlinear_arith);
        vstd::arithmetic::div_mod::lemma_mod_bound(0 - y, m);
    }
}

fn twist_b_exec() -> (r: Fq2)
    ensures
        r.view() == twist_b(),
        r.wf(),
{
    let c0 = vec![
        229u8, 56, 161, 36, 220, 230, 103, 50, 163, 239, 219, 89, 229, 197, 180, 181, 195, 106,
        224, 27, 153, 24, 190, 129, 174, 170, 184, 206, 64, 157, 20, 43,
    ];
    let c1 = vec![
        210u8, 21, 195, 133, 6, 189, 162, 228, 82, 24, 45, 229, 132, 160, 79, 167, 244, 253, 216,
        238, 173, 175, 44, 205, 212, 254, 240, 58, 176, 19, 151, 0,
    ];
    proof {
        assert(c0@ =~= twist_b_c0());
        assert(c1@ =~= twist_b_c1());
        lemma_top_byte_lt(c0@, base_modulus_bytes());
        lemma_top_byte_lt(c1@, base_modulus_bytes());
    }
    Fq2 { c0, c1 }
}

pub open spec fn twist_b_c0() -> Seq<u8> {
    seq![
        229u8, 56, 161, 36, 220, 230, 103, 50, 163, 239, 219, 89, 229, 197, 180, 181, 195, 106,
        224, 27, 153, 24, 190, 129, 174, 170, 184, 206, 64, 157, 20, 43,
    ]
}

pub open spec fn twist_b_c1() -> Seq<u8> {
    seq![
        210u8, 21, 195, 133, 6, 189, 162, 228, 82, 24, 45, 229, 132, 160, 79, 167, 244, 253, 216,
        238, 173, 175, 44, 205, 212, 254, 240, 58, 176, 19, 151, 0,
    ]
}

fn fq2_add_exec(a: &Fq2, b: &Fq2, m: &Vec<u8>) -> (r: Fq2)
    requires
        m@ == base_modulus_bytes(),
        a.wf(),
        b.wf(),
    ensures
        r.wf(),
        r.view() == fq2_add(a.view(), b.view()),
{
    proof {
        crate::field::lemma_moduli();
    }
    Fq2 { c0: mod_add(&a.c0, &b.c0, m), c1: mod_add(&a.c1, &b.c1, m) }
}

fn fq2_mul_exec(a: &Fq2, b: &Fq2, m: &Vec<u8>) -> (r: Fq2)
    requires
        m@ == base_modulus_bytes(),
        a.wf(),
        b.wf(),
    ensures
        r.wf(),
        r.view() == fq2_mul(a.view(), b.view()),
{
    proof {
        crate::field::lemma_moduli();
    }
    let t0 = mod_mul(&a.c0, &b.c0, m);
    let t1 = mod_mul(&a.c1, &b.c1, m);
    let t2 = mod_mul(&a.c0, &b.c1, m);
    let t3 = mod_mul(&a.c1, &b.c0, m);
    let c0 = mod_sub(&t0, &t1, m);
    let c1 = mod_add(&t2, &t3, m);
    proof {
        let pm = base_modulus() as int;
        let (a0, a1) = (le_value(a.c0@) as int, le_value(a.c1@) as int);
        let (b0, b1) = (le_value(b.c0@) as int, le_value(b.c1@) as int);
        lemma_sub_mod_noop(a0 * b0, a1 * b1, pm);
        lemma_add_mod_noop(a0 * b1, a1 * b0, pm);
    }
    Fq2 { c0, c1 }
}

fn fq2_same(a: &Fq2, b: &Fq2) -> (r: bool)
    requires
        is_word(a.c0@),
        is_word(a.c1@),
        is_word(b.c0@),
        is_word(b.c1@),
    ensures
        r == (a.view() == b.view()),
{
    same_value(&a.c0, &b.c0) && same_value(&a.c1, &b.c1)
}

fn is_zero_word(a: &Vec<u8>) -> (r: bool)
    requires
        is_word(a@),
    ensures
        r == (le_value(a@) == 0),
{
    let z = zero_word();
    same_value(a, &z)
}

fn fq2_sub_exec(a: &Fq2, b: &Fq2, m: &Vec<u8>) -> (r: Fq2)
    requires
        m@ == base_modulus_bytes(),
        a.wf(),
        b.wf(),
    ensures
        r.wf(),
        r.view() == fq2_sub(a.view(), b.view()),
{
    proof {
        crate::field::lemma_moduli();
    }
    Fq2 { c0: mod_sub(&a.c0, &b.c0, m), c1: mod_sub(&a.c1, &b.c1, m) }
}

fn fq2_small(c: u8) -> (r: Fq2)
    requires
        c <= 3,
    ensures
        r.wf(),
        r.view() == (c as nat, 0nat),
{
    let mut w: Vec<u8> = vec![
        0u8, 0, 0, 0, 0, 0, 0, 0, 0, 0, 0, 0, 0, 0, 0, 0, 0, 0, 0, 0, 0, 0, 0, 0, 0, 0, 0, 0, 0,
        0, 0, 0,
    ];
    w.set(0, c);
    proof {
        crate::uint::lemma_small_word(w@, c);
        crate::field::lemma_top_value();
        crate::uint::lemma_small_word(zero_word_seq(), 0);
    }
    let z: Vec<u8> = vec![
        0u8, 0, 0, 0, 0, 0, 0, 0, 0, 0, 0, 0, 0, 0, 0, 0, 0, 0, 0, 0, 0, 0, 0, 0, 0, 0, 0, 0, 0,
        0, 0, 0,
    ];
    proof {
        assert(z@ =~= zero_word_seq());
    }
    Fq2 { c0: w, c1: z }
}

spec fn zero_word_seq() -> Seq<u8> {
    seq![0u8].add(Seq::new(31, |i: int| 0u8))
}

fn twist_b3_exec(m: &Vec<u8>) -> (r: Fq2)
    requires
        m@ == base_modulus_bytes(),
    ensures
        r.wf(),
        r.view() == twist_b3(),
{
    fq2_mul_exec(&fq2_small(3), &twist_b_exec(), m)
}

/// The sum of two points of the twisted curve, by the complete formulas.
pub fn g2_proj_add(p: &G2Proj, q: &G2Proj) -> (r: G2Proj)
    requires
        p.wf(),
        q.wf(),
    ensures
        r.wf(),
        r.view() == proj_add(p.view(), q.view()),
{
    let m = base_modulus_word();
    let b3 = twist_b3_exec(&m);
    let t0 = fq2_mul_exec(&p.x, &q.x, &m);
    let t1 = fq2_mul_exec(&p.y, &q.y, &m);
    let t2 = fq2_mul_exec(&p.z, &q.z, &m);
    let t3 = fq2_mul_exec(&fq2_add_exec(&p.x, &p.y, &m), &fq2_add_exec(&q.x, &q.y, &m), &m);
    let t3 = fq2_sub_exec(&t3, &fq2_add_exec(&t0, &t1, &m), &m);
    let t4 = fq2_mul_exec(&fq2_add_exec(&p.y, &p.z, &m), &fq2_add_exec(&q.y, &q.z, &m), &m);
    let t4 = fq2_sub_exec(&t4, &fq2_add_exec(&t1, &t2, &m), &m);
    let x3 = fq2_mul_exec(&fq2_add_exec(&p.x, &p.z, &m), &fq2_add_exec(&q.x, &q.z, &m), &m);
    let y3 = fq2_sub_exec(&x3, &fq2_add_exec(&t0, &t2, &m), &m);
    let t0 = fq2_add_exec(&fq2_add_exec(&t0, &t0, &m), &t0, &m);
    let t2 = fq2_mul_exec(&b3, &t2, &m);
    let z3 = fq2_add_exec(&t1, &t2, &m);
    let t1 = fq2_sub_exec(&t1, &t2, &m);
    let y3 = fq2_mul_exec(&b3, &y3, &m);
    let x3 = fq2_sub_exec(&fq2_mul_exec(&t3, &t1, &m), &fq2_mul_exec(&t4, &y3, &m), &m);
    let y3 = fq2_add_exec(&fq2_mul_exec(&t1, &z3, &m), &fq2_mul_exec(&y3, &t0, &m), &m);
    let z3 = fq2_add_exec(&fq2_mul_exec(&z3, &t4, &m), &fq2_mul_exec(&t0, &t3, &m), &m);
    G2Proj { x: x3, y: y3, z: z3 }
}

/// Twice a point of the twisted curve, by the complete formulas.
pub fn g2_proj_double(p: &G2Proj) -> (r: G2Proj)
    requires
        p.wf(),
    ensures
        r.wf(),
        r.view() == proj_double(p.view()),
{
    let m = base_modulus_word();
    let b3 = twist_b3_exec(&m);
    let t0 = fq2_mul_exec(&p.y, &p.y, &m);
    let z3 = fq2_add_exec(&t0, &t0, &m);
    let z3 = fq2_add_exec(&z3, &z3, &m);
    let z3 = fq2_add_exec(&z3, &z3, &m);
    let t1 = fq2_mul_exec(&p.y, &p.z, &m);
    let t2 = fq2_mul_exec(&b3, &fq2_mul_exec(&p.z, &p.z, &m), &m);
    let x3 = fq2_mul_exec(&t2, &z3, &m);
    let y3 = fq2_add_exec(&t0, &t2, &m);
    let z3 = fq2_mul_exec(&t1, &z3, &m);
    let t2 = fq2_add_exec(&fq2_add_exec(&t2, &t2, &m), &t2, &m);
    let t0 = fq2_sub_exec(&t0, &t2, &m);
    let y3 = fq2_add_exec(&x3, &fq2_mul_exec(&t0, &y3, &m), &m);
    let x3 = fq2_mul_exec(&t0, &fq2_mul_exec(&p.x, &p.y, &m), &m);
    let x3 = fq2_add_exec(&x3, &x3, &m);
    G2Proj { x: x3, y: y3, z: z3 }
}

fn clone_fq2(a: &Fq2) -> (r: Fq2)
    ensures
        r.c0@ == a.c0@,
        r.c1@ == a.c1@,
{
    Fq2 { c0: a.c0.clone(), c1: a.c1.clone() }
}

/// `s·p` on the twisted curve, for a scalar given as a word.
pub fn g2_proj_mul(p: &G2Proj, s: &Vec<u8>) -> (r: G2Proj)
    requires
        p.wf(),
        is_word(s@),
    ensures
        r.wf(),
        r.view() == proj_mul(p.view(), le_value(s@)),
{
    let mut acc = G2Proj { x: fq2_small(0), y: fq2_small(1), z: fq2_small(0) };
    let mut started = false;
    let mut i: usize = 32;
    proof {
        assert(s@.skip(32) =~= Seq::<u8>::empty());
    }
    while i > 0
        invariant
            p.wf(),
            is_word(s@),
            i <= 32,
            acc.wf(),
            started == (le_value(s@.skip(i as int)) > 0),
            acc.view() == proj_mul(p.view(), le_value(s@.skip(i as int))),
        decreases i,
    {
        let k = i - 1;
        let byte: u32 = s[k] as u32;
        let ghost hi = le_value(s@.skip(i as int));
        let ghost mut q: nat = 0;
        let ghost mut sc: nat = 1;
        let mut rem: u32 = byte;
        let mut tw: u32 = 256;
        let mut j: usize = 0;
        proof {
            vstd::arithmetic::power2::lemma2_to64();
        }
        while j < 8
            invariant
                p.wf(),
                acc.wf(),
                j <= 8,
                tw == vstd::arithmetic::power2::pow2((8 - j) as nat),
                sc == vstd::arithmetic::power2::pow2(j as nat),
                byte == q * tw + rem,
                rem < tw,
                started == (hi * sc + q > 0),
                acc.view() == proj_mul(p.view(), hi * sc + q),
            decreases 8 - j,
        {
            proof {
                vstd::arithmetic::power2::lemma_pow2_unfold((8 - j) as nat);
                vstd::arithmetic::power2::lemma_pow2_unfold((j + 1) as nat);
                vstd::arithmetic::power2::lemma_pow2_pos(j as nat);
            }
            let half: u32 = tw / 2;
            let ghost n = hi * sc + q;
            let bit = rem >= half;
            if started {
                acc = g2_proj_double(&acc);
                if bit {
                    acc = g2_proj_add(&acc, p);
                }
            } else if bit {
                acc = G2Proj { x: clone_fq2(&p.x), y: clone_fq2(&p.y), z: clone_fq2(&p.z) };
                started = true;
            }
            proof {
                let b: nat = if bit { 1 } else { 0 };
                assert(hi * (2 * sc) + (2 * q + b) == 2 * n + b) by (nonlinear_arith)
                    requires
                        n == hi * sc + q,
                ;
                assert((2 * q + b) * half + (rem - b * half) == q * tw + rem) by (nonlinear_arith)
                    requires
                        tw == 2 * half,
                        b == 0 || b == 1,
                ;
                assert((2 * n + b) / 2 == n && (2 * n + b) % 2 == b);
                q = 2 * q + b;
                sc = 2 * sc;
            }
            if bit {
                rem = rem - half;
            }
            tw = half;
            j = j + 1;
        }
        proof {
            vstd::arithmetic::power2::lemma2_to64();
            assert(j == 8);
            assert(sc == 256);
            assert(rem == 0);
            crate::uint::lemma_value_front(s@.skip(k as int));
            assert(s@.skip(k as int)[0] == byte);
            assert(s@.skip(k as int).skip(1) =~= s@.skip(i as int));
            assert(q == byte);
        }
        i = k;
    }
    proof {
        assert(s@.skip(0) =~= s@);
    }
    acc
}

/// Whether a point of the twisted curve lies in the prime-order subgroup.
pub fn g2_in_subgroup_exec(q: &G2Point) -> (r: bool)
    requires
        q.wf(),
    ensures
        r == g2_in_subgroup(q.view()),
{
    if is_zero_word(&q.x.c0) && is_zero_word(&q.x.c1) && is_zero_word(&q.y.c0) && is_zero_word(
        &q.y.c1,
    ) {
        return true;
    }
    let p = G2Proj { x: clone_fq2(&q.x), y: clone_fq2(&q.y), z: fq2_small(1) };
    let r = crate::field::scalar_modulus_word();
    let m = g2_proj_mul(&p, &r);
    is_zero_word(&m.z.c0) && is_zero_word(&m.z.c1)
}

/// `-q` on the twisted curve: the point at infinity stays, otherwise `y` is negated.
pub fn g2_negate(q: &G2Point) -> (r: G2Point)
    requires
        q.wf(),
    ensures
        r.wf(),
        r.view() == g2_neg(q.view()),
{
    let m = base_modulus_word();
    proof {
        crate::field::lemma_moduli();
    }
    if is_zero_word(&q.x.c0) && is_zero_word(&q.x.c1) && is_zero_word(&q.y.c0) && is_zero_word(
        &q.y.c1,
    ) {
        return G2Point { x: clone_fq2(&q.x), y: clone_fq2(&q.y) };
    }
    G2Point { x: clone_fq2(&q.x), y: Fq2 { c0: mod_neg(&q.y.c0, &m), c1: mod_neg(&q.y.c1, &m) } }
}

/// Whether a point with reduced coordinates lies in the first group.
pub fn g1_is_valid(p: &G1Point) -> (r: bool)
    requires
        p.wf(),
    ensures
        r == g1_valid(p.view()),
{
    if is_zero_word(&p.x) && is_zero_word(&p.y) {
        return true;
    }
    let m = base_modulus_word();
    proof {
        crate::field::lemma_moduli();
    }
    let yy = mod_mul(&p.y, &p.y, &m);
    let xx = mod_mul(&p.x, &p.x, &m);
    let xxx = mod_mul(&xx, &p.x, &m);
    let three: Vec<u8> = vec![
        3u8, 0, 0, 0, 0, 0, 0, 0, 0, 0, 0, 0, 0, 0, 0, 0, 0, 0, 0, 0, 0, 0, 0, 0, 0, 0, 0, 0, 0, 0, 0, 0,
    ];
    proof {
        assert(three@ =~= seq![3u8, 0, 0, 0, 0, 0, 0, 0, 0, 0, 0, 0, 0, 0, 0, 0, 0, 0, 0, 0, 0, 0, 0, 0, 0, 0, 0, 0, 0, 0, 0, 0]);
        small_word_value(three@);
    }
    let rhs = mod_add(&xxx, &three, &m);
    proof {
        let pm = base_modulus() as int;
        let x = le_value(p.x@) as int;
        crate::uint::lemma_value_bound(three@);
        vstd::arithmetic::div_mod::lemma_mul_mod_noop_left(x * x, x, pm);
        lemma_add_mod_noop(x * x * x, 3, pm);
        vstd::arithmetic::div_mod::lemma_small_mod(3, pm as nat);
    }
    same_value(&yy, &rhs)
}

proof fn small_word_prefix(w: Seq<u8>, k: int)
    requires
        is_word(w),
        1 <= k <= 32,
        w[0] == 3,
        forall|i: int| 1 <= i < 32 ==> w[i] == 0,
    ensures
        le_value(w.take(k)) == 3,
    decreases k,
{
    if k == 1 {
        crate::uint::lemma_value_take(w, 0);
        assert(w.take(0) =~= Seq::<u8>::empty());
        assert(crate::uint::radix_pow(0) == 1);
    } else {
        small_word_prefix(w, k - 1);
        crate::uint::lemma_value_take(w, k - 1);
    }
}

proof fn small_word_value(w: Seq<u8>)
    requires
        is_word(w),
        w[0] == 3,
        forall|i: int| 1 <= i < 32 ==> w[i] == 0,
    ensures
        le_value(w) == 3,
{
    small_word_prefix(w, 32);
    assert(w.take(32) =~= w);
}

/// Whether a point with reduced coordinates lies on the twisted curve.
pub fn g2_is_valid(q: &G2Point) -> (r: bool)
    requires
        q.wf(),
    ensures
        r == g2_valid(q.view()),
{
    if is_zero_word(&q.x.c0) && is_zero_word(&q.x.c1) && is_zero_word(&q.y.c0) && is_zero_word(
        &q.y.c1,
    ) {
        return true;
    }
    let m = base_modulus_word();
    let yy = fq2_mul_exec(&q.y, &q.y, &m);
    let xx = fq2_mul_exec(&q.x, &q.x, &m);
    let xxx = fq2_mul_exec(&xx, &q.x, &m);
    let b = twist_b_exec();
    let rhs = fq2_add_exec(&xxx, &b, &m);
    fq2_same(&yy, &rhs)
}

/// `-p` in the first group.
pub fn g1_negate(p: &G1Point) -> (r: G1Point)
    requires
        p.wf(),
    ensures
        r.wf(),
        r.view() == g1_neg(p.view()),
{
    if is_zero_word(&p.x) && is_zero_word(&p.y) {
        return G1Point { x: p.x.clone(), y: p.y.clone() };
    }
    let m = base_modulus_word();
    G1Point { x: p.x.clone(), y: mod_neg(&p.y, &m) }
}

} // verus!
