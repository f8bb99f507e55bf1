use crate::codec::{
    decode_g1, decode_g2, decode_public_inputs, error_of, first_error, g1_decoding, g2_decoding,
    lemma_first_error_at, lemma_first_error_none, num, one_word,
    scalars_parse, VerifyError,
};
use crate::curve::{g1_negate, g1_neg, g1_valid, g2_in_subgroup, g2_valid, G1Point, G1Value, G2Point, G2Value};
use crate::field::{is_reduced, scalar_modulus_bytes};
use crate::uint::le_value;
use vstd::prelude::*;

verus! {

/// A Groth16 verification key.
pub struct VerificationKey {
    pub alpha_g1: G1Point,
    pub beta_g2: G2Point,
    pub gamma_g2: G2Point,
    pub delta_g2: G2Point,
    /// One point for the constant term, then one for each public input.
    pub ic: Vec<G1Point>,
}

/// A Groth16 proof.
pub struct Proof {
    pub a: G1Point,
    pub b: G2Point,
    pub c: G1Point,
}

pub open spec fn g1_ok(p: G1Point) -> bool {
    p.wf() && g1_valid(p.view())
}

/// A point of the twisted curve that lies in the prime-order subgroup.
pub open spec fn g2_ok(q: G2Point) -> bool {
    q.wf() && g2_valid(q.view()) && g2_in_subgroup(q.view())
}

pub open spec fn g1_views(ps: Seq<G1Point>) -> Seq<G1Value> {
    ps.map_values(|p: G1Point| p.view())
}

pub open spec fn g2_views(qs: Seq<G2Point>) -> Seq<G2Value> {
    qs.map_values(|q: G2Point| q.view())
}

pub open spec fn scalar_values(s: Seq<Vec<u8>>) -> Seq<nat> {
    s.map_values(|w: Vec<u8>| le_value(w@))
}

/// Canonical elements of the scalar field.
pub open spec fn scalars_ok(s: Seq<Vec<u8>>) -> bool {
    forall|i: int| 0 <= i < s.len() ==> is_reduced(#[trigger] s[i]@, scalar_modulus_bytes())
}

impl VerificationKey {
    /// Every point of the key lies in its group.
    pub open spec fn wf(&self) -> bool {
        &&& g1_ok(self.alpha_g1)
        &&& g2_ok(self.beta_g2)
        &&& g2_ok(self.gamma_g2)
        &&& g2_ok(self.delta_g2)
        &&& forall|i: int| 0 <= i < self.ic@.len() ==> g1_ok(#[trigger] self.ic@[i])
    }
}

impl Proof {
    pub open spec fn wf(&self) -> bool {
        g1_ok(self.a) && g2_ok(self.b) && g1_ok(self.c)
    }
}

/// What the host's multi-scalar multiplication returns: `Σ scalars[i]·points[i]`.
pub uninterp spec fn multiexp_of(points: Seq<G1Value>, scalars: Seq<nat>) -> G1Value;

/// What the host's pairing check returns: whether `Π e(g1[i], g2[i])` is the identity of
/// the target group.
pub uninterp spec fn pairing_check_of(g1: Seq<G1Value>, g2: Seq<G2Value>) -> bool;

/// Relies on near_sdk::env::alt_bn128_g1_multiexp: it reads each point as 64 little-endian
/// bytes `x ‖ y` and each scalar as 32, and returns the sum in the same affine encoding,
/// `(0, 0)` for the point at infinity. It aborts on a point off the curve or a scalar not
/// below the group order, which the contract leaves out.
#[verifier::external_body]
fn g1_multiexp(points: &Vec<G1Point>, scalars: &Vec<Vec<u8>>) -> (r: G1Point)
    requires
        points@.len() == scalars@.len(),
        forall|i: int| 0 <= i < points@.len() ==> g1_ok(#[trigger] points@[i]),
        scalars_ok(scalars@),
    ensures
        g1_ok(r),
        r.view() == multiexp_of(g1_views(points@), scalar_values(scalars@)),
{
    let mut input: Vec<u8> = Vec::new();
    for (p, s) in points.iter().zip(scalars.iter()) {
        input.extend_from_slice(&p.x);
        input.extend_from_slice(&p.y);
        input.extend_from_slice(s);
    }
    let out = near_sdk::env::alt_bn128_g1_multiexp(&input);
    G1Point { x: out[..32].to_vec(), y: out[32..64].to_vec() }
}

/// Relies on near_sdk::env::alt_bn128_pairing_check: it reads each pair as a first-group
/// point `x ‖ y` and a twisted-curve point `x.c0 ‖ x.c1 ‖ y.c0 ‖ y.c1`, all little-endian,
/// and tells whether the product of the pairings is one. It aborts on a point off its
/// curve, or on a twisted-curve point outside the prime-order subgroup; the contract
/// leaves both out.
#[verifier::external_body]
fn pairing_check(g1: &Vec<G1Point>, g2: &Vec<G2Point>) -> (r: bool)
    requires
        g1@.len() == g2@.len(),
        forall|i: int| 0 <= i < g1@.len() ==> g1_ok(#[trigger] g1@[i]),
        forall|i: int| 0 <= i < g2@.len() ==> g2_ok(#[trigger] g2@[i]),
    ensures
        r == pairing_check_of(g1_views(g1@), g2_views(g2@)),
{
    let mut input: Vec<u8> = Vec::new();
    for (p, q) in g1.iter().zip(g2.iter()) {
        input.extend_from_slice(&p.x);
        input.extend_from_slice(&p.y);
        for w in [&q.x.c0, &q.x.c1, &q.y.c0, &q.y.c1] {
            input.extend_from_slice(w);
        }
    }
    near_sdk::env::alt_bn128_pairing_check(&input)
}

/// The Groth16 equation `e(A, B) = e(α, β) · e(vk_x, γ) · e(C, δ)`, with
/// `vk_x = ic[0] + Σ inputs[i]·ic[i + 1]`, as the single check
/// `e(-A, B) · e(α, β) · e(vk_x, γ) · e(C, δ) = 1`.
pub open spec fn accepts(
    alpha: G1Value,
    beta: G2Value,
    gamma: G2Value,
    delta: G2Value,
    ic: Seq<G1Value>,
    a: G1Value,
    b: G2Value,
    c: G1Value,
    inputs: Seq<nat>,
) -> bool {
    pairing_check_of(
        seq![g1_neg(a), alpha, multiexp_of(ic, seq![1nat] + inputs), c],
        seq![b, beta, gamma, delta],
    )
}

pub open spec fn groth16_holds(vk: VerificationKey, proof: Proof, inputs: Seq<Vec<u8>>) -> bool {
    accepts(
        vk.alpha_g1.view(),
        vk.beta_g2.view(),
        vk.gamma_g2.view(),
        vk.delta_g2.view(),
        g1_views(vk.ic@),
        proof.a.view(),
        proof.b.view(),
        proof.c.view(),
        scalar_values(inputs),
    )
}

/// What `verify` answers.
pub open spec fn verify_result(vk: VerificationKey, proof: Proof, inputs: Seq<Vec<u8>>) -> Result<
    bool,
    VerifyError,
> {
    if inputs.len() + 1 != vk.ic@.len() {
        Err(VerifyError::PublicInputCountMismatch)
    } else {
        Ok(groth16_holds(vk, proof, inputs))
    }
}

fn clone_g1(p: &G1Point) -> (r: G1Point)
    ensures
        r.x@ == p.x@,
        r.y@ == p.y@,
{
    G1Point { x: p.x.clone(), y: p.y.clone() }
}

fn clone_g2(q: &G2Point) -> (r: G2Point)
    ensures
        r.x.c0@ == q.x.c0@,
        r.x.c1@ == q.x.c1@,
        r.y.c0@ == q.y.c0@,
        r.y.c1@ == q.y.c1@,
{
    G2Point {
        x: crate::curve::Fq2 { c0: q.x.c0.clone(), c1: q.x.c1.clone() },
        y: crate::curve::Fq2 { c0: q.y.c0.clone(), c1: q.y.c1.clone() },
    }
}

/// Checks a Groth16 proof against a key and public inputs.
pub fn verify(vk: &VerificationKey, proof: &Proof, inputs: &Vec<Vec<u8>>) -> (r: Result<
    bool,
    VerifyError,
>)
    requires
        vk.wf(),
        proof.wf(),
        scalars_ok(inputs@),
    ensures
        r == verify_result(*vk, *proof, inputs@),
{
    if vk.ic.len() == 0 || inputs.len() != vk.ic.len() - 1 {
        return Err(VerifyError::PublicInputCountMismatch);
    }
    let mut scalars: Vec<Vec<u8>> = Vec::new();
    scalars.push(one_word());
    let mut i: usize = 0;
    proof {
        crate::field::lemma_moduli();
        crate::field::lemma_top_value();
    }
    while i < inputs.len()
        invariant
            scalars_ok(inputs@),
            i <= inputs@.len(),
            scalars@.len() == i + 1,
            scalars_ok(scalars@),
            scalar_values(scalars@) =~= seq![1nat] + scalar_values(inputs@.take(i as int)),
        decreases inputs@.len() - i,
    {
        proof {
            crate::field::lemma_scalar_one();
        }
        let w = inputs[i].clone();
        proof {
            assert(w@ == inputs@[i as int]@);
            assert(scalar_values(scalars@.push(w)) =~= scalar_values(scalars@).push(le_value(w@)));
            assert(scalar_values(inputs@.take(i + 1)) =~= scalar_values(inputs@.take(i as int)).push(
                le_value(w@),
            ));
        }
        scalars.push(w);
        proof {
            assert(inputs@.take(i + 1) =~= inputs@.take(i as int).push(inputs@[i as int]));
            assert(scalar_values(scalars@) =~= seq![1nat] + scalar_values(inputs@.take(i + 1)));
        }
        i = i + 1;
    }
    proof {
        assert(inputs@.take(inputs@.len() as int) =~= inputs@);
    }
    let acc = g1_multiexp(&vk.ic, &scalars);
    let neg_a = g1_negate(&proof.a);
    let g1s: Vec<G1Point> = vec![neg_a, clone_g1(&vk.alpha_g1), acc, clone_g1(&proof.c)];
    let g2s: Vec<G2Point> = vec![
        clone_g2(&proof.b),
        clone_g2(&vk.beta_g2),
        clone_g2(&vk.gamma_g2),
        clone_g2(&vk.delta_g2),
    ];
    proof {
        assert(g1_views(g1s@) =~= seq![
            g1_neg(proof.a.view()),
            vk.alpha_g1.view(),
            multiexp_of(g1_views(vk.ic@), seq![1nat] + scalar_values(inputs@)),
            proof.c.view(),
        ]);
        assert(g2_views(g2s@) =~= seq![
            proof.b.view(),
            vk.beta_g2.view(),
            vk.gamma_g2.view(),
            vk.delta_g2.view(),
        ]);
        crate::curve::lemma_g1_neg_valid(proof.a.view());
        assert(g1_ok(g1s@[0]));
    }
    Ok(pairing_check(&g1s, &g2s))
}

/// A verification key as decimal texts, in the projective layout of common proving
/// toolchains: `[x, y, z]` for a point of the first group, `[[x0, x1], [y0, y1], [z0, z1]]`
/// for one of the twisted curve.
pub struct RawVerificationKey {
    pub n_public: usize,
    pub vk_alpha_1: Vec<String>,
    pub vk_beta_2: Vec<Vec<String>>,
    pub vk_gamma_2: Vec<Vec<String>>,
    pub vk_delta_2: Vec<Vec<String>>,
    pub ic: Vec<Vec<String>>,
}

/// A proof as decimal texts, in the same layout.
pub struct RawProof {
    pub pi_a: Vec<String>,
    pub pi_b: Vec<Vec<String>>,
    pub pi_c: Vec<String>,
}

/// The outcome of decoding each point of a key, in order.
pub open spec fn key_errors(raw: RawVerificationKey) -> Seq<Option<VerifyError>> {
    seq![
        error_of(g1_decoding(raw.vk_alpha_1@)),
        error_of(g2_decoding(raw.vk_beta_2@)),
        error_of(g2_decoding(raw.vk_gamma_2@)),
        error_of(g2_decoding(raw.vk_delta_2@)),
    ] + Seq::new(raw.ic@.len(), |i: int| error_of(g1_decoding(raw.ic@[i]@)))
}

/// The outcome of decoding each point of a proof, in order.
pub open spec fn proof_errors(raw: RawProof) -> Seq<Option<VerifyError>> {
    seq![
        error_of(g1_decoding(raw.pi_a@)),
        error_of(g2_decoding(raw.pi_b@)),
        error_of(g1_decoding(raw.pi_c@)),
    ]
}

pub open spec fn count_matches(raw: RawVerificationKey) -> bool {
    raw.ic@.len() == raw.n_public + 1
}

/// The key that decoding yields, point for point.
pub open spec fn decodes_to(raw: RawVerificationKey, vk: VerificationKey) -> bool {
    &&& g1_decoding(raw.vk_alpha_1@) == Ok::<G1Value, VerifyError>(vk.alpha_g1.view())
    &&& g2_decoding(raw.vk_beta_2@) == Ok::<G2Value, VerifyError>(vk.beta_g2.view())
    &&& g2_decoding(raw.vk_gamma_2@) == Ok::<G2Value, VerifyError>(vk.gamma_g2.view())
    &&& g2_decoding(raw.vk_delta_2@) == Ok::<G2Value, VerifyError>(vk.delta_g2.view())
    &&& vk.ic@.len() == raw.ic@.len()
    &&& forall|i: int|
        0 <= i < raw.ic@.len() ==> g1_decoding(#[trigger] raw.ic@[i]@) == Ok::<
            G1Value,
            VerifyError,
        >(vk.ic@[i].view())
}

/// The proof that decoding yields, point for point.
pub open spec fn proof_decodes_to(raw: RawProof, proof: Proof) -> bool {
    &&& g1_decoding(raw.pi_a@) == Ok::<G1Value, VerifyError>(proof.a.view())
    &&& g2_decoding(raw.pi_b@) == Ok::<G2Value, VerifyError>(proof.b.view())
    &&& g1_decoding(raw.pi_c@) == Ok::<G1Value, VerifyError>(proof.c.view())
}

/// Decodes a verification key. The count of `IC` points is checked first, then each
/// point in order; the first failure is reported.
pub fn decode_verification_key(raw: &RawVerificationKey) -> (r: Result<VerificationKey, VerifyError>)
    ensures
        !count_matches(*raw) ==> r == Err::<VerificationKey, VerifyError>(
            VerifyError::PublicInputCountMismatch,
        ),
        count_matches(*raw) ==> (r is Ok <==> first_error(key_errors(*raw)) is None),
        count_matches(*raw) && r is Err ==> first_error(key_errors(*raw)) == Some(r->Err_0),
        r is Ok ==> r->Ok_0.wf() && decodes_to(*raw, r->Ok_0),
{
    if raw.ic.len() == 0 || raw.ic.len() - 1 != raw.n_public {
        return Err(VerifyError::PublicInputCountMismatch);
    }
    let ghost errs = key_errors(*raw);
    let alpha = match decode_g1(&raw.vk_alpha_1) {
        Ok(p) => p,
        Err(e) => {
            proof {
                lemma_first_error_at(errs, 0);
            }
            return Err(e);
        },
    };
    let beta = match decode_g2(&raw.vk_beta_2) {
        Ok(q) => q,
        Err(e) => {
            proof {
                lemma_first_error_at(errs, 1);
            }
            return Err(e);
        },
    };
    let gamma = match decode_g2(&raw.vk_gamma_2) {
        Ok(q) => q,
        Err(e) => {
            proof {
                lemma_first_error_at(errs, 2);
            }
            return Err(e);
        },
    };
    let delta = match decode_g2(&raw.vk_delta_2) {
        Ok(q) => q,
        Err(e) => {
            proof {
                lemma_first_error_at(errs, 3);
            }
            return Err(e);
        },
    };
    let mut ic: Vec<G1Point> = Vec::new();
    let mut i: usize = 0;
    while i < raw.ic.len()
        invariant
            errs == key_errors(*raw),
            count_matches(*raw),
            i <= raw.ic@.len(),
            ic@.len() == i,
            forall|j: int| 0 <= j < 4 + i ==> errs[j] is None,
            forall|j: int|
                0 <= j < i ==> g1_ok(#[trigger] ic@[j]) && g1_decoding(raw.ic@[j]@) == Ok::<
                    G1Value,
                    VerifyError,
                >(ic@[j].view()),
        decreases raw.ic@.len() - i,
    {
        match decode_g1(&raw.ic[i]) {
            Ok(p) => {
                proof {
                    crate::codec::lemma_g1_decoding_valid(raw.ic@[i as int]@);
                }
                ic.push(p);
            },
            Err(e) => {
                proof {
                    lemma_first_error_at(errs, 4 + i);
                }
                return Err(e);
            },
        }
        i = i + 1;
    }
    proof {
        lemma_first_error_none(errs);
        crate::codec::lemma_g1_decoding_valid(raw.vk_alpha_1@);
        crate::codec::lemma_g2_decoding_valid(raw.vk_beta_2@);
        crate::codec::lemma_g2_decoding_valid(raw.vk_gamma_2@);
        crate::codec::lemma_g2_decoding_valid(raw.vk_delta_2@);
    }
    Ok(VerificationKey { alpha_g1: alpha, beta_g2: beta, gamma_g2: gamma, delta_g2: delta, ic })
}

/// Decodes a proof, point by point in order; the first failure is reported.
pub fn decode_proof(raw: &RawProof) -> (r: Result<Proof, VerifyError>)
    ensures
        r is Ok <==> first_error(proof_errors(*raw)) is None,
        r is Err ==> first_error(proof_errors(*raw)) == Some(r->Err_0),
        r is Ok ==> r->Ok_0.wf() && proof_decodes_to(*raw, r->Ok_0),
{
    let ghost errs = proof_errors(*raw);
    let a = match decode_g1(&raw.pi_a) {
        Ok(p) => p,
        Err(e) => {
            proof {
                lemma_first_error_at(errs, 0);
            }
            return Err(e);
        },
    };
    let b = match decode_g2(&raw.pi_b) {
        Ok(q) => q,
        Err(e) => {
            proof {
                lemma_first_error_at(errs, 1);
            }
            return Err(e);
        },
    };
    let c = match decode_g1(&raw.pi_c) {
        Ok(p) => p,
        Err(e) => {
            proof {
                lemma_first_error_at(errs, 2);
            }
            return Err(e);
        },
    };
    proof {
        lemma_first_error_none(errs);
        crate::codec::lemma_g1_decoding_valid(raw.pi_a@);
        crate::codec::lemma_g2_decoding_valid(raw.pi_b@);
        crate::codec::lemma_g1_decoding_valid(raw.pi_c@);
    }
    Ok(Proof { a, b, c })
}

/// What `verify_encoded` answers: the first decoding error of the key, then of the proof,
/// then of the inputs, then a count mismatch; otherwise whether the equation holds.
pub open spec fn encoded_result(k: RawVerificationKey, p: RawProof, xs: Seq<String>) -> Result<
    bool,
    VerifyError,
> {
    if !count_matches(k) {
        Err(VerifyError::PublicInputCountMismatch)
    } else if first_error(key_errors(k)) is Some {
        Err(first_error(key_errors(k))->0)
    } else if first_error(proof_errors(p)) is Some {
        Err(first_error(proof_errors(p))->0)
    } else if !scalars_parse(xs) {
        Err(VerifyError::MalformedField)
    } else if xs.len() != k.n_public {
        Err(VerifyError::PublicInputCountMismatch)
    } else {
        Ok(
            accepts(
                g1_decoding(k.vk_alpha_1@)->Ok_0,
                g2_decoding(k.vk_beta_2@)->Ok_0,
                g2_decoding(k.vk_gamma_2@)->Ok_0,
                g2_decoding(k.vk_delta_2@)->Ok_0,
                Seq::new(k.ic@.len(), |i: int| g1_decoding(k.ic@[i]@)->Ok_0),
                g1_decoding(p.pi_a@)->Ok_0,
                g2_decoding(p.pi_b@)->Ok_0,
                g1_decoding(p.pi_c@)->Ok_0,
                Seq::new(xs.len(), |i: int| num(xs[i])),
            ),
        )
    }
}

/// Decodes a key, a proof and public inputs from their decimal texts and checks the proof.
pub fn verify_encoded(key: &RawVerificationKey, proof: &RawProof, inputs: &Vec<String>) -> (r:
    Result<bool, VerifyError>)
    ensures
        r == encoded_result(*key, *proof, inputs@),
{
    let vk = decode_verification_key(key)?;
    let pf = decode_proof(proof)?;
    let xs = decode_public_inputs(inputs)?;
    if xs.len() != key.n_public {
        return Err(VerifyError::PublicInputCountMismatch);
    }
    proof {
        assert(g1_views(vk.ic@) =~= Seq::new(key.ic@.len(), |i: int| g1_decoding(key.ic@[i]@)->Ok_0));
        assert(scalar_values(xs@) =~= Seq::new(inputs@.len(), |i: int| num(inputs@[i])));
    }
    verify(&vk, &pf, &xs)
}

/// Whether the product of the pairings `e(g1[i], g2[i])` is the identity of the target
/// group; `InvalidPoint` if a point lies off its curve, or a twisted-curve point outside
/// the prime-order subgroup, before any pairing is computed.
pub fn multi_pairing_check(g1: &Vec<G1Point>, g2: &Vec<G2Point>) -> (r: Result<bool, VerifyError>)
    requires
        g1@.len() == g2@.len(),
        forall|i: int| 0 <= i < g1@.len() ==> (#[trigger] g1@[i]).wf(),
        forall|i: int| 0 <= i < g2@.len() ==> (#[trigger] g2@[i]).wf(),
    ensures
        r is Err <==> (exists|i: int| 0 <= i < g1@.len() && !g1_valid(#[trigger] g1@[i].view()))
            || (exists|i: int|
            0 <= i < g2@.len() && !(g2_valid(#[trigger] g2@[i].view()) && g2_in_subgroup(
                g2@[i].view(),
            ))),
        r is Err ==> r == Err::<bool, VerifyError>(VerifyError::InvalidPoint),
        r is Ok ==> r == Ok::<bool, VerifyError>(pairing_check_of(g1_views(g1@), g2_views(g2@))),
{
    let mut i: usize = 0;
    while i < g1.len()
        invariant
            g1@.len() == g2@.len(),
            i <= g1@.len(),
            forall|k: int| 0 <= k < g1@.len() ==> (#[trigger] g1@[k]).wf(),
            forall|k: int| 0 <= k < g2@.len() ==> (#[trigger] g2@[k]).wf(),
            forall|k: int| 0 <= k < i ==> g1_ok(#[trigger] g1@[k]),
            forall|k: int| 0 <= k < i ==> g2_ok(#[trigger] g2@[k]),
        decreases g1@.len() - i,
    {
        if !crate::curve::g1_is_valid(&g1[i]) || !crate::curve::g2_is_valid(&g2[i])
            || !crate::curve::g2_in_subgroup_exec(&g2[i]) {
            return Err(VerifyError::InvalidPoint);
        }
        i = i + 1;
    }
    Ok(pairing_check(g1, g2))
}

/// `s mod r` for the group order `r`: scalars of any size act through their residue.
pub fn reduce_scalar(s: &Vec<u8>) -> (r: Vec<u8>)
    requires
        crate::uint::is_word(s@),
    ensures
        is_reduced(r@, scalar_modulus_bytes()),
        le_value(r@) == le_value(s@) % crate::field::scalar_modulus(),
{
    let m = crate::field::scalar_modulus_word();
    let mut cur = s.clone();
    let ghost rv = crate::field::scalar_modulus() as int;
    proof {
        assert(cur@ == s@);
    }
    loop
        invariant
            m@ == scalar_modulus_bytes(),
            crate::field::is_modulus(m@),
            rv == le_value(m@),
            crate::uint::is_word(cur@),
            (le_value(cur@) as int) % rv == (le_value(s@) as int) % rv,
        decreases le_value(cur@),
    {
        let (d, borrow) = crate::uint::sub_words(&cur, &m);
        if borrow == 1 {
            proof {
                vstd::arithmetic::div_mod::lemma_small_mod(le_value(cur@), rv as nat);
            }
            return cur;
        }
        proof {
            vstd::arithmetic::div_mod::lemma_mod_sub_multiples_vanish(le_value(cur@) as int, rv);
        }
        cur = d;
    }
}

/// Whether a point of the first group is the point at infinity.
pub fn g1_is_identity(p: &G1Point) -> (r: bool)
    requires
        p.wf(),
    ensures
        r == (p.view() == crate::curve::g1_identity()),
{
    let z = crate::uint::zero_word();
    crate::uint::same_value(&p.x, &z) && crate::uint::same_value(&p.y, &z)
}

/// Whether a point of the twisted curve is the point at infinity.
pub fn g2_is_identity(q: &G2Point) -> (r: bool)
    requires
        q.wf(),
    ensures
        r == (q.view() == crate::curve::g2_identity()),
{
    let z = crate::uint::zero_word();
    crate::uint::same_value(&q.x.c0, &z) && crate::uint::same_value(&q.x.c1, &z)
        && crate::uint::same_value(&q.y.c0, &z) && crate::uint::same_value(&q.y.c1, &z)
}

/// `s·p` in the first group, with `s` taken modulo the group order; `InvalidPoint` if `p`
/// lies off the curve.
pub fn g1_mul(p: &G1Point, s: &Vec<u8>) -> (r: Result<G1Point, VerifyError>)
    requires
        p.wf(),
        crate::uint::is_word(s@),
    ensures
        r is Err <==> !g1_valid(p.view()),
        r is Err ==> r == Err::<G1Point, VerifyError>(VerifyError::InvalidPoint),
        r is Ok ==> g1_ok(r->Ok_0) && r->Ok_0.view() == multiexp_of(
            seq![p.view()],
            seq![le_value(s@) % crate::field::scalar_modulus()],
        ),
{
    if !crate::curve::g1_is_valid(p) {
        return Err(VerifyError::InvalidPoint);
    }
    let points = vec![clone_g1(p)];
    let scalars = vec![reduce_scalar(s)];
    proof {
        assert(g1_views(points@) =~= seq![p.view()]);
        assert(scalar_values(scalars@) =~= seq![le_value(s@) % crate::field::scalar_modulus()]);
    }
    Ok(g1_multiexp(&points, &scalars))
}

/// `p + q` in the first group; `InvalidPoint` if either lies off the curve.
pub fn g1_add(p: &G1Point, q: &G1Point) -> (r: Result<G1Point, VerifyError>)
    requires
        p.wf(),
        q.wf(),
    ensures
        r is Err <==> !g1_valid(p.view()) || !g1_valid(q.view()),
        r is Err ==> r == Err::<G1Point, VerifyError>(VerifyError::InvalidPoint),
        r is Ok ==> g1_ok(r->Ok_0) && r->Ok_0.view() == multiexp_of(
            seq![p.view(), q.view()],
            seq![1nat, 1nat],
        ),
{
    if !crate::curve::g1_is_valid(p) || !crate::curve::g1_is_valid(q) {
        return Err(VerifyError::InvalidPoint);
    }
    let points = vec![clone_g1(p), clone_g1(q)];
    let scalars = vec![one_word(), one_word()];
    proof {
        crate::field::lemma_moduli();
        crate::field::lemma_top_value();
        assert(g1_views(points@) =~= seq![p.view(), q.view()]);
        assert(scalar_values(scalars@) =~= seq![1nat, 1nat]);
    }
    Ok(g1_multiexp(&points, &scalars))
}

/// A key whose points all decode but one, which fails, is refused with that point's error,
/// whatever the proof and inputs; the caller's status is then left as it was.
pub proof fn lemma_single_fault_key(k: RawVerificationKey, p: RawProof, xs: Seq<String>, j: int)
    requires
        count_matches(k),
        0 <= j < key_errors(k).len(),
        key_errors(k)[j] is Some,
        forall|i: int| 0 <= i < key_errors(k).len() && i != j ==> key_errors(k)[i] is None,
    ensures
        first_error(key_errors(k)) == key_errors(k)[j],
        encoded_result(k, p, xs) == Err::<bool, VerifyError>(key_errors(k)[j]->0),
        crate::ledger::status_for(encoded_result(k, p, xs)) is None,
{
    lemma_first_error_at(key_errors(k), j);
}

/// A verdict depends on the values of the key, the proof and the inputs alone: two calls
/// on equal values give equal answers.
pub proof fn lemma_verify_deterministic(
    vk1: VerificationKey,
    vk2: VerificationKey,
    p1: Proof,
    p2: Proof,
    x1: Seq<Vec<u8>>,
    x2: Seq<Vec<u8>>,
)
    requires
        vk1.alpha_g1.view() == vk2.alpha_g1.view(),
        vk1.beta_g2.view() == vk2.beta_g2.view(),
        vk1.gamma_g2.view() == vk2.gamma_g2.view(),
        vk1.delta_g2.view() == vk2.delta_g2.view(),
        g1_views(vk1.ic@) == g1_views(vk2.ic@),
        p1.a.view() == p2.a.view(),
        p1.b.view() == p2.b.view(),
        p1.c.view() == p2.c.view(),
        scalar_values(x1) == scalar_values(x2),
    ensures
        verify_result(vk1, p1, x1) == verify_result(vk2, p2, x2),
{
    assert(vk1.ic@.len() == g1_views(vk1.ic@).len());
    assert(vk2.ic@.len() == g1_views(vk2.ic@).len());
    assert(x1.len() == scalar_values(x1).len());
    assert(x2.len() == scalar_values(x2).len());
}

/// Public inputs one fewer than the key expects are refused with a count mismatch: they
/// are never padded.
pub proof fn lemma_short_inputs_refused(vk: VerificationKey, proof: Proof, inputs: Seq<Vec<u8>>)
    requires
        inputs.len() + 2 == vk.ic@.len(),
    ensures
        verify_result(vk, proof, inputs) == Err::<bool, VerifyError>(
            VerifyError::PublicInputCountMismatch,
        ),
{
}

/// Texts that hold one public input fewer than the key declares are refused with a count
/// mismatch once the key, the proof and the inputs decode.
pub proof fn lemma_short_texts_refused(k: RawVerificationKey, p: RawProof, xs: Seq<String>)
    requires
        xs.len() + 1 == k.n_public,
        count_matches(k),
        first_error(key_errors(k)) is None,
        first_error(proof_errors(p)) is None,
        scalars_parse(xs),
    ensures
        encoded_result(k, p, xs) == Err::<bool, VerifyError>(VerifyError::PublicInputCountMismatch),
{
}

} // verus!
