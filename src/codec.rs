use crate::curve::{
    g1_is_valid, g1_on_curve, g2_in_subgroup, g2_in_subgroup_exec, g2_is_valid, g2_on_curve, Fq2, G1Point, G1Value, G2Point, G2Value,
};
use crate::field::{
    base_modulus, base_modulus_bytes, base_modulus_word, decimal_value, is_decimal, lemma_moduli,
    parse_reduced, scalar_modulus, scalar_modulus_bytes, scalar_modulus_word,
};
use crate::uint::{le_value, same_value, zero_word};
use vstd::prelude::*;
use vstd::utf8::encode_utf8;

verus! {

/// Why a key, a proof or a set of public inputs was refused.
#[derive(Clone, Copy, Debug, PartialEq, Eq, Structural)]
pub enum VerifyError {
    /// A coordinate or a scalar is not the decimal text of a canonical field element.
    MalformedField,
    /// Coordinates that parse but do not describe a point of the curve.
    InvalidPoint,
    /// The number of public inputs disagrees with the key.
    PublicInputCountMismatch,
    /// Zero has no inverse.
    NotInvertible,
}

/// The bytes of a text.
pub open spec fn text(s: String) -> Seq<u8> {
    encode_utf8(s@)
}

/// The text writes a canonical element of the field of modulus `m`.
pub open spec fn parses_below(s: String, m: nat) -> bool {
    is_decimal(text(s)) && decimal_value(text(s)) < m
}

pub open spec fn num(s: String) -> nat {
    decimal_value(text(s))
}

/// What a projective `[x, y, z]` triple of decimal texts decodes to in the first group:
/// `z = 1` gives the affine point `(x, y)`, `z = 0` the point at infinity.
#[verifier::opaque]
pub open spec fn g1_decoding(c: Seq<String>) -> Result<G1Value, VerifyError> {
    if c.len() != 3 || !parses_below(c[0], base_modulus()) || !parses_below(c[1], base_modulus())
        || !parses_below(c[2], base_modulus()) {
        Err(VerifyError::MalformedField)
    } else if num(c[2]) == 0 {
        Ok((0, 0))
    } else if num(c[2]) == 1 && g1_on_curve((num(c[0]), num(c[1]))) {
        Ok((num(c[0]), num(c[1])))
    } else {
        Err(VerifyError::InvalidPoint)
    }
}

pub open spec fn pair_parses(c: Seq<String>) -> bool {
    c.len() == 2 && parses_below(c[0], base_modulus()) && parses_below(c[1], base_modulus())
}

pub open spec fn pair_num(c: Seq<String>) -> (nat, nat) {
    (num(c[0]), num(c[1]))
}

/// What a projective `[x, y, z]` triple of extension elements decodes to on the twisted
/// curve: `z = 1` gives the affine point `(x, y)`, which must lie in the prime-order
/// subgroup, and `z = 0` gives the point at infinity.
#[verifier::opaque]
pub open spec fn g2_decoding(c: Seq<Vec<String>>) -> Result<G2Value, VerifyError> {
    if c.len() != 3 || !pair_parses(c[0]@) || !pair_parses(c[1]@) || !pair_parses(c[2]@) {
        Err(VerifyError::MalformedField)
    } else if pair_num(c[2]@) == (0nat, 0nat) {
        Ok(((0, 0), (0, 0)))
    } else if pair_num(c[2]@) == (1nat, 0nat) && g2_on_curve((pair_num(c[0]@), pair_num(c[1]@)))
        && g2_in_subgroup((pair_num(c[0]@), pair_num(c[1]@))) {
        Ok((pair_num(c[0]@), pair_num(c[1]@)))
    } else {
        Err(VerifyError::InvalidPoint)
    }
}

/// The error of a decoding, if any.
pub open spec fn error_of<T>(r: Result<T, VerifyError>) -> Option<VerifyError> {
    match r {
        Ok(_) => None,
        Err(e) => Some(e),
    }
}

/// The first error in a sequence of decodings.
pub open spec fn first_error(s: Seq<Option<VerifyError>>) -> Option<VerifyError>
    decreases s.len(),
{
    if s.len() == 0 {
        None
    } else if first_error(s.drop_last()) is Some {
        first_error(s.drop_last())
    } else {
        s.last()
    }
}

pub proof fn lemma_first_error_step(s: Seq<Option<VerifyError>>, i: int)
    requires
        0 <= i < s.len(),
    ensures
        first_error(s.take(i + 1)) == (if first_error(s.take(i)) is Some {
            first_error(s.take(i))
        } else {
            s[i]
        }),
{
    assert(s.take(i + 1).drop_last() =~= s.take(i));
}

/// Once an error is found in a prefix, it is the first error of the whole sequence.
pub proof fn lemma_first_error_prefix(s: Seq<Option<VerifyError>>, n: int)
    requires
        0 <= n <= s.len(),
        first_error(s.take(n)) is Some,
    ensures
        first_error(s) == first_error(s.take(n)),
    decreases s.len() - n,
{
    if n < s.len() {
        lemma_first_error_step(s, n);
        lemma_first_error_prefix(s, n + 1);
    } else {
        assert(s.take(n) =~= s);
    }
}

pub proof fn lemma_first_error_none(s: Seq<Option<VerifyError>>)
    requires
        forall|i: int| 0 <= i < s.len() ==> s[i] is None,
    ensures
        first_error(s) is None,
    decreases s.len(),
{
    if s.len() > 0 {
        lemma_first_error_none(s.drop_last());
    }
}

/// When every earlier decoding succeeded, the first error is the one at `k`.
pub proof fn lemma_first_error_at(s: Seq<Option<VerifyError>>, k: int)
    requires
        0 <= k < s.len(),
        forall|j: int| 0 <= j < k ==> s[j] is None,
        s[k] is Some,
    ensures
        first_error(s) == s[k],
{
    lemma_first_error_none(s.take(k));
    lemma_first_error_step(s, k);
    lemma_first_error_prefix(s, k + 1);
}

/// A decoded point of the first group lies in it.
pub proof fn lemma_g1_decoding_valid(c: Seq<String>)
    requires
        g1_decoding(c) is Ok,
    ensures
        crate::curve::g1_valid(g1_decoding(c)->Ok_0),
{
    reveal(g1_decoding);
    crate::field::lemma_top_value();
}

/// A decoded point of the twisted curve lies on it.
pub proof fn lemma_g2_decoding_valid(c: Seq<Vec<String>>)
    requires
        g2_decoding(c) is Ok,
    ensures
        crate::curve::g2_valid(g2_decoding(c)->Ok_0),
        crate::curve::g2_in_subgroup(g2_decoding(c)->Ok_0),
{
    reveal(g2_decoding);
    crate::field::lemma_top_value();
}

/// A first-group triple with a coordinate that is not a run of digits is malformed.
pub proof fn lemma_non_numeric_g1(c: Seq<String>, i: int)
    requires
        0 <= i < c.len(),
        !is_decimal(text(c[i])),
    ensures
        g1_decoding(c) == Err::<G1Value, VerifyError>(VerifyError::MalformedField),
{
    reveal(g1_decoding);
}

/// A twisted-curve triple with a coordinate that is not a run of digits is malformed.
pub proof fn lemma_non_numeric_g2(c: Seq<Vec<String>>, i: int, j: int)
    requires
        0 <= i < c.len(),
        0 <= j < c[i]@.len(),
        !is_decimal(text(c[i]@[j])),
    ensures
        g2_decoding(c) == Err::<G2Value, VerifyError>(VerifyError::MalformedField),
{
    reveal(g2_decoding);
}

/// Whether the protocol and curve tags of an exported key or proof name what this library
/// checks: Groth16 over BN254, which proving toolchains call `bn128`.
pub fn is_groth16_bn128(protocol: &String, curve: &String) -> (r: bool)
    ensures
        r == (protocol@ == "groth16"@ && curve@ == "bn128"@),
{
    let p = <String as vstd::string::StringExecFns>::from_str("groth16");
    let c = <String as vstd::string::StringExecFns>::from_str("bn128");
    protocol.eq(&p) && curve.eq(&c)
}

/// Parses one coordinate as an element of the field of modulus `m`.
fn parse_coordinate(s: &String, m: &Vec<u8>) -> (r: Result<Vec<u8>, VerifyError>)
    requires
        crate::field::is_modulus(m@),
    ensures
        r is Ok <==> parses_below(*s, le_value(m@)),
        r is Ok ==> crate::field::is_reduced(r->Ok_0@, m@) && le_value(r->Ok_0@) == num(*s),
        r is Err ==> r == Err::<Vec<u8>, VerifyError>(VerifyError::MalformedField),
{
    match parse_reduced(s.as_str().as_bytes(), m) {
        Some(v) => Ok(v),
        None => Err(VerifyError::MalformedField),
    }
}

/// Decodes a point of the first group from its `[x, y, z]` decimal texts.
pub fn decode_g1(c: &Vec<String>) -> (r: Result<G1Point, VerifyError>)
    ensures
        match r {
            Ok(p) => p.wf() && g1_decoding(c@) == Ok::<G1Value, VerifyError>(p.view()),
            Err(e) => g1_decoding(c@) == Err::<G1Value, VerifyError>(e),
        },
{
    reveal(g1_decoding);
    let m = base_modulus_word();
    if c.len() != 3 {
        return Err(VerifyError::MalformedField);
    }
    let x = parse_coordinate(&c[0], &m)?;
    let y = parse_coordinate(&c[1], &m)?;
    let z = parse_coordinate(&c[2], &m)?;
    let zero = zero_word();
    if same_value(&z, &zero) {
        return Ok(G1Point { x: zero_word(), y: zero_word() });
    }
    let one = one_word();
    if !same_value(&z, &one) {
        return Err(VerifyError::InvalidPoint);
    }
    proof {
        lemma_moduli();
    }
    let p = G1Point { x, y };
    if is_identity_g1(&p) {
        proof {
            crate::field::lemma_small_mod_zero_three();
        }
        return Err(VerifyError::InvalidPoint);
    }
    if g1_is_valid(&p) {
        Ok(p)
    } else {
        Err(VerifyError::InvalidPoint)
    }
}

fn is_identity_g1(p: &G1Point) -> (r: bool)
    requires
        p.wf(),
    ensures
        r == (p.view() == (0nat, 0nat)),
{
    let z = zero_word();
    same_value(&p.x, &z) && same_value(&p.y, &z)
}

fn parse_pair(c: &Vec<String>, m: &Vec<u8>) -> (r: Result<Fq2, VerifyError>)
    requires
        m@ == base_modulus_bytes(),
    ensures
        match r {
            Ok(v) => pair_parses(c@) && v.wf() && v.view() == pair_num(c@),
            Err(e) => !pair_parses(c@) && e == VerifyError::MalformedField,
        },
{
    proof {
        lemma_moduli();
    }
    if c.len() != 2 {
        return Err(VerifyError::MalformedField);
    }
    let c0 = parse_coordinate(&c[0], m)?;
    let c1 = parse_coordinate(&c[1], m)?;
    Ok(Fq2 { c0, c1 })
}

fn fq2_is(v: &Fq2, a: u8) -> (r: bool)
    requires
        v.wf(),
        a <= 1,
    ensures
        r == (v.view() == (a as nat, 0nat)),
{
    let z = zero_word();
    let w = if a == 0 {
        zero_word()
    } else {
        one_word()
    };
    same_value(&v.c0, &w) && same_value(&v.c1, &z)
}

/// Decodes a point of the twisted curve from its `[x, y, z]` pairs of decimal texts.
pub fn decode_g2(c: &Vec<Vec<String>>) -> (r: Result<G2Point, VerifyError>)
    ensures
        match r {
            Ok(q) => q.wf() && g2_decoding(c@) == Ok::<G2Value, VerifyError>(q.view()),
            Err(e) => g2_decoding(c@) == Err::<G2Value, VerifyError>(e),
        },
{
    reveal(g2_decoding);
    let m = base_modulus_word();
    if c.len() != 3 {
        return Err(VerifyError::MalformedField);
    }
    let x = parse_pair(&c[0], &m)?;
    let y = parse_pair(&c[1], &m)?;
    let z = parse_pair(&c[2], &m)?;
    if fq2_is(&z, 0) {
        return Ok(G2Point { x: Fq2 { c0: zero_word(), c1: zero_word() }, y: Fq2 { c0: zero_word(), c1: zero_word() } });
    }
    if !fq2_is(&z, 1) {
        return Err(VerifyError::InvalidPoint);
    }
    let q = G2Point { x, y };
    let g = g2_is_valid(&q);
    let inf = fq2_is(&q.x, 0) && fq2_is(&q.y, 0);
    if inf {
        proof {
            lemma_g2_origin_off_curve();
        }
        return Err(VerifyError::InvalidPoint);
    }
    if g && g2_in_subgroup_exec(&q) {
        Ok(q)
    } else {
        Err(VerifyError::InvalidPoint)
    }
}

proof fn lemma_g2_origin_off_curve()
    ensures
        !g2_on_curve(((0nat, 0nat), (0nat, 0nat))),
{
    lemma_moduli();
    crate::field::lemma_top_value();
    let p = base_modulus() as int;
    vstd::arithmetic::div_mod::lemma_small_mod(0, p as nat);
    crate::curve::lemma_twist_b_nonzero();
    vstd::arithmetic::div_mod::lemma_small_mod(crate::curve::twist_b().0, p as nat);
}

/// Whether each text writes a canonical scalar.
pub open spec fn scalars_parse(s: Seq<String>) -> bool {
    forall|i: int| 0 <= i < s.len() ==> parses_below(#[trigger] s[i], scalar_modulus())
}

/// Decodes public inputs: each a decimal text of an element of the scalar field.
pub fn decode_public_inputs(s: &Vec<String>) -> (r: Result<Vec<Vec<u8>>, VerifyError>)
    ensures
        r is Ok <==> scalars_parse(s@),
        r is Err ==> r == Err::<Vec<Vec<u8>>, VerifyError>(VerifyError::MalformedField),
        r is Ok ==> r->Ok_0@.len() == s@.len() && forall|i: int|
            0 <= i < s@.len() ==> crate::field::is_reduced(#[trigger] r->Ok_0@[i]@, scalar_modulus_bytes())
                && le_value(r->Ok_0@[i]@) == num(s@[i]),
{
    let m = scalar_modulus_word();
    let mut out: Vec<Vec<u8>> = Vec::new();
    let mut i: usize = 0;
    while i < s.len()
        invariant
            m@ == scalar_modulus_bytes(),
            crate::field::is_modulus(m@),
            i <= s@.len(),
            out@.len() == i,
            forall|k: int| 0 <= k < i ==> parses_below(#[trigger] s@[k], scalar_modulus()),
            forall|k: int|
                0 <= k < i ==> crate::field::is_reduced(#[trigger] out@[k]@, scalar_modulus_bytes())
                    && le_value(out@[k]@) == num(s@[k]),
        decreases s@.len() - i,
    {
        let v = parse_coordinate(&s[i], &m)?;
        out.push(v);
        i = i + 1;
    }
    Ok(out)
}

/// The word that holds one.
pub fn one_word() -> (r: Vec<u8>)
    ensures
        crate::uint::is_word(r@),
        le_value(r@) == 1,
{
    let r: Vec<u8> = vec![
        1u8, 0, 0, 0, 0, 0, 0, 0, 0, 0, 0, 0, 0, 0, 0, 0, 0, 0, 0, 0, 0, 0, 0, 0, 0, 0, 0, 0, 0,
        0, 0, 0,
    ];
    proof {
        crate::uint::lemma_small_word(r@, 1);
    }
    r
}

} // verus!
