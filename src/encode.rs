use crate::codec::{
    first_error, g1_decoding, g2_decoding, lemma_first_error_none, num, one_word,
    parses_below, text, VerifyError,
};
use crate::curve::{Fq2, G1Point, G1Value, G2Point, G2Value};
use crate::field::{base_modulus, lemma_top_value};
use crate::groth16::{
    count_matches, decodes_to, g1_ok, g1_views, g2_ok, key_errors, proof_decodes_to,
    proof_errors, Proof, RawProof, RawVerificationKey, VerificationKey,
};
use crate::field::{decimal_value, is_decimal};
use crate::uint::{div_ten, is_word, le_value, same_value, zero_word};
use vstd::arithmetic::power::pow;
use vstd::prelude::*;
use vstd::string::StringExecFns;
use vstd::utf8::{encode_utf8, is_ascii_chars, is_ascii_chars_encode_utf8};

verus! {

/// The number that decimal digits write, lowest digit first.
pub open spec fn low_first_value(ds: Seq<u8>) -> nat
    decreases ds.len(),
{
    if ds.len() == 0 {
        0
    } else {
        (ds[0] as nat) + 10 * low_first_value(ds.skip(1))
    }
}

/// The text of digits given lowest first: ASCII codes, highest first.
pub open spec fn digit_text(ds: Seq<u8>) -> Seq<u8> {
    Seq::new(ds.len(), |i: int| (48 + ds[ds.len() - 1 - i]) as u8)
}

proof fn lemma_low_first_push(ds: Seq<u8>, d: u8)
    ensures
        low_first_value(ds.push(d)) == low_first_value(ds) + d * pow(10, ds.len()),
    decreases ds.len(),
{
    vstd::arithmetic::power::lemma_pow0(10);
    if ds.len() > 0 {
        lemma_low_first_push(ds.skip(1), d);
        assert(ds.push(d).skip(1) =~= ds.skip(1).push(d));
        vstd::arithmetic::power::lemma_pow_adds(10, 1, (ds.len() - 1) as nat);
        vstd::arithmetic::power::lemma_pow1(10);
        let t = pow(10, (ds.len() - 1) as nat);
        assert(pow(10, ds.len()) == 10 * t);
        assert(10 * (low_first_value(ds.skip(1)) + d * t) == 10 * low_first_value(ds.skip(1)) + d
            * (10 * t)) by (nonlinear_arith);
        assert(ds.push(d)[0] == ds[0]);
        assert(low_first_value(ds.push(d)) == ds[0] + 10 * low_first_value(ds.push(d).skip(1)));
    } else {
        assert(ds.push(d).skip(1) =~= Seq::<u8>::empty());
        assert(low_first_value(ds.push(d)) == ds.push(d)[0] + 10 * low_first_value(
            ds.push(d).skip(1),
        ));
        assert(low_first_value(Seq::<u8>::empty()) == 0);
        assert(d * 1 == d);
    }
}

proof fn lemma_digit_text_value(ds: Seq<u8>)
    requires
        ds.len() > 0,
        forall|i: int| 0 <= i < ds.len() ==> #[trigger] ds[i] < 10,
    ensures
        is_decimal(digit_text(ds)),
        decimal_value(digit_text(ds)) == low_first_value(ds),
    decreases ds.len(),
{
    let t = digit_text(ds);
    assert(t.last() == 48 + ds[0]);
    assert(decimal_value(t) == 10 * decimal_value(t.drop_last()) + (t.last() - 48) as nat);
    if ds.len() == 1 {
        assert(t.drop_last() =~= Seq::<u8>::empty());
        assert(ds.skip(1) =~= Seq::<u8>::empty());
        assert(decimal_value(Seq::<u8>::empty()) == 0);
        assert(low_first_value(Seq::<u8>::empty()) == 0);
    } else {
        lemma_digit_text_value(ds.skip(1));
        assert(t.drop_last() =~= digit_text(ds.skip(1)));
    }
}

/// The one-character text of a decimal digit.
fn digit_str(d: u8) -> (r: &'static str)
    requires
        d < 10,
    ensures
        r@ == seq![(48 + d) as char],
{
    proof {
        reveal_strlit("0");
        reveal_strlit("1");
        reveal_strlit("2");
        reveal_strlit("3");
        reveal_strlit("4");
        reveal_strlit("5");
        reveal_strlit("6");
        reveal_strlit("7");
        reveal_strlit("8");
        reveal_strlit("9");
    }
    match d {
        0 => "0",
        1 => "1",
        2 => "2",
        3 => "3",
        4 => "4",
        5 => "5",
        6 => "6",
        7 => "7",
        8 => "8",
        _ => "9",
    }
}

/// The decimal text of a word, without leading zeros (`"0"` for zero).
pub fn to_decimal(a: &Vec<u8>) -> (r: String)
    requires
        is_word(a@),
    ensures
        is_decimal(text(r)),
        decimal_value(text(r)) == le_value(a@),
{
    let mut digits: Vec<u8> = Vec::new();
    let mut cur = a.clone();
    let z = zero_word();
    proof {
        vstd::arithmetic::power::lemma_pow0(10);
    }
    while !same_value(&cur, &z)
        invariant
            is_word(cur@),
            is_word(z@),
            le_value(z@) == 0,
            le_value(a@) == le_value(cur@) * pow(10, digits@.len()) + low_first_value(digits@),
            forall|i: int| 0 <= i < digits@.len() ==> #[trigger] digits@[i] < 10,
        decreases le_value(cur@),
    {
        let (q, d) = div_ten(&cur);
        proof {
            lemma_low_first_push(digits@, d);
            vstd::arithmetic::power::lemma_pow_adds(10, 1, digits@.len());
            vstd::arithmetic::power::lemma_pow1(10);
            let t = pow(10, digits@.len());
            assert((10 * le_value(q@) + d) * t == le_value(q@) * (10 * t) + d * t) by (nonlinear_arith);
            assert(10 * t == pow(10, digits@.len() + 1));
        }
        digits.push(d);
        cur = q;
    }
    proof {
        assert(le_value(cur@) == 0);
        let c = le_value(cur@) as int;
        let t = pow(10, digits@.len());
        assert(c * t == 0) by (nonlinear_arith)
            requires
                c == 0,
        ;
        assert(le_value(a@) == low_first_value(digits@));
    }
    if digits.len() == 0 {
        proof {
            assert(low_first_value(seq![0u8]) == 0 + 10 * low_first_value(seq![0u8].skip(1)));
            assert(seq![0u8].skip(1) =~= Seq::<u8>::empty());
            assert(low_first_value(Seq::<u8>::empty()) == 0);
        }
        digits.push(0u8);
        proof {
            assert(digits@ =~= seq![0u8]);
        }
    }
    let mut s = String::new();
    let n = digits.len();
    let mut j: usize = n;
    proof {
        assert(s@ =~= Seq::<char>::empty());
    }
    while j > 0
        invariant
            n == digits@.len(),
            j <= n,
            forall|i: int| 0 <= i < n ==> #[trigger] digits@[i] < 10,
            s@ =~= Seq::new((n - j) as nat, |i: int| (48 + digits@[n - 1 - i]) as char),
        decreases j,
    {
        s.append(digit_str(digits[j - 1]));
        j = j - 1;
    }
    proof {
        let cs = s@;
        assert(is_ascii_chars(cs));
        is_ascii_chars_encode_utf8(cs);
        assert(encode_utf8(cs) =~= digit_text(digits@));
        lemma_digit_text_value(digits@);
    }
    s
}

fn is_origin(a: &Vec<u8>, b: &Vec<u8>) -> (r: bool)
    requires
        is_word(a@),
        is_word(b@),
    ensures
        r == (le_value(a@) == 0 && le_value(b@) == 0),
{
    let z = zero_word();
    same_value(a, &z) && same_value(b, &z)
}

/// The `[x, y, z]` decimal texts of a point of the first group: `z = 1` for an affine
/// point, `[0, 1, 0]` for the point at infinity.
pub fn encode_g1(p: &G1Point) -> (r: Vec<String>)
    requires
        g1_ok(*p),
    ensures
        g1_decoding(r@) == Ok::<G1Value, VerifyError>(p.view()),
{
    reveal(g1_decoding);
    proof {
        lemma_top_value();
    }
    let zero = to_decimal(&zero_word());
    let one = to_decimal(&one_word());
    if is_origin(&p.x, &p.y) {
        let r = vec![zero, one, to_decimal(&zero_word())];
        return r;
    }
    let r = vec![to_decimal(&p.x), to_decimal(&p.y), one];
    r
}

fn encode_pair(a: &Fq2) -> (r: Vec<String>)
    requires
        a.wf(),
    ensures
        r@.len() == 2,
        parses_below(r@[0], base_modulus()),
        parses_below(r@[1], base_modulus()),
        (num(r@[0]), num(r@[1])) == a.view(),
{
    vec![to_decimal(&a.c0), to_decimal(&a.c1)]
}

fn small_pair(c0: u8) -> (r: Vec<String>)
    requires
        c0 <= 1,
    ensures
        r@.len() == 2,
        parses_below(r@[0], base_modulus()),
        parses_below(r@[1], base_modulus()),
        (num(r@[0]), num(r@[1])) == (c0 as nat, 0nat),
{
    proof {
        lemma_top_value();
    }
    let first = if c0 == 0 {
        to_decimal(&zero_word())
    } else {
        to_decimal(&one_word())
    };
    vec![first, to_decimal(&zero_word())]
}

/// The `[[x0, x1], [y0, y1], [z0, z1]]` decimal texts of a point of the twisted curve:
/// `z = 1` for an affine point, `[[0, 0], [1, 0], [0, 0]]` for the point at infinity.
pub fn encode_g2(q: &G2Point) -> (r: Vec<Vec<String>>)
    requires
        g2_ok(*q),
    ensures
        g2_decoding(r@) == Ok::<G2Value, VerifyError>(q.view()),
{
    reveal(g2_decoding);
    let z = zero_word();
    if same_value(&q.x.c0, &z) && same_value(&q.x.c1, &z) && same_value(&q.y.c0, &z)
        && same_value(&q.y.c1, &z) {
        return vec![small_pair(0), small_pair(1), small_pair(0)];
    }
    vec![encode_pair(&q.x), encode_pair(&q.y), small_pair(1)]
}

/// The decimal texts of a verification key whose `IC` holds at least the constant term.
pub fn encode_verification_key(vk: &VerificationKey) -> (r: RawVerificationKey)
    requires
        vk.wf(),
        vk.ic@.len() >= 1,
    ensures
        count_matches(r),
        decodes_to(r, *vk),
{
    let mut ic: Vec<Vec<String>> = Vec::new();
    let mut i: usize = 0;
    while i < vk.ic.len()
        invariant
            vk.wf(),
            i <= vk.ic@.len(),
            ic@.len() == i,
            forall|k: int|
                0 <= k < i ==> g1_decoding(#[trigger] ic@[k]@) == Ok::<G1Value, VerifyError>(
                    vk.ic@[k].view(),
                ),
        decreases vk.ic@.len() - i,
    {
        ic.push(encode_g1(&vk.ic[i]));
        i = i + 1;
    }
    RawVerificationKey {
        n_public: vk.ic.len() - 1,
        vk_alpha_1: encode_g1(&vk.alpha_g1),
        vk_beta_2: encode_g2(&vk.beta_g2),
        vk_gamma_2: encode_g2(&vk.gamma_g2),
        vk_delta_2: encode_g2(&vk.delta_g2),
        ic,
    }
}

/// The decimal texts of a proof.
pub fn encode_proof(proof: &Proof) -> (r: RawProof)
    requires
        proof.wf(),
    ensures
        proof_decodes_to(r, *proof),
{
    RawProof { pi_a: encode_g1(&proof.a), pi_b: encode_g2(&proof.b), pi_c: encode_g1(&proof.c) }
}

/// Two keys whose points hold the same values.
pub open spec fn same_key(a: VerificationKey, b: VerificationKey) -> bool {
    &&& a.alpha_g1.view() == b.alpha_g1.view()
    &&& a.beta_g2.view() == b.beta_g2.view()
    &&& a.gamma_g2.view() == b.gamma_g2.view()
    &&& a.delta_g2.view() == b.delta_g2.view()
    &&& g1_views(a.ic@) == g1_views(b.ic@)
}

/// Decoding the texts that encoding gives back succeeds, and yields the key that was
/// encoded.
pub proof fn lemma_key_round_trip(vk: VerificationKey, raw: RawVerificationKey, back: VerificationKey)
    requires
        count_matches(raw),
        decodes_to(raw, vk),
        decodes_to(raw, back),
    ensures
        first_error(key_errors(raw)) is None,
        same_key(vk, back),
{
    let errs = key_errors(raw);
    assert forall|i: int| 0 <= i < errs.len() implies errs[i] is None by {
        if i >= 4 {
            assert(g1_decoding(raw.ic@[i - 4]@) is Ok);
        }
    }
    lemma_first_error_none(errs);
    assert forall|i: int| 0 <= i < vk.ic@.len() implies vk.ic@[i].view() == back.ic@[i].view() by {
        assert(g1_decoding(raw.ic@[i]@) == Ok::<G1Value, VerifyError>(vk.ic@[i].view()));
    }
    assert(g1_views(vk.ic@) =~= g1_views(back.ic@));
}

/// Decoding the texts that encoding gives back succeeds, and yields the proof that was
/// encoded.
pub proof fn lemma_proof_round_trip(proof: Proof, raw: RawProof, back: Proof)
    requires
        proof_decodes_to(raw, proof),
        proof_decodes_to(raw, back),
    ensures
        first_error(proof_errors(raw)) is None,
        proof.a.view() == back.a.view(),
        proof.b.view() == back.b.view(),
        proof.c.view() == back.c.view(),
{
    lemma_first_error_none(proof_errors(raw));
}

} // verus!
