use loan_verifier::codec::{is_groth16_bn128, VerifyError};
use loan_verifier::curve::{g1_negate, G1Point};
use loan_verifier::field::{
    base_modulus_word, invert, mod_add, mod_mul, mod_neg, mod_pow, mod_sub, parse_reduced,
    scalar_modulus_word,
};
use loan_verifier::ledger::{status_after, LoanStatus, StorageKey};
use loan_verifier::uint::{add_words, same_value, sub_words, times_ten_plus, zero_word};

const P: &str = "21888242871839275222246405745257275088696311157297823662689037894645226208583";

fn base(text: &str) -> Vec<u8> {
    parse_reduced(text.as_bytes(), &base_modulus_word()).unwrap()
}

fn word(v: u128) -> Vec<u8> {
    let mut w = v.to_le_bytes().to_vec();
    w.extend_from_slice(&[0u8; 16]);
    w
}

#[test]
fn word_sum_carries_out_of_the_top() {
    let all = vec![255u8; 32];
    let (s, carry) = add_words(&all, &word(1));
    assert_eq!(carry, 1);
    assert_eq!(s, vec![0u8; 32]);
    let (s, carry) = add_words(&word(200), &word(100));
    assert_eq!(carry, 0);
    assert_eq!(s, word(300));
}

#[test]
fn word_difference_borrows() {
    let (d, borrow) = sub_words(&word(5), &word(7));
    assert_eq!(borrow, 1);
    assert_eq!(d, vec![254u8].into_iter().chain(vec![255u8; 31]).collect::<Vec<u8>>());
    let (d, borrow) = sub_words(&word(7), &word(5));
    assert_eq!((d, borrow), (word(2), 0));
    assert!(same_value(&word(9), &word(9)));
    assert!(!same_value(&word(9), &word(10)));
}

#[test]
fn times_ten_plus_digit() {
    let (r, carry) = times_ten_plus(&word(123), 4);
    assert_eq!((r, carry), (word(1234), 0));
    let (_, carry) = times_ten_plus(&vec![255u8; 32], 9);
    assert_eq!(carry, 9);
    assert_eq!(zero_word(), word(0));
}

#[test]
fn decimal_parsing() {
    let m = base_modulus_word();
    assert_eq!(parse_reduced(b"0012", &m), Some(word(12)));
    assert_eq!(parse_reduced(b"340282366920938463463374607431768211455", &m), Some(word(u128::MAX)));
    assert_eq!(parse_reduced(b"", &m), None);
    assert_eq!(parse_reduced(b"1.5", &m), None);
    assert_eq!(parse_reduced(b"-1", &m), None);
    assert_eq!(parse_reduced(P.as_bytes(), &m), None);
    assert_eq!(parse_reduced(P.as_bytes(), &scalar_modulus_word()), None);
}

#[test]
fn modular_sum_wraps() {
    let m = base_modulus_word();
    let p_minus_one = base("21888242871839275222246405745257275088696311157297823662689037894645226208582");
    assert_eq!(mod_add(&p_minus_one, &word(2), &m), word(1));
    assert_eq!(mod_add(&word(2), &word(3), &m), word(5));
}

#[test]
fn modular_difference_and_negation() {
    let m = base_modulus_word();
    let p_minus_two = base("21888242871839275222246405745257275088696311157297823662689037894645226208581");
    assert_eq!(mod_sub(&word(3), &word(5), &m), p_minus_two);
    assert_eq!(mod_sub(&word(5), &word(3), &m), word(2));
    assert_eq!(mod_neg(&word(0), &m), word(0));
    assert_eq!(mod_neg(&word(2), &m), p_minus_two);
}

#[test]
fn modular_product() {
    let m = base_modulus_word();
    let p_minus_one = base("21888242871839275222246405745257275088696311157297823662689037894645226208582");
    assert_eq!(mod_mul(&p_minus_one, &p_minus_one, &m), word(1));
    let two_128 = base("340282366920938463463374607431768211456");
    let expected = base("6350874878119819312338956282401532409788428879151445726012394534686998597021");
    assert_eq!(mod_mul(&two_128, &two_128, &m), expected);
    assert_eq!(mod_mul(&word(6), &word(7), &m), word(42));
    assert_eq!(mod_mul(&word(0), &two_128, &m), word(0));
}

#[test]
fn modular_power() {
    let m = base_modulus_word();
    assert_eq!(mod_pow(&word(3), &word(5), &m), word(243));
    assert_eq!(mod_pow(&word(7), &word(0), &m), word(1));
    let mut e = vec![0u8; 32];
    e[12] = 16; // 2^100
    let expected = base("13672013744694037579090515513933489027614877058817874540750919095021541002852");
    assert_eq!(mod_pow(&word(3), &e, &m), expected);
}

#[test]
fn field_inverse() {
    let m = base_modulus_word();
    let inv5 = invert(&word(5)).unwrap();
    assert_eq!(inv5, base("13132945723103565133347843447154365053217786694378694197613422736787135725150"));
    assert_eq!(mod_mul(&inv5, &word(5), &m), word(1));
    assert_eq!(invert(&word(1)).unwrap(), word(1));
    assert_eq!(invert(&word(0)), Err(VerifyError::NotInvertible));
}

#[test]
fn negated_generator() {
    let g = G1Point { x: word(1), y: word(2) };
    let n = g1_negate(&g);
    assert_eq!(n.x, word(1));
    assert_eq!(n.y, base("21888242871839275222246405745257275088696311157297823662689037894645226208581"));
    let inf = G1Point { x: word(0), y: word(0) };
    assert_eq!(g1_negate(&inf).y, word(0));
}

#[test]
fn verdict_sets_status() {
    assert_eq!(status_after(&Ok(true)), Some(true));
    assert_eq!(status_after(&Ok(false)), Some(false));
    assert_eq!(status_after(&Err(VerifyError::MalformedField)), None);
    let s = LoanStatus::new("user_1".to_string(), true);
    assert_eq!(s.account_id, "user_1");
    assert!(s.approved);
    assert_eq!(StorageKey::LoanStatus, StorageKey::LoanStatus);
}

#[test]
fn protocol_tags() {
    assert!(is_groth16_bn128(&"groth16".to_string(), &"bn128".to_string()));
    assert!(!is_groth16_bn128(&"plonk".to_string(), &"bn128".to_string()));
    assert!(!is_groth16_bn128(&"groth16".to_string(), &"bls12381".to_string()));
}
