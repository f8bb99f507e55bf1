use crate::codec::VerifyError;
use crate::uint::{
    add_words, is_word, le_value, lemma_radix_pow_pos, lemma_value_bound, lemma_value_take,
    radix_pow, sub_words, times_ten_plus, zero_word, WIDTH,
};
use vstd::arithmetic::div_mod::{lemma_add_mod_noop, lemma_mod_add_multiples_vanish, lemma_small_mod};
use vstd::arithmetic::power::pow;
use vstd::prelude::*;

verus! {

/// A modulus that the word arithmetic supports: above one, and below half of `2^256`,
/// so that the sum of two reduced values still fits in a word.
pub open spec fn is_modulus(m: Seq<u8>) -> bool {
    &&& is_word(m)
    &&& 1 < le_value(m)
    &&& 2 * le_value(m) < radix_pow(32)
}

/// A word reduced modulo `m`.
pub open spec fn is_reduced(a: Seq<u8>, m: Seq<u8>) -> bool {
    is_word(a) && le_value(a) < le_value(m)
}

/// The base field prime of BN254, 21888242871839275222246405745257275088696311157297823662689037894645226208583,
/// as little-endian bytes.
pub open spec fn base_modulus_bytes() -> Seq<u8> {
    seq![
        71u8, 253, 124, 216, 22, 140, 32, 60, 141, 202, 113, 104, 145, 106, 129, 151, 93, 88, 129,
        129, 182, 69, 80, 184, 41, 160, 49, 225, 114, 78, 100, 48,
    ]
}

/// The order of BN254's prime subgroup, 21888242871839275222246405745257275088548364400416034343698204186575808495617,
/// as little-endian bytes: the scalar field.
pub open spec fn scalar_modulus_bytes() -> Seq<u8> {
    seq![
        1u8, 0, 0, 240, 147, 245, 225, 67, 145, 112, 185, 121, 72, 232, 51, 40, 93, 88, 129, 129,
        182, 69, 80, 184, 41, 160, 49, 225, 114, 78, 100, 48,
    ]
}

pub open spec fn base_modulus() -> nat {
    le_value(base_modulus_bytes())
}

pub open spec fn scalar_modulus() -> nat {
    le_value(scalar_modulus_bytes())
}

/// A word whose top byte is `48` is a supported modulus.
proof fn lemma_top_byte_modulus(m: Seq<u8>)
    requires
        is_word(m),
        m[31] == 48,
    ensures
        is_modulus(m),
{
    lemma_value_take(m, 31);
    assert(m.take(32) =~= m);
    lemma_value_bound(m.take(31));
    lemma_radix_pow_pos(31);
    assert(radix_pow(32) == 256 * radix_pow(31));
    let low = le_value(m.take(31));
    let p = radix_pow(31);
    assert(1 < low + 48 * p && 2 * (low + 48 * p) < 256 * p) by (nonlinear_arith)
        requires
            low < p,
            p > 0,
    ;
}

pub proof fn lemma_moduli()
    ensures
        is_modulus(base_modulus_bytes()),
        is_modulus(scalar_modulus_bytes()),
{
    lemma_top_byte_modulus(base_modulus_bytes());
    lemma_top_byte_modulus(scalar_modulus_bytes());
}

pub fn base_modulus_word() -> (r: Vec<u8>)
    ensures
        r@ == base_modulus_bytes(),
        is_modulus(r@),
{
    let r = vec![
        71u8, 253, 124, 216, 22, 140, 32, 60, 141, 202, 113, 104, 145, 106, 129, 151, 93, 88, 129,
        129, 182, 69, 80, 184, 41, 160, 49, 225, 114, 78, 100, 48,
    ];
    proof {
        assert(r@ =~= base_modulus_bytes());
        lemma_moduli();
    }
    r
}

pub fn scalar_modulus_word() -> (r: Vec<u8>)
    ensures
        r@ == scalar_modulus_bytes(),
        is_modulus(r@),
{
    let r = vec![
        1u8, 0, 0, 240, 147, 245, 225, 67, 145, 112, 185, 121, 72, 232, 51, 40, 93, 88, 129, 129,
        182, 69, 80, 184, 41, 160, 49, 225, 114, 78, 100, 48,
    ];
    proof {
        assert(r@ =~= scalar_modulus_bytes());
        lemma_moduli();
    }
    r
}

/// `(a + b) mod m`.
pub fn mod_add(a: &Vec<u8>, b: &Vec<u8>, m: &Vec<u8>) -> (r: Vec<u8>)
    requires
        is_modulus(m@),
        is_reduced(a@, m@),
        is_reduced(b@, m@),
    ensures
        is_reduced(r@, m@),
        le_value(r@) == (le_value(a@) + le_value(b@)) % le_value(m@),
{
    let (s, carry) = add_words(a, b);
    proof {
        lemma_value_bound(s@);
        let c = carry as nat;
        let big = radix_pow(32);
        assert(c == 0) by (nonlinear_arith)
            requires
                c * big <= le_value(a@) + le_value(b@),
                le_value(a@) + le_value(b@) < big,
        ;
    }
    let (d, borrow) = sub_words(&s, m);
    let ghost total = le_value(a@) + le_value(b@);
    let ghost mv = le_value(m@);
    if borrow == 0 {
        proof {
            lemma_mod_add_multiples_vanish((total - mv) as int, mv as int);
            lemma_small_mod((total - mv) as nat, mv);
        }
        d
    } else {
        proof {
            lemma_small_mod(total, mv);
        }
        s
    }
}

/// `(a - b) mod m`.
pub fn mod_sub(a: &Vec<u8>, b: &Vec<u8>, m: &Vec<u8>) -> (r: Vec<u8>)
    requires
        is_modulus(m@),
        is_reduced(a@, m@),
        is_reduced(b@, m@),
    ensures
        is_reduced(r@, m@),
        le_value(r@) == (le_value(a@) - le_value(b@)) % (le_value(m@) as int),
{
    let ghost av = le_value(a@) as int;
    let ghost bv = le_value(b@) as int;
    let ghost mv = le_value(m@) as int;
    let (d, borrow) = sub_words(a, b);
    if borrow == 0 {
        proof {
            lemma_small_mod((av - bv) as nat, mv as nat);
        }
        d
    } else {
        proof {
            let bw = borrow as int;
            let big = radix_pow(32) as int;
            assert(le_value(d@) == av - bv + big) by (nonlinear_arith)
                requires
                    le_value(d@) - bw * big == av - bv,
                    bw == 1,
            ;
        }
        let (s, carry) = add_words(&d, m);
        proof {
            lemma_value_bound(s@);
            lemma_value_bound(d@);
            let c = carry as int;
            let big = radix_pow(32) as int;
            assert(c == 1) by (nonlinear_arith)
                requires
                    le_value(s@) + c * big == le_value(d@) + mv,
                    le_value(d@) == av - bv + big,
                    0 <= av - bv + mv < big,
                    0 <= le_value(s@) < big,
                    0 <= c <= 1,
            ;
            lemma_mod_add_multiples_vanish(av - bv, mv);
            lemma_small_mod((av - bv + mv) as nat, mv as nat);
        }
        s
    }
}

/// `(-a) mod m`.
pub fn mod_neg(a: &Vec<u8>, m: &Vec<u8>) -> (r: Vec<u8>)
    requires
        is_modulus(m@),
        is_reduced(a@, m@),
    ensures
        is_reduced(r@, m@),
        le_value(r@) == (0 - le_value(a@)) % (le_value(m@) as int),
{
    let z = zero_word();
    mod_sub(&z, a, m)
}

proof fn lemma_mul_step_add(x: int, l: int, done: int, p: int, w: int, m: int)
    requires
        m > 0,
    ensures
        ((x * (l + done * p)) % m + (x * p * w) % m) % m == (x * (l + (done + w) * p)) % m,
{
    lemma_add_mod_noop(x * (l + done * p), x * p * w, m);
    assert(x * (l + done * p) + x * p * w == x * (l + (done + w) * p)) by (nonlinear_arith);
}

proof fn lemma_mul_step_double(x: int, p: int, w: int, m: int)
    requires
        m > 0,
    ensures
        ((x * p * w) % m + (x * p * w) % m) % m == (x * p * (2 * w)) % m,
{
    lemma_add_mod_noop(x * p * w, x * p * w, m);
    assert(x * p * w + x * p * w == x * p * (2 * w)) by (nonlinear_arith);
}

/// `(a * b) mod m`, by doubling and adding over the bits of `b`.
pub fn mod_mul(a: &Vec<u8>, b: &Vec<u8>, m: &Vec<u8>) -> (r: Vec<u8>)
    requires
        is_modulus(m@),
        is_reduced(a@, m@),
        is_reduced(b@, m@),
    ensures
        is_reduced(r@, m@),
        le_value(r@) == (le_value(a@) * le_value(b@)) % le_value(m@),
{
    let ghost x = le_value(a@) as int;
    let ghost mv = le_value(m@) as int;
    let mut acc = zero_word();
    let mut base = a.clone();
    let mut i: usize = 0;
    proof {
        assert(b@.take(0) =~= Seq::<u8>::empty());
        assert(radix_pow(0) == 1);
        lemma_small_mod(le_value(a@), le_value(m@));
        assert(x * 0 == 0);
    }
    while i < WIDTH
        invariant
            is_modulus(m@),
            is_reduced(a@, m@),
            is_word(b@),
            x == le_value(a@),
            mv == le_value(m@),
            i <= WIDTH,
            is_reduced(acc@, m@),
            is_reduced(base@, m@),
            le_value(acc@) == (x * le_value(b@.take(i as int))) % mv,
            le_value(base@) == (x * radix_pow(i as nat)) % mv,
        decreases WIDTH - i,
    {
        let ghost l = le_value(b@.take(i as int)) as int;
        let ghost p = radix_pow(i as nat) as int;
        let ghost orig = b@[i as int] as int;
        let ghost mut done: int = 0;
        let ghost mut w: int = 1;
        let mut bits: u8 = b[i];
        let mut j: usize = 0;
        proof {
            assert(x * p * 1 == x * p);
            vstd::arithmetic::power2::lemma2_to64();
        }
        while j < 8
            invariant
                is_modulus(m@),
                mv == le_value(m@),
                mv > 1,
                is_reduced(acc@, m@),
                is_reduced(base@, m@),
                j <= 8,
                w == vstd::arithmetic::power2::pow2(j as nat),
                orig == done + (bits as int) * w,
                0 <= done < w,
                le_value(acc@) == (x * (l + done * p)) % mv,
                le_value(base@) == (x * p * w) % mv,
            decreases 8 - j,
        {
            proof {
                vstd::arithmetic::power2::lemma_pow2_unfold((j + 1) as nat);
            }
            let ghost bits0 = bits as int;
            let ghost done0 = done;
            proof {
                assert(bits0 * w == (bits0 % 2) * w + (bits0 / 2) * (2 * w)) by (nonlinear_arith);
            }
            if bits % 2 == 1 {
                proof {
                    lemma_mul_step_add(x, l, done, p, w, mv);
                }
                acc = mod_add(&acc, &base, m);
                proof {
                    done = done + w;
                    assert(bits0 % 2 == 1);
                    assert((bits0 % 2) * w == w) by (nonlinear_arith)
                        requires
                            bits0 % 2 == 1,
                    ;
                }
            } else {
                proof {
                    assert(bits0 % 2 == 0);
                    assert((bits0 % 2) * w == 0) by (nonlinear_arith)
                        requires
                            bits0 % 2 == 0,
                    ;
                }
            }
            proof {
                lemma_mul_step_double(x, p, w, mv);
                assert(done == done0 + (bits0 % 2) * w);
            }
            base = mod_add(&base, &base, m);
            bits = bits / 2;
            proof {
                w = 2 * w;
            }
            j = j + 1;
        }
        proof {
            vstd::arithmetic::power2::lemma2_to64();
            assert(w == 256);
            assert(orig < 256);
            if bits > 0 {
                assert((bits as int) * w >= 256) by (nonlinear_arith)
                    requires
                        bits > 0,
                        w == 256,
                ;
            }
            assert(done == orig);
            lemma_value_take(b@, i as int);
            assert(l + done * p == le_value(b@.take(i as int + 1)));
            assert(radix_pow((i + 1) as nat) == 256 * p);
            assert(x * p * w == x * (256 * p)) by (nonlinear_arith)
                requires
                    w == 256,
            ;
        }
        i = i + 1;
    }
    proof {
        assert(b@.take(32) =~= b@);
    }
    acc
}

/// The curve equation has no solution at `(0, 0)`.
pub proof fn lemma_small_mod_zero_three()
    ensures
        ((0 * 0) as int) % (base_modulus() as int) != ((0 * 0 * 0 + 3) as int) % (
        base_modulus() as int),
{
    lemma_moduli();
    lemma_top_value();
    lemma_small_mod(0, base_modulus());
    lemma_small_mod(3, base_modulus());
}

/// The base modulus exceeds three.
pub proof fn lemma_top_value()
    ensures
        base_modulus() > 3,
{
    let m = base_modulus_bytes();
    lemma_value_take(m, 31);
    assert(m.take(32) =~= m);
    lemma_radix_pow_pos(31);
    let p = radix_pow(31);
    assert(p == 256 * radix_pow(30));
    lemma_radix_pow_pos(30);
    assert(48 * p > 3) by (nonlinear_arith)
        requires
            p >= 256,
    ;
}

/// One lies in the scalar field.
pub proof fn lemma_scalar_one()
    ensures
        scalar_modulus() > 1,
{
    lemma_moduli();
}

proof fn lemma_pow_step_mul(a: int, e1: nat, e2: nat, m: int)
    requires
        m > 0,
    ensures
        ((pow(a, e1) % m) * (pow(a, e2) % m)) % m == pow(a, e1 + e2) % m,
{
    vstd::arithmetic::div_mod::lemma_mul_mod_noop(pow(a, e1), pow(a, e2), m);
    vstd::arithmetic::power::lemma_pow_adds(a, e1, e2);
}

/// `a^e mod m`, by squaring and multiplying over the bits of `e`.
pub fn mod_pow(a: &Vec<u8>, e: &Vec<u8>, m: &Vec<u8>) -> (r: Vec<u8>)
    requires
        is_modulus(m@),
        is_reduced(a@, m@),
        is_word(e@),
    ensures
        is_reduced(r@, m@),
        le_value(r@) == pow(le_value(a@) as int, le_value(e@)) % (le_value(m@) as int),
{
    let ghost x = le_value(a@) as int;
    let ghost mv = le_value(m@) as int;
    let mut acc = one_word_below(m);
    let mut base = a.clone();
    let mut i: usize = 0;
    proof {
        assert(e@.take(0) =~= Seq::<u8>::empty());
        assert(radix_pow(0) == 1);
        lemma_small_mod(le_value(a@), le_value(m@));
        lemma_small_mod(1, le_value(m@));
        vstd::arithmetic::power::lemma_pow0(x);
        vstd::arithmetic::power::lemma_pow1(x);
    }
    while i < WIDTH
        invariant
            is_modulus(m@),
            is_reduced(a@, m@),
            is_word(e@),
            x == le_value(a@),
            mv == le_value(m@),
            i <= WIDTH,
            is_reduced(acc@, m@),
            is_reduced(base@, m@),
            le_value(acc@) == pow(x, le_value(e@.take(i as int))) % mv,
            le_value(base@) == pow(x, radix_pow(i as nat)) % mv,
        decreases WIDTH - i,
    {
        let ghost l = le_value(e@.take(i as int));
        let ghost p = radix_pow(i as nat);
        let ghost orig = e@[i as int] as nat;
        let ghost mut done: nat = 0;
        let ghost mut w: nat = 1;
        let mut bits: u8 = e[i];
        let mut j: usize = 0;
        proof {
            vstd::arithmetic::power2::lemma2_to64();
            assert(p * 1 == p);
            assert(l + 0 * p == l);
        }
        while j < 8
            invariant
                is_modulus(m@),
                mv == le_value(m@),
                mv > 1,
                is_reduced(acc@, m@),
                is_reduced(base@, m@),
                j <= 8,
                w == vstd::arithmetic::power2::pow2(j as nat),
                orig == done + (bits as nat) * w,
                done < w,
                le_value(acc@) == pow(x, l + done * p) % mv,
                le_value(base@) == pow(x, p * w) % mv,
            decreases 8 - j,
        {
            proof {
                vstd::arithmetic::power2::lemma_pow2_unfold((j + 1) as nat);
            }
            let ghost bits0 = bits as nat;
            let ghost done0 = done;
            proof {
                assert(bits0 * w == (bits0 % 2) * w + (bits0 / 2) * (2 * w)) by (nonlinear_arith);
            }
            if bits % 2 == 1 {
                proof {
                    lemma_pow_step_mul(x, l + done * p, p * w, mv);
                    assert(l + done * p + p * w == l + (done + w) * p) by (nonlinear_arith);
                }
                acc = mod_mul(&acc, &base, m);
                proof {
                    done = done + w;
                    assert((bits0 % 2) * w == w) by (nonlinear_arith)
                        requires
                            bits0 % 2 == 1,
                    ;
                }
            } else {
                proof {
                    assert((bits0 % 2) * w == 0) by (nonlinear_arith)
                        requires
                            bits0 % 2 == 0,
                    ;
                }
            }
            proof {
                lemma_pow_step_mul(x, p * w, p * w, mv);
                assert(p * w + p * w == p * (2 * w)) by (nonlinear_arith);
            }
            base = mod_mul(&base, &base, m);
            bits = bits / 2;
            proof {
                w = 2 * w;
            }
            j = j + 1;
        }
        proof {
            assert(w == 256);
            if bits > 0 {
                assert((bits as nat) * w >= 256) by (nonlinear_arith)
                    requires
                        bits > 0,
                        w == 256,
                ;
            }
            assert(done == orig);
            lemma_value_take(e@, i as int);
            assert(radix_pow((i + 1) as nat) == 256 * p);
            assert(p * w == 256 * p) by (nonlinear_arith)
                requires
                    w == 256,
            ;
            assert(l + done * p == l + (e@[i as int] as nat) * p);
        }
        i = i + 1;
    }
    proof {
        assert(e@.take(32) =~= e@);
    }
    acc
}

fn one_word_below(m: &Vec<u8>) -> (r: Vec<u8>)
    requires
        is_modulus(m@),
    ensures
        is_reduced(r@, m@),
        le_value(r@) == 1,
{
    let r: Vec<u8> = vec![
        1u8, 0, 0, 0, 0, 0, 0, 0, 0, 0, 0, 0, 0, 0, 0, 0, 0, 0, 0, 0, 0, 0, 0, 0, 0, 0, 0, 0, 0,
        0, 0, 0,
    ];
    proof {
        crate::uint::lemma_small_word(r@, 1);
    }
    r
}

/// `p - 2` for the base prime `p`, whose lowest byte is `71`.
pub open spec fn base_inverse_exponent_bytes() -> Seq<u8> {
    base_modulus_bytes().update(0, 69u8)
}

/// The inverse of `a` in the base field, `a^(p-2) mod p`; `NotInvertible` for zero.
pub fn invert(a: &Vec<u8>) -> (r: Result<Vec<u8>, VerifyError>)
    requires
        is_reduced(a@, base_modulus_bytes()),
    ensures
        r is Err <==> le_value(a@) == 0,
        r is Err ==> r == Err::<Vec<u8>, VerifyError>(VerifyError::NotInvertible),
        r is Ok ==> is_reduced(r->Ok_0@, base_modulus_bytes()) && le_value(r->Ok_0@) == pow(
            le_value(a@) as int,
            (base_modulus() - 2) as nat,
        ) % (base_modulus() as int),
{
    let m = base_modulus_word();
    let (_, below_one) = sub_words(a, &one_word_below(&m));
    if below_one == 1 {
        return Err(VerifyError::NotInvertible);
    }
    let mut e = base_modulus_word();
    e.set(0, 69u8);
    proof {
        assert(e@ =~= base_inverse_exponent_bytes());
        lemma_value_take(e@, 0);
        lemma_value_take(m@, 0);
        lemma_suffix_same(e@, m@);
        assert(radix_pow(0) == 1);
    }
    Ok(mod_pow(a, &e, &m))
}

/// Two words that differ only in their lowest byte differ in value by as much.
proof fn lemma_suffix_same(a: Seq<u8>, b: Seq<u8>)
    requires
        is_word(a),
        is_word(b),
        forall|i: int| 1 <= i < 32 ==> a[i] == b[i],
    ensures
        le_value(a) - (a[0] as int) == le_value(b) - (b[0] as int),
{
    lemma_suffix_prefix(a, b, 32);
    assert(a.take(32) =~= a);
    assert(b.take(32) =~= b);
}

proof fn lemma_suffix_prefix(a: Seq<u8>, b: Seq<u8>, k: int)
    requires
        is_word(a),
        is_word(b),
        1 <= k <= 32,
        forall|i: int| 1 <= i < 32 ==> a[i] == b[i],
    ensures
        le_value(a.take(k)) - (a[0] as int) == le_value(b.take(k)) - (b[0] as int),
    decreases k,
{
    if k == 1 {
        lemma_value_take(a, 0);
        lemma_value_take(b, 0);
        assert(a.take(0) =~= Seq::<u8>::empty());
        assert(b.take(0) =~= Seq::<u8>::empty());
        assert(radix_pow(0) == 1);
    } else {
        lemma_suffix_prefix(a, b, k - 1);
        lemma_value_take(a, k - 1);
        lemma_value_take(b, k - 1);
    }
}

/// Whether `b` is the ASCII code of a decimal digit.
pub open spec fn is_digit(b: u8) -> bool {
    48 <= b <= 57
}

/// A nonempty run of decimal digits.
pub open spec fn is_decimal(s: Seq<u8>) -> bool {
    s.len() > 0 && forall|i: int| 0 <= i < s.len() ==> is_digit(#[trigger] s[i])
}

/// The number that a run of decimal digits writes.
pub open spec fn decimal_value(s: Seq<u8>) -> nat
    decreases s.len(),
{
    if s.len() == 0 {
        0
    } else {
        10 * decimal_value(s.drop_last()) + (s.last() - 48) as nat
    }
}

proof fn lemma_decimal_take(s: Seq<u8>, i: int)
    requires
        0 <= i < s.len(),
        is_digit(s[i]),
    ensures
        decimal_value(s.take(i + 1)) == 10 * decimal_value(s.take(i)) + (s[i] - 48) as nat,
{
    assert(s.take(i + 1).drop_last() =~= s.take(i));
}

/// Digits can only make a number grow.
proof fn lemma_decimal_grows(s: Seq<u8>, i: int)
    requires
        0 <= i <= s.len(),
        is_decimal(s) || s.len() == 0,
    ensures
        decimal_value(s.take(i)) <= decimal_value(s),
    decreases s.len() - i,
{
    if i < s.len() {
        lemma_decimal_take(s, i);
        lemma_decimal_grows(s, i + 1);
    } else {
        assert(s.take(i) =~= s);
    }
}

/// The field element that a decimal text writes, if it is a run of digits whose
/// value lies below `m`; `None` otherwise.
pub fn parse_reduced(s: &[u8], m: &Vec<u8>) -> (r: Option<Vec<u8>>)
    requires
        is_modulus(m@),
    ensures
        r is Some <==> (is_decimal(s@) && decimal_value(s@) < le_value(m@)),
        r is Some ==> is_reduced(r->0@, m@) && le_value(r->0@) == decimal_value(s@),
{
    if s.len() == 0 {
        return None;
    }
    let mut acc = zero_word();
    let mut i: usize = 0;
    proof {
        assert(s@.take(0) =~= Seq::<u8>::empty());
    }
    while i < s.len()
        invariant
            is_modulus(m@),
            i <= s@.len(),
            s@.len() > 0,
            is_word(acc@),
            forall|k: int| 0 <= k < i ==> is_digit(#[trigger] s@[k]),
            le_value(acc@) == decimal_value(s@.take(i as int)),
        decreases s@.len() - i,
    {
        let c = s[i];
        if c < 48 || c > 57 {
            return None;
        }
        let (next, carry) = times_ten_plus(&acc, c - 48);
        proof {
            lemma_decimal_take(s@, i as int);
        }
        if carry != 0 {
            proof {
                let c = carry as nat;
                let big = radix_pow(32);
                assert(decimal_value(s@.take(i + 1)) >= big) by (nonlinear_arith)
                    requires
                        le_value(next@) + c * big == decimal_value(s@.take(i + 1)),
                        c >= 1,
                ;
                if is_decimal(s@) {
                    lemma_decimal_grows(s@, i as int + 1);
                }
            }
            return None;
        }
        acc = next;
        i = i + 1;
    }
    proof {
        assert(s@.take(s@.len() as int) =~= s@);
    }
    let (_, borrow) = sub_words(&acc, m);
    if borrow == 1 {
        Some(acc)
    } else {
        None
    }
}

} // verus!
