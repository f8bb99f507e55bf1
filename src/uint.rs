use vstd::prelude::*;

verus! {

/// Number of bytes in a little-endian 256-bit integer.
pub const WIDTH: usize = 32;

/// `256^n`.
pub open spec fn radix_pow(n: nat) -> nat
    decreases n,
{
    if n == 0 {
        1
    } else {
        256 * radix_pow((n - 1) as nat)
    }
}

/// The value of a little-endian byte string.
pub open spec fn le_value(s: Seq<u8>) -> nat
    decreases s.len(),
{
    if s.len() == 0 {
        0
    } else {
        le_value(s.drop_last()) + (s.last() as nat) * radix_pow((s.len() - 1) as nat)
    }
}

/// A 256-bit unsigned integer as 32 little-endian bytes.
pub open spec fn is_word(s: Seq<u8>) -> bool {
    s.len() == WIDTH
}

pub proof fn lemma_radix_pow_pos(n: nat)
    ensures
        radix_pow(n) > 0,
    decreases n,
{
    if n > 0 {
        lemma_radix_pow_pos((n - 1) as nat);
    }
}

pub proof fn lemma_value_take(s: Seq<u8>, i: int)
    requires
        0 <= i < s.len(),
    ensures
        le_value(s.take(i + 1)) == le_value(s.take(i)) + (s[i] as nat) * radix_pow(i as nat),
{
    assert(s.take(i + 1).drop_last() =~= s.take(i));
}

pub proof fn lemma_value_push(s: Seq<u8>, b: u8)
    ensures
        le_value(s.push(b)) == le_value(s) + (b as nat) * radix_pow(s.len()),
{
    assert(s.push(b).drop_last() =~= s);
}

pub proof fn lemma_value_bound(s: Seq<u8>)
    ensures
        le_value(s) < radix_pow(s.len()),
    decreases s.len(),
{
    if s.len() > 0 {
        let n = (s.len() - 1) as nat;
        lemma_value_bound(s.drop_last());
        let v = le_value(s.drop_last());
        let b = s.last() as nat;
        let p = radix_pow(n);
        assert(v + b * p < 256 * p) by (nonlinear_arith)
            requires
                v < p,
                b <= 255,
        ;
    }
}

pub proof fn lemma_value_full(s: Seq<u8>)
    ensures
        le_value(s.take(s.len() as int)) == le_value(s),
{
    assert(s.take(s.len() as int) =~= s);
}

/// A word whose top byte is smaller holds the smaller value.
pub proof fn lemma_top_byte_lt(a: Seq<u8>, b: Seq<u8>)
    requires
        is_word(a),
        is_word(b),
        a[31] < b[31],
    ensures
        le_value(a) < le_value(b),
{
    lemma_value_take(a, 31);
    lemma_value_take(b, 31);
    assert(a.take(32) =~= a);
    assert(b.take(32) =~= b);
    lemma_value_bound(a.take(31));
    let la = le_value(a.take(31));
    let lb = le_value(b.take(31));
    let p = radix_pow(31);
    let ta = a[31] as nat;
    let tb = b[31] as nat;
    assert(la + ta * p < lb + tb * p) by (nonlinear_arith)
        requires
            la < p,
            ta < tb,
    ;
}

proof fn lemma_small_word_prefix(w: Seq<u8>, k: int)
    requires
        is_word(w),
        1 <= k <= 32,
        forall|i: int| 1 <= i < 32 ==> w[i] == 0,
    ensures
        le_value(w.take(k)) == w[0],
    decreases k,
{
    if k == 1 {
        lemma_value_take(w, 0);
        assert(w.take(0) =~= Seq::<u8>::empty());
        assert(radix_pow(0) == 1);
    } else {
        lemma_small_word_prefix(w, k - 1);
        lemma_value_take(w, k - 1);
    }
}

/// A word whose bytes above the lowest are zero holds its lowest byte.
pub proof fn lemma_small_word(w: Seq<u8>, v: u8)
    requires
        w =~= seq![v].add(Seq::new(31, |i: int| 0u8)),
    ensures
        is_word(w),
        le_value(w) == v,
{
    lemma_small_word_prefix(w, 32);
    assert(w.take(32) =~= w);
}

/// The value of a word read from its lowest byte.
pub proof fn lemma_value_front(s: Seq<u8>)
    requires
        s.len() > 0,
    ensures
        le_value(s) == s[0] + 256 * le_value(s.skip(1)),
    decreases s.len(),
{
    if s.len() == 1 {
        assert(s.skip(1) =~= Seq::<u8>::empty());
        assert(s.drop_last() =~= Seq::<u8>::empty());
        assert(radix_pow(0) == 1);
    } else {
        let d = s.drop_last();
        lemma_value_front(d);
        assert(s.skip(1).drop_last() =~= d.skip(1));
        let n = s.len();
        let last = s.last() as nat;
        let q = radix_pow((n - 2) as nat);
        assert(radix_pow((n - 1) as nat) == 256 * q);
        assert(256 * (le_value(d.skip(1)) + last * q) == 256 * le_value(d.skip(1)) + last * (256
            * q)) by (nonlinear_arith);
    }
}

/// `a / 10` and `a % 10`.
pub fn div_ten(a: &Vec<u8>) -> (r: (Vec<u8>, u8))
    requires
        is_word(a@),
    ensures
        is_word(r.0@),
        r.1 < 10,
        le_value(a@) == 10 * le_value(r.0@) + r.1,
{
    let mut q: Vec<u8> = vec![
        0u8, 0, 0, 0, 0, 0, 0, 0, 0, 0, 0, 0, 0, 0, 0, 0, 0, 0, 0, 0, 0, 0, 0, 0, 0, 0, 0, 0, 0,
        0, 0, 0,
    ];
    let mut rem: u16 = 0;
    let mut i: usize = WIDTH;
    proof {
        assert(a@.skip(32) =~= Seq::<u8>::empty());
        assert(q@.skip(32) =~= Seq::<u8>::empty());
    }
    while i > 0
        invariant
            is_word(a@),
            is_word(q@),
            i <= WIDTH,
            rem < 10,
            le_value(a@.skip(i as int)) == 10 * le_value(q@.skip(i as int)) + rem,
        decreases i,
    {
        let cur: u16 = rem * 256 + a[i - 1] as u16;
        let ghost q_old = q@;
        q.set(i - 1, (cur / 10) as u8);
        proof {
            let k = i - 1;
            assert(q@.skip(i as int) =~= q_old.skip(i as int));
            lemma_value_front(a@.skip(k as int));
            lemma_value_front(q@.skip(k as int));
            assert(a@.skip(k as int).skip(1) =~= a@.skip(i as int));
            assert(q@.skip(k as int).skip(1) =~= q@.skip(i as int));
        }
        rem = cur % 10;
        i = i - 1;
    }
    proof {
        assert(a@.skip(0) =~= a@);
        assert(q@.skip(0) =~= q@);
    }
    (q, rem as u8)
}

/// One digit step of a carry chain: the low byte and the carry together keep the value.
proof fn lemma_carry_step(s: nat, p: nat)
    ensures
        (s % 256) * p + (s / 256) * (256 * p) == s * p,
{
    assert((s % 256) * p + (s / 256) * (256 * p) == s * p) by (nonlinear_arith)
        requires
            s == 256 * (s / 256) + s % 256,
    ;
}

/// Sum of two words, with the carry out of the top byte.
pub fn add_words(a: &Vec<u8>, b: &Vec<u8>) -> (r: (Vec<u8>, u8))
    requires
        is_word(a@),
        is_word(b@),
    ensures
        is_word(r.0@),
        r.1 <= 1,
        le_value(r.0@) + (r.1 as nat) * radix_pow(32) == le_value(a@) + le_value(b@),
{
    let mut out: Vec<u8> = Vec::new();
    let mut carry: u16 = 0;
    let mut i: usize = 0;
    while i < WIDTH
        invariant
            is_word(a@),
            is_word(b@),
            i <= WIDTH,
            out@.len() == i,
            carry <= 1,
            le_value(out@) + (carry as nat) * radix_pow(i as nat) == le_value(a@.take(i as int))
                + le_value(b@.take(i as int)),
        decreases WIDTH - i,
    {
        let s: u16 = a[i] as u16 + b[i] as u16 + carry;
        proof {
            lemma_value_take(a@, i as int);
            lemma_value_take(b@, i as int);
            lemma_value_push(out@, (s % 256) as u8);
            lemma_carry_step(s as nat, radix_pow(i as nat));
            assert((a@[i as int] as nat) * radix_pow(i as nat) + (b@[i as int] as nat) * radix_pow(
                i as nat,
            ) + (carry as nat) * radix_pow(i as nat) == (s as nat) * radix_pow(i as nat))
                by (nonlinear_arith)
                requires
                    s as nat == a@[i as int] as nat + b@[i as int] as nat + carry as nat,
            ;
        }
        out.push((s % 256) as u8);
        carry = s / 256;
        i = i + 1;
    }
    proof {
        lemma_value_full(a@);
        lemma_value_full(b@);
    }
    (out, carry as u8)
}

/// Difference of two words, with the borrow out of the top byte.
pub fn sub_words(a: &Vec<u8>, b: &Vec<u8>) -> (r: (Vec<u8>, u8))
    requires
        is_word(a@),
        is_word(b@),
    ensures
        is_word(r.0@),
        r.1 <= 1,
        le_value(r.0@) - (r.1 as int) * radix_pow(32) == le_value(a@) - le_value(b@),
        r.1 == 1 <==> le_value(a@) < le_value(b@),
{
    let mut out: Vec<u8> = Vec::new();
    let mut borrow: u16 = 0;
    let mut i: usize = 0;
    while i < WIDTH
        invariant
            is_word(a@),
            is_word(b@),
            i <= WIDTH,
            out@.len() == i,
            borrow <= 1,
            le_value(out@) - (borrow as int) * radix_pow(i as nat) == le_value(a@.take(i as int))
                - le_value(b@.take(i as int)),
        decreases WIDTH - i,
    {
        let ai: u16 = a[i] as u16;
        let bi: u16 = b[i] as u16 + borrow;
        let d: u16;
        if ai >= bi {
            d = ai - bi;
            borrow = 0;
        } else {
            d = ai + 256 - bi;
            borrow = 1;
        }
        proof {
            lemma_value_take(a@, i as int);
            lemma_value_take(b@, i as int);
            lemma_value_push(out@, d as u8);
            let p = radix_pow(i as nat);
            assert((d as int) * p - (borrow as int) * (256 * p) == (ai as int) * p - (bi as int)
                * p) by (nonlinear_arith)
                requires
                    d as int - 256 * borrow as int == ai as int - bi as int,
            ;
            assert((bi as int) * p == (b@[i as int] as int) * p + (borrow_before(bi, b@[i as int])
                as int) * p) by (nonlinear_arith)
                requires
                    bi as int == b@[i as int] as int + borrow_before(bi, b@[i as int]) as int,
            ;
        }
        out.push(d as u8);
        i = i + 1;
    }
    proof {
        lemma_value_full(a@);
        lemma_value_full(b@);
        lemma_value_bound(out@);
        lemma_value_bound(a@);
        lemma_value_bound(b@);
        assert(le_value(a@) < radix_pow(32));
        assert(le_value(b@) < radix_pow(32));
        assert(le_value(out@) < radix_pow(32));
        if borrow == 1 {
            assert(le_value(a@) < le_value(b@));
        } else {
            assert(borrow == 0);
            assert(le_value(out@) == le_value(a@) - le_value(b@));
        }
    }
    (out, borrow as u8)
}

/// `10 * a + d`, with the part that does not fit in a word returned as the carry.
pub fn times_ten_plus(a: &Vec<u8>, d: u8) -> (r: (Vec<u8>, u8))
    requires
        is_word(a@),
        d <= 9,
    ensures
        is_word(r.0@),
        le_value(r.0@) + (r.1 as nat) * radix_pow(32) == 10 * le_value(a@) + d,
{
    let mut out: Vec<u8> = Vec::new();
    let mut carry: u16 = d as u16;
    let mut i: usize = 0;
    proof {
        assert(a@.take(0) =~= Seq::<u8>::empty());
        assert(radix_pow(0) == 1);
    }
    while i < WIDTH
        invariant
            is_word(a@),
            i <= WIDTH,
            out@.len() == i,
            carry <= 9,
            le_value(out@) + (carry as nat) * radix_pow(i as nat) == 10 * le_value(a@.take(i as int))
                + d,
        decreases WIDTH - i,
    {
        let s: u16 = a[i] as u16 * 10 + carry;
        proof {
            lemma_value_take(a@, i as int);
            lemma_value_push(out@, (s % 256) as u8);
            lemma_carry_step(s as nat, radix_pow(i as nat));
            let p = radix_pow(i as nat);
            assert(10 * ((a@[i as int] as nat) * p) + (carry as nat) * p == (s as nat) * p)
                by (nonlinear_arith)
                requires
                    s as nat == 10 * (a@[i as int] as nat) + carry as nat,
            ;
        }
        out.push((s % 256) as u8);
        carry = s / 256;
        i = i + 1;
    }
    proof {
        lemma_value_full(a@);
    }
    (out, carry as u8)
}

/// Whether two words hold the same value.
pub fn same_value(a: &Vec<u8>, b: &Vec<u8>) -> (r: bool)
    requires
        is_word(a@),
        is_word(b@),
    ensures
        r == (le_value(a@) == le_value(b@)),
{
    let (_, lt) = sub_words(a, b);
    let (_, gt) = sub_words(b, a);
    lt == 0 && gt == 0
}

/// The word that holds zero.
pub fn zero_word() -> (r: Vec<u8>)
    ensures
        is_word(r@),
        le_value(r@) == 0,
{
    let mut out: Vec<u8> = Vec::new();
    let mut i: usize = 0;
    while i < WIDTH
        invariant
            i <= WIDTH,
            out@.len() == i,
            le_value(out@) == 0,
        decreases WIDTH - i,
    {
        proof {
            lemma_value_push(out@, 0u8);
        }
        out.push(0u8);
        i = i + 1;
    }
    out
}

/// The borrow that was added to a subtrahend byte.
spec fn borrow_before(bi: u16, b: u8) -> int {
    bi as int - b as int
}

} // verus!
