//! The field GF(2^8) modulo x^8 + x^4 + x^3 + x^2 + 1 (0x11d), its primitive element 2, and
//! its exponential and logarithm tables.
use vstd::prelude::*;

verus! {

/// Multiplication by `x` in GF(2^8) modulo the polynomial 0x11d.
pub closed spec fn xtime(a: u8) -> u8 {
    (a << 1u8) ^ (((a >> 7u8) * 0x1du8) as u8)
}

/// Product in GF(2^8) modulo 0x11d, as a sum of shifted copies of `a`.
pub closed spec fn gf_mul(a: u8, b: u8) -> u8 {
    let a1 = xtime(a);
    let a2 = xtime(a1);
    let a3 = xtime(a2);
    let a4 = xtime(a3);
    let a5 = xtime(a4);
    let a6 = xtime(a5);
    let a7 = xtime(a6);
    (if b & 1u8 != 0 { a } else { 0u8 })
    ^ (if b & 2u8 != 0 { a1 } else { 0u8 })
    ^ (if b & 4u8 != 0 { a2 } else { 0u8 })
    ^ (if b & 8u8 != 0 { a3 } else { 0u8 })
    ^ (if b & 16u8 != 0 { a4 } else { 0u8 })
    ^ (if b & 32u8 != 0 { a5 } else { 0u8 })
    ^ (if b & 64u8 != 0 { a6 } else { 0u8 })
    ^ (if b & 128u8 != 0 { a7 } else { 0u8 })
}

pub proof fn lemma_mul_commutes(a: u8, b: u8)
    ensures
        gf_mul(a, b) == gf_mul(b, a),
{
    assert(gf_mul(a, b) == gf_mul(b, a)) by (bit_vector);
}

pub proof fn lemma_mul_distributes(a: u8, b: u8, c: u8)
    ensures
        gf_mul(a, b ^ c) == gf_mul(a, b) ^ gf_mul(a, c),
{
    assert(gf_mul(a, b ^ c) == gf_mul(a, b) ^ gf_mul(a, c)) by (bit_vector);
}

proof fn lemma_mul_zero(b: u8)
    ensures
        gf_mul(0u8, b) == 0u8,
{
    assert(gf_mul(0u8, b) == 0u8) by (bit_vector);
}

proof fn lemma_xtime_mul(a: u8, b: u8)
    ensures
        xtime(gf_mul(a, b)) == gf_mul(xtime(a), b),
{
    assert(xtime(gf_mul(a, b)) == gf_mul(xtime(a), b)) by (bit_vector);
}

pub proof fn lemma_mul_distributes_left(a: u8, c: u8, b: u8)
    ensures
        gf_mul(a ^ c, b) == gf_mul(a, b) ^ gf_mul(c, b),
{
    lemma_mul_commutes(a ^ c, b);
    lemma_mul_distributes(b, a, c);
    lemma_mul_commutes(a, b);
    lemma_mul_commutes(c, b);
}

/// Selects `v` when bit `k` of `c` is set.
spec fn pick(c: u8, k: u8, v: u8) -> u8 {
    if c & k != 0 { v } else { 0u8 }
}

proof fn lemma_pick_mul(c: u8, k: u8, v: u8, b: u8)
    ensures
        pick(c, k, gf_mul(v, b)) == gf_mul(pick(c, k, v), b),
{
    lemma_mul_zero(b);
}

proof fn lemma_mul_swap(a: u8, b: u8, c: u8)
    ensures
        gf_mul(gf_mul(a, b), c) == gf_mul(gf_mul(a, c), b),
{
    let x0 = a;
    let x1 = xtime(x0);
    let x2 = xtime(x1);
    let x3 = xtime(x2);
    let x4 = xtime(x3);
    let x5 = xtime(x4);
    let x6 = xtime(x5);
    let x7 = xtime(x6);
    lemma_xtime_mul(x0, b);
    lemma_xtime_mul(x1, b);
    lemma_xtime_mul(x2, b);
    lemma_xtime_mul(x3, b);
    lemma_xtime_mul(x4, b);
    lemma_xtime_mul(x5, b);
    lemma_xtime_mul(x6, b);
    let p0 = gf_mul(x0, b);
    let p1 = gf_mul(x1, b);
    let p2 = gf_mul(x2, b);
    let p3 = gf_mul(x3, b);
    let p4 = gf_mul(x4, b);
    let p5 = gf_mul(x5, b);
    let p6 = gf_mul(x6, b);
    let p7 = gf_mul(x7, b);
    assert(gf_mul(p0, c) == pick(c, 1, p0) ^ pick(c, 2, p1) ^ pick(c, 4, p2) ^ pick(c, 8, p3)
        ^ pick(c, 16, p4) ^ pick(c, 32, p5) ^ pick(c, 64, p6) ^ pick(c, 128, p7));
    lemma_pick_mul(c, 1, x0, b);
    lemma_pick_mul(c, 2, x1, b);
    lemma_pick_mul(c, 4, x2, b);
    lemma_pick_mul(c, 8, x3, b);
    lemma_pick_mul(c, 16, x4, b);
    lemma_pick_mul(c, 32, x5, b);
    lemma_pick_mul(c, 64, x6, b);
    lemma_pick_mul(c, 128, x7, b);
    let q0 = pick(c, 1, x0);
    let q1 = pick(c, 2, x1);
    let q2 = pick(c, 4, x2);
    let q3 = pick(c, 8, x3);
    let q4 = pick(c, 16, x4);
    let q5 = pick(c, 32, x5);
    let q6 = pick(c, 64, x6);
    let q7 = pick(c, 128, x7);
    assert(gf_mul(a, c) == q0 ^ q1 ^ q2 ^ q3 ^ q4 ^ q5 ^ q6 ^ q7);
    lemma_mul_distributes_left(q0 ^ q1 ^ q2 ^ q3 ^ q4 ^ q5 ^ q6, q7, b);
    lemma_mul_distributes_left(q0 ^ q1 ^ q2 ^ q3 ^ q4 ^ q5, q6, b);
    lemma_mul_distributes_left(q0 ^ q1 ^ q2 ^ q3 ^ q4, q5, b);
    lemma_mul_distributes_left(q0 ^ q1 ^ q2 ^ q3, q4, b);
    lemma_mul_distributes_left(q0 ^ q1 ^ q2, q3, b);
    lemma_mul_distributes_left(q0 ^ q1, q2, b);
    lemma_mul_distributes_left(q0, q1, b);
}

pub proof fn lemma_mul_associates(a: u8, b: u8, c: u8)
    ensures
        gf_mul(gf_mul(a, b), c) == gf_mul(a, gf_mul(b, c)),
{
    lemma_mul_swap(a, b, c);
    lemma_mul_commutes(a, c);
    lemma_mul_swap(c, a, b);
    lemma_mul_commutes(c, gf_mul(a, b));
    lemma_mul_commutes(gf_mul(b, c), a);
    lemma_mul_commutes(b, c);
}

pub proof fn lemma_mul_identity(a: u8)
    ensures
        gf_mul(a, 1u8) == a,
        gf_mul(1u8, a) == a,
        gf_mul(a, 0u8) == 0u8,
        gf_mul(0u8, a) == 0u8,
{
    assert(gf_mul(a, 1u8) == a && gf_mul(a, 0u8) == 0u8) by (bit_vector);
    lemma_mul_commutes(a, 1u8);
    lemma_mul_commutes(a, 0u8);
}

/// `a` raised to the power `n` in GF(2^8).
pub open spec fn gf_pow(a: u8, n: nat) -> u8
    decreases n,
{
    if n == 0 {
        1u8
    } else {
        gf_mul(gf_pow(a, (n - 1) as nat), a)
    }
}

/// The primitive element 2 raised to `power`, reduced modulo the group order 255.
pub open spec fn alpha_pow(power: nat) -> u8 {
    gf_pow(2u8, power % 255)
}

/// Multiplicative inverse of `b`, as `b` to the power 254.
pub open spec fn gf_inv(b: u8) -> u8 {
    let s1 = gf_mul(b, b);
    let s2 = gf_mul(s1, s1);
    let s3 = gf_mul(s2, s2);
    let s4 = gf_mul(s3, s3);
    let s5 = gf_mul(s4, s4);
    let s6 = gf_mul(s5, s5);
    let s7 = gf_mul(s6, s6);
    gf_mul(s1, gf_mul(s2, gf_mul(s3, gf_mul(s4, gf_mul(s5, gf_mul(s6, s7))))))
}

/// Quotient `a / b` in GF(2^8).
pub open spec fn gf_div(a: u8, b: u8) -> u8 {
    gf_mul(a, gf_inv(b))
}

/// `b` times its inverse is one, for every nonzero `b`.
#[verifier::rlimit(100)]
proof fn lemma_inverse(b: u8)
    requires
        b != 0,
    ensures
        gf_mul(gf_inv(b), b) == 1u8,
        gf_mul(b, gf_inv(b)) == 1u8,
{
    let s1 = gf_mul(b, b);
    let s2 = gf_mul(s1, s1);
    let s3 = gf_mul(s2, s2);
    let s4 = gf_mul(s3, s3);
    let s5 = gf_mul(s4, s4);
    let s6 = gf_mul(s5, s5);
    let s7 = gf_mul(s6, s6);
    let t6 = gf_mul(s6, s7);
    let t5 = gf_mul(s5, t6);
    let t4 = gf_mul(s4, t5);
    let t3 = gf_mul(s3, t4);
    let t2 = gf_mul(s2, t3);
    let inv = gf_mul(s1, t2);
    assert(gf_mul(inv, b) == 1u8) by (bit_vector)
        requires
            b != 0,
            s1 == gf_mul(b, b),
            s2 == gf_mul(s1, s1),
            s3 == gf_mul(s2, s2),
            s4 == gf_mul(s3, s3),
            s5 == gf_mul(s4, s4),
            s6 == gf_mul(s5, s5),
            s7 == gf_mul(s6, s6),
            t6 == gf_mul(s6, s7),
            t5 == gf_mul(s5, t6),
            t4 == gf_mul(s4, t5),
            t3 == gf_mul(s3, t4),
            t2 == gf_mul(s2, t3),
            inv == gf_mul(s1, t2),
    ;
    lemma_mul_commutes(inv, b);
}

/// Division undoes multiplication: `(a / b) * b == a` for every nonzero `b`.
pub proof fn lemma_div_mul(a: u8, b: u8)
    requires
        b != 0,
    ensures
        gf_mul(gf_div(a, b), b) == a,
{
    lemma_inverse(b);
    lemma_mul_associates(a, gf_inv(b), b);
    lemma_mul_identity(a);
}

/// `x` multiplied `k` times by the primitive element.
spec fn xtimes(x: u8, k: u32) -> u8
    decreases k,
{
    if k == 0 {
        x
    } else {
        xtimes(xtime(x), (k - 1) as u32)
    }
}

/// `a` is one of `x`, `x * alpha`, ..., `x * alpha^(k - 1)`.
spec fn covers(a: u8, x: u8, k: u32) -> bool
    decreases k,
{
    if k == 0 {
        false
    } else {
        a == x || covers(a, xtime(x), (k - 1) as u32)
    }
}

/// None of `x`, `x * alpha`, ..., `x * alpha^(k - 1)` is one.
spec fn avoids_one(x: u8, k: u32) -> bool
    decreases k,
{
    k == 0 || (x != 1u8 && avoids_one(xtime(x), (k - 1) as u32))
}

/// Multiplying by the primitive element 2 is `xtime`, which keeps nonzero elements nonzero;
/// the powers of 2 below the 255th reach every nonzero element, the 255th is one, and none
/// between the first and the 254th is.
proof fn lemma_primitive(a: u8, y: u8)
    ensures
        gf_mul(y, 2u8) == xtime(y),
        y != 0 ==> xtime(y) != 0,
        a != 0 ==> covers(a, 1u8, 255u32),
        xtimes(1u8, 255u32) == 1u8,
        avoids_one(2u8, 254u32),
{
    assert({
        &&& gf_mul(y, 2u8) == xtime(y)
        &&& y != 0 ==> xtime(y) != 0
        &&& a != 0 ==> covers(a, 1u8, 255u32)
        &&& xtimes(1u8, 255u32) == 1u8
        &&& avoids_one(2u8, 254u32)
    }) by (bit_vector);
}

proof fn lemma_xtimes_step(x: u8, k: u32)
    requires
        k < 255,
    ensures
        xtimes(x, (k + 1) as u32) == xtime(xtimes(x, k)),
    decreases k,
{
    let k1 = (k + 1) as u32;
    assert(xtimes(x, k1) == xtimes(xtime(x), k));
    if k > 0 {
        let j = (k - 1) as u32;
        lemma_xtimes_step(xtime(x), j);
        assert((j + 1) as u32 == k);
        assert(xtimes(x, k) == xtimes(xtime(x), j));
    } else {
        assert(xtimes(xtime(x), 0u32) == xtime(x));
        assert(xtimes(x, 0u32) == x);
    }
}

/// Iterating `xtime` from one gives the powers of 2.
proof fn lemma_xtimes(k: u32)
    requires
        k <= 255,
    ensures
        xtimes(1u8, k) == gf_pow(2u8, k as nat),
    decreases k,
{
    if k > 0 {
        let j = (k - 1) as u32;
        lemma_xtimes(j);
        lemma_xtimes_step(1u8, j);
        lemma_primitive(0u8, gf_pow(2u8, j as nat));
    }
}

proof fn lemma_covers(a: u8, x: u8, k: u32)
    requires
        covers(a, x, k),
    ensures
        exists|j: u32| j < k && #[trigger] xtimes(x, j) == a,
    decreases k,
{
    if a != x {
        lemma_covers(a, xtime(x), (k - 1) as u32);
        let j = choose|j: u32| j < (k - 1) as u32 && #[trigger] xtimes(xtime(x), j) == a;
        assert(xtimes(x, (j + 1) as u32) == a);
    } else {
        assert(xtimes(x, 0u32) == a);
    }
}

/// Every nonzero element is a power of the primitive element.
pub proof fn lemma_generates(a: u8)
    requires
        a != 0,
    ensures
        exists|k: nat| k < 255 && #[trigger] alpha_pow(k) == a,
{
    lemma_primitive(a, 0u8);
    lemma_covers(a, 1u8, 255u32);
    let j = choose|j: u32| j < 255u32 && #[trigger] xtimes(1u8, j) == a;
    lemma_xtimes(j);
    assert(alpha_pow(j as nat) == a);
}

/// No power of the primitive element is zero.
proof fn lemma_pow_nonzero(k: nat)
    ensures
        gf_pow(2u8, k) != 0,
    decreases k,
{
    if k > 0 {
        lemma_pow_nonzero((k - 1) as nat);
        lemma_primitive(0u8, gf_pow(2u8, (k - 1) as nat));
    }
}

/// Powers add up under multiplication.
pub proof fn lemma_pow_add(x: u8, m: nat, n: nat)
    ensures
        gf_pow(x, m + n) == gf_mul(gf_pow(x, m), gf_pow(x, n)),
    decreases n,
{
    if n == 0 {
        lemma_mul_identity(gf_pow(x, m));
    } else {
        lemma_pow_add(x, m, (n - 1) as nat);
        assert(gf_pow(x, m + n) == gf_mul(gf_pow(x, (m + n - 1) as nat), x));
        lemma_mul_associates(gf_pow(x, m), gf_pow(x, (n - 1) as nat), x);
    }
}

/// The 255th power of the primitive element is one.
proof fn lemma_order()
    ensures
        gf_pow(2u8, 255) == 1u8,
{
    lemma_primitive(0u8, 0u8);
    lemma_xtimes(255u32);
}

/// Exponents add modulo 255.
proof fn lemma_mod_add(i: nat, j: nat)
    ensures
        (i + j) % 255 == (i % 255 + j % 255) % 255,
        i % 255 + j % 255 < 510,
        i % 255 + j % 255 >= 255 ==> (i % 255 + j % 255) % 255 == i % 255 + j % 255 - 255,
        i % 255 + j % 255 < 255 ==> (i % 255 + j % 255) % 255 == i % 255 + j % 255,
{
    assert((i + j) % 255 == (i % 255 + j % 255) % 255) by (nonlinear_arith);
}

/// Multiplying powers of the primitive element adds their exponents, modulo 255.
pub proof fn lemma_alpha_mul(i: nat, j: nat)
    ensures
        gf_mul(alpha_pow(i), alpha_pow(j)) == alpha_pow(i + j),
{
    let i0 = i % 255;
    let j0 = j % 255;
    lemma_pow_add(2u8, i0, j0);
    lemma_mod_add(i, j);
    if i0 + j0 >= 255 {
        let r = (i0 + j0 - 255) as nat;
        lemma_pow_add(2u8, r, 255);
        lemma_order();
        lemma_mul_identity(gf_pow(2u8, r));
        assert(r + 255 == i0 + j0);
    }
}

proof fn lemma_avoids_one(x: u8, k: u32, j: u32)
    requires
        avoids_one(x, k),
        j < k,
    ensures
        xtimes(x, j) != 1u8,
    decreases j,
{
    if j > 0 {
        lemma_avoids_one(xtime(x), (k - 1) as u32, (j - 1) as u32);
    }
}

/// The primitive element has order 255: no power of it strictly between the 0th and the
/// 255th is one.
pub proof fn lemma_alpha_not_one(k: nat)
    requires
        0 < k < 255,
    ensures
        alpha_pow(k) != 1u8,
{
    lemma_primitive(0u8, 0u8);
    let j = (k - 1) as u32;
    lemma_avoids_one(2u8, 254u32, j);
    lemma_xtimes(k as u32);
    assert(xtimes(1u8, k as u32) == xtimes(2u8, j)) by {
        lemma_primitive(0u8, 1u8);
        lemma_mul_identity(2u8);
        assert((j + 1) as u32 == k as u32);
    }
}

/// Dividing by one changes nothing.
pub proof fn lemma_div_one(a: u8)
    ensures
        gf_div(a, 1u8) == a,
{
    lemma_div_mul(a, 1u8);
    lemma_mul_identity(gf_div(a, 1u8));
}

/// Division undoes multiplication from the other side: `(a * b) / b == a` for nonzero `b`.
pub proof fn lemma_div_cancel(a: u8, b: u8)
    requires
        b != 0,
    ensures
        gf_div(gf_mul(a, b), b) == a,
{
    lemma_inverse(b);
    lemma_mul_associates(a, b, gf_inv(b));
    lemma_mul_identity(a);
}

/// Division distributes over addition.
pub proof fn lemma_div_xor(a: u8, c: u8, b: u8)
    ensures
        gf_div(a ^ c, b) == gf_div(a, b) ^ gf_div(c, b),
{
    lemma_mul_distributes_left(a, c, gf_inv(b));
}

/// A product of two nonzero elements is nonzero.
pub proof fn lemma_no_zero_divisor(a: u8, b: u8)
    requires
        gf_mul(a, b) == 0u8,
    ensures
        a == 0u8 || b == 0u8,
{
    if a != 0 {
        lemma_inverse(a);
        lemma_mul_associates(gf_inv(a), a, b);
        lemma_mul_identity(b);
        lemma_mul_identity(gf_inv(a));
    }
}

/// A power of a power of the primitive element multiplies the exponents.
pub proof fn lemma_alpha_pow_pow(r: nat, p: nat)
    ensures
        gf_pow(alpha_pow(r), p) == alpha_pow(r * p),
    decreases p,
{
    if p == 0 {
        assert(alpha_pow(0) == 1u8);
    } else {
        lemma_alpha_pow_pow(r, (p - 1) as nat);
        lemma_alpha_mul(r * (p - 1) as nat, r);
        assert(r * (p - 1) as nat + r == r * p) by (nonlinear_arith)
            requires
                p >= 1,
        ;
    }
}

/// The value of the logarithm table's empty entries.
pub const A0: u8 = 255;

/// `t` is the exponential table: `t[i]` is `alpha^(i mod 255)` for `i < 510`, so that a sum
/// of two logarithms indexes it directly.
pub open spec fn exp_table_ok(t: Seq<u8>) -> bool {
    &&& t.len() == 510
    &&& forall|i: int| 0 <= i < 510 ==> #[trigger] t[i] == alpha_pow(i as nat)
}

/// `t` is a logarithm table: for each nonzero `a`, an exponent below 255 of the power of the
/// primitive element that is `a`; 255 for zero.
pub open spec fn log_table_ok(t: Seq<u8>) -> bool {
    &&& t.len() == 256
    &&& t[0] == A0
    &&& forall|a: int| 1 <= a < 256 ==> #[trigger] t[a] < 255 && alpha_pow(t[a] as nat) == a as u8
}

proof fn lemma_exp_step(v: u16)
    requires
        v < 256,
    ensures
        ({
            let s = v << 1u16;
            let w = if s & 0x100u16 != 0 {
                s ^ 0x11du16
            } else {
                s
            };
            w < 256 && w as u8 == xtime(v as u8)
        }),
{
    assert({
        let s = v << 1u16;
        let w = if s & 0x100u16 != 0 {
            s ^ 0x11du16
        } else {
            s
        };
        w < 256 && w as u8 == xtime(v as u8)
    }) by (bit_vector)
        requires
            v < 256,
    ;
}

/// The exponential table of the field.
fn exp_table() -> (t: Vec<u8>)
    ensures
        exp_table_ok(t@),
{
    let mut table: Vec<u8> = Vec::new();
    let mut value: u16 = 1;
    let mut i: usize = 0;
    while i < 255
        invariant
            i <= 255,
            table@.len() == i,
            value < 256,
            value as u8 == gf_pow(2u8, i as nat),
            forall|k: int| 0 <= k < i ==> #[trigger] table@[k] == alpha_pow(k as nat),
        decreases 255 - i,
    {
        let ghost prev = table@;
        table.push(value as u8);
        proof {
            lemma_exp_step(value);
            lemma_primitive(0u8, value as u8);
            assert(alpha_pow(i as nat) == gf_pow(2u8, i as nat));
            assert forall|k: int| 0 <= k <= i implies #[trigger] table@[k] == alpha_pow(k as nat) by {
                if k < i {
                    assert(table@[k] == prev[k]);
                }
            }
            assert(gf_pow(2u8, (i + 1) as nat) == gf_mul(gf_pow(2u8, i as nat), 2u8));
        }
        let shifted = value << 1;
        value = if shifted & 0x100 != 0 {
            shifted ^ 0x11d
        } else {
            shifted
        };
        i += 1;
    }
    while i < 510
        invariant
            255 <= i <= 510,
            table@.len() == i,
            forall|k: int| 0 <= k < i ==> #[trigger] table@[k] == alpha_pow(k as nat),
        decreases 510 - i,
    {
        let v = table[i - 255];
        proof {
            assert(i as nat % 255 == (i - 255) as nat % 255);
        }
        table.push(v);
        i += 1;
    }
    table
}

/// The logarithm table of the field, read off its exponential table.
fn log_table(exp: &Vec<u8>) -> (t: Vec<u8>)
    requires
        exp_table_ok(exp@),
    ensures
        log_table_ok(t@),
{
    let mut table: Vec<u8> = Vec::new();
    let mut v: usize = 0;
    while v < 256
        invariant
            v <= 256,
            table@.len() == v,
            forall|k: int| 0 <= k < v ==> #[trigger] table@[k] == A0,
        decreases 256 - v,
    {
        table.push(A0);
        v += 1;
    }
    let mut i: usize = 0;
    while i < 255
        invariant
            i <= 255,
            exp_table_ok(exp@),
            table@.len() == 256,
            forall|v: int|
                0 <= v < 256 && #[trigger] table@[v] != A0 ==> table@[v] < i && exp@[table@[v] as int]
                    == v,
            forall|k: int| 0 <= k < i ==> table@[exp@[k] as int] != A0,
        decreases 255 - i,
    {
        let e = exp[i] as usize;
        table.set(e, i as u8);
        i += 1;
    }
    proof {
        assert forall|a: int| 1 <= a < 256 implies #[trigger] table@[a] < 255 && alpha_pow(
            table@[a] as nat,
        ) == a as u8 by {
            lemma_generates(a as u8);
            let k = choose|k: nat| k < 255 && #[trigger] alpha_pow(k) == a as u8;
            assert(exp@[k as int] == a as u8);
        }
        if table@[0] != A0 {
            let j = table@[0] as nat;
            lemma_pow_nonzero(j % 255);
            assert(exp@[j as int] == 0);
        }
    }
    table
}

/// The field GF(2^8), with the exponential and logarithm tables of its primitive element 2
/// for multiplication and division.
pub struct Field {
    exp: Vec<u8>,
    log: Vec<u8>,
}

impl Field {
    #[verifier::type_invariant]
    spec fn inv(self) -> bool {
        exp_table_ok(self.exp@) && log_table_ok(self.log@)
    }

    /// The exponential table.
    pub closed spec fn exp_view(&self) -> Seq<u8> {
        self.exp@
    }

    /// The logarithm table.
    pub closed spec fn log_view(&self) -> Seq<u8> {
        self.log@
    }

    /// Build the tables.
    pub fn new() -> (f: Field)
        ensures
            exp_table_ok(f.exp_view()),
            log_table_ok(f.log_view()),
    {
        let exp = exp_table();
        let log = log_table(&exp);
        Field { exp, log }
    }

    /// Product of two field elements.
    pub fn mul(&self, a: u8, b: u8) -> (r: u8)
        ensures
            r == gf_mul(a, b),
    {
        proof {
            use_type_invariant(self);
            lemma_mul_identity(a);
            lemma_mul_identity(b);
        }
        if a == 0 || b == 0 {
            0
        } else {
            let la = self.log[a as usize];
            let lb = self.log[b as usize];
            proof {
                lemma_alpha_mul(la as nat, lb as nat);
            }
            self.exp[la as usize + lb as usize]
        }
    }

    /// Quotient of two field elements; the divisor must be nonzero.
    pub fn div(&self, a: u8, b: u8) -> (r: u8)
        requires
            b != 0,
        ensures
            r == gf_div(a, b),
    {
        proof {
            use_type_invariant(self);
        }
        if a == 0 {
            proof {
                lemma_mul_identity(gf_inv(b));
            }
            0
        } else {
            let la = self.log[a as usize] as usize;
            let lb = self.log[b as usize] as usize;
            let n = (la + 255 - lb) % 255;
            proof {
                let q = alpha_pow(n as nat);
                lemma_alpha_mul(n as nat, lb as nat);
                assert((n + lb) % 255 == la % 255) by (nonlinear_arith)
                    requires
                        n == (la + 255 - lb) % 255,
                        la < 255,
                        lb < 255,
                ;
                assert(gf_mul(q, b) == a);
                lemma_inverse(b);
                lemma_mul_associates(q, b, gf_inv(b));
                lemma_mul_identity(q);
            }
            self.exp[n]
        }
    }

    /// The primitive element raised to `power`.
    pub fn alpha(&self, power: usize) -> (r: u8)
        ensures
            r == alpha_pow(power as nat),
    {
        proof {
            use_type_invariant(self);
        }
        self.exp[power % 255]
    }
}

} // verus!
