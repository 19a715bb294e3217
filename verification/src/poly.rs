//! Polynomials over GF(2^8), stored highest degree first, and their evaluation.
use vstd::prelude::*;
use crate::gf::{gf_mul, gf_pow, lemma_mul_associates, lemma_mul_commutes, lemma_mul_distributes, lemma_mul_distributes_left, lemma_mul_identity};

verus! {

/// Value at `x` of the polynomial whose coefficients, highest degree first, are `s`.
pub open spec fn horner(s: Seq<u8>, x: u8) -> u8
    decreases s.len(),
{
    if s.len() == 0 {
        0u8
    } else {
        gf_mul(horner(s.drop_last(), x), x) ^ s.last()
    }
}

/// Coefficient-wise sum of two polynomials of the same length.
pub open spec fn seq_xor(u: Seq<u8>, v: Seq<u8>) -> Seq<u8> {
    Seq::new(u.len(), |i: int| u[i] ^ v[i])
}

/// A polynomial multiplied by the constant `k`.
pub open spec fn seq_scale(u: Seq<u8>, k: u8) -> Seq<u8> {
    Seq::new(u.len(), |i: int| gf_mul(k, u[i]))
}

/// Identities of exclusive or used in the algebra below.
pub proof fn lemma_xor(a: u8, b: u8, c: u8)
    ensures
        a ^ 0u8 == a,
        0u8 ^ a == a,
        a ^ a == 0u8,
        a ^ b == b ^ a,
        (a ^ b) ^ c == a ^ (b ^ c),
        (a ^ b == 0u8) == (a == b),
{
    assert(a ^ 0u8 == a && 0u8 ^ a == a && a ^ a == 0u8 && a ^ b == b ^ a && (a ^ b) ^ c == a ^ (b
        ^ c) && ((a ^ b == 0u8) == (a == b))) by (bit_vector);
}

/// Regrouping of four terms under exclusive or.
pub proof fn lemma_xor4(a: u8, b: u8, c: u8, d: u8)
    ensures
        (a ^ b) ^ (c ^ d) == (a ^ c) ^ (b ^ d),
{
    assert((a ^ b) ^ (c ^ d) == (a ^ c) ^ (b ^ d)) by (bit_vector);
}

/// A constant polynomial evaluates to its coefficient.
pub proof fn lemma_horner_single(v: u8, x: u8)
    ensures
        horner(seq![v], x) == v,
{
    let z = seq![v];
    assert(z.drop_last() =~= Seq::<u8>::empty());
    assert(horner(Seq::<u8>::empty(), x) == 0u8);
    assert(z.len() == 1 && z.last() == v);
    assert(horner(z, x) == gf_mul(horner(z.drop_last(), x), x) ^ v);
    lemma_mul_identity(x);
    lemma_xor(v, 0u8, 0u8);
}

pub proof fn lemma_horner_zeros(s: Seq<u8>, x: u8)
    requires
        forall|i: int| 0 <= i < s.len() ==> s[i] == 0u8,
    ensures
        horner(s, x) == 0u8,
    decreases s.len(),
{
    if s.len() > 0 {
        lemma_horner_zeros(s.drop_last(), x);
        lemma_mul_identity(x);
        lemma_xor(0u8, 0u8, 0u8);
    }
}

/// Evaluating a concatenation: `(s ++ t)(x) == s(x) * x^|t| + t(x)`.
pub proof fn lemma_horner_concat(s: Seq<u8>, t: Seq<u8>, x: u8)
    ensures
        horner(s + t, x) == gf_mul(horner(s, x), gf_pow(x, t.len())) ^ horner(t, x),
    decreases t.len(),
{
    if t.len() == 0 {
        assert(s + t =~= s);
        lemma_mul_identity(horner(s, x));
        lemma_xor(horner(s, x), 0u8, 0u8);
    } else {
        let t1 = t.drop_last();
        lemma_horner_concat(s, t1, x);
        assert((s + t).drop_last() =~= s + t1);
        assert((s + t).last() == t.last());
        let hs = horner(s, x);
        let p1 = gf_pow(x, t1.len());
        let h1 = horner(t1, x);
        // (hs * p1 ^ h1) * x ^ last == hs * (p1 * x) ^ (h1 * x ^ last)
        lemma_mul_distributes_left(gf_mul(hs, p1), h1, x);
        lemma_mul_associates(hs, p1, x);
        lemma_xor(gf_mul(gf_mul(hs, p1), x), gf_mul(h1, x), t.last());
    }
}

/// Evaluation is additive over coefficient-wise sums.
pub proof fn lemma_horner_xor(u: Seq<u8>, v: Seq<u8>, x: u8)
    requires
        u.len() == v.len(),
    ensures
        horner(seq_xor(u, v), x) == horner(u, x) ^ horner(v, x),
    decreases u.len(),
{
    if u.len() == 0 {
        lemma_xor(0u8, 0u8, 0u8);
    } else {
        let w = seq_xor(u, v);
        assert(w.drop_last() =~= seq_xor(u.drop_last(), v.drop_last()));
        assert(w.last() == u.last() ^ v.last());
        lemma_horner_xor(u.drop_last(), v.drop_last(), x);
        let hu = horner(u.drop_last(), x);
        let hv = horner(v.drop_last(), x);
        lemma_mul_distributes_left(hu, hv, x);
        lemma_xor4(gf_mul(hu, x), gf_mul(hv, x), u.last(), v.last());
    }
}

/// Evaluation commutes with multiplication by a constant.
pub proof fn lemma_horner_scale(u: Seq<u8>, k: u8, x: u8)
    ensures
        horner(seq_scale(u, k), x) == gf_mul(k, horner(u, x)),
    decreases u.len(),
{
    if u.len() == 0 {
        lemma_mul_identity(k);
    } else {
        let w = seq_scale(u, k);
        assert(w.drop_last() =~= seq_scale(u.drop_last(), k));
        lemma_horner_scale(u.drop_last(), k, x);
        let hu = horner(u.drop_last(), x);
        lemma_mul_associates(k, hu, x);
        lemma_mul_distributes(k, gf_mul(hu, x), u.last());
    }
}

/// Multiplying by the linear factor `(x + a)`: the coefficients of the product are
/// `c ++ [0]` plus `a` times `[0] ++ c`.
pub proof fn lemma_horner_linear_factor(c: Seq<u8>, a: u8, x: u8)
    ensures
        horner(seq_xor(c.push(0u8), seq_scale(seq![0u8] + c, a)), x) == gf_mul(
            horner(c, x),
            x ^ a,
        ),
{
    let hc = horner(c, x);
    lemma_horner_xor(c.push(0u8), seq_scale(seq![0u8] + c, a), x);
    assert(c.push(0u8).drop_last() =~= c);
    lemma_xor(gf_mul(hc, x), 0u8, 0u8);
    lemma_horner_scale(seq![0u8] + c, a, x);
    lemma_horner_concat(seq![0u8], c, x);
    let z = seq![0u8];
    assert(z.drop_last() =~= Seq::<u8>::empty());
    lemma_mul_identity(x);
    lemma_xor(0u8, 0u8, 0u8);
    assert(horner(Seq::<u8>::empty(), x) == 0u8);
    assert(z.last() == 0u8);
    assert(horner(z, x) == 0u8);
    lemma_mul_identity(gf_pow(x, c.len()));
    lemma_xor(hc, 0u8, 0u8);
    // hc * x ^ a * hc == hc * (x ^ a)
    lemma_mul_distributes(hc, x, a);
    lemma_mul_commutes(a, hc);
}

} // verus!
