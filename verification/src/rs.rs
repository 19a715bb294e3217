//! Systematic Reed-Solomon coding over GF(2^8) with the generator roots `alpha^0 .. alpha^(nsym-1)`.
use vstd::prelude::*;
use crate::gf::{
    alpha_pow, gf_div, gf_mul, gf_pow, lemma_alpha_mul, lemma_alpha_not_one, lemma_alpha_pow_pow,
    lemma_div_cancel, lemma_pow_add,
    lemma_div_mul, lemma_div_one, lemma_div_xor, lemma_mul_associates, lemma_mul_commutes,
    lemma_mul_distributes, lemma_mul_distributes_left, lemma_mul_identity, lemma_no_zero_divisor,
    Field,
};
use crate::poly::{
    horner, lemma_horner_concat, lemma_horner_linear_factor, lemma_horner_scale, lemma_horner_single,
    lemma_horner_xor, lemma_horner_zeros, lemma_xor, lemma_xor4, seq_scale, seq_xor,
};

verus! {

/// Coefficients (highest degree first, padded to 17 entries) of the product of
/// `(x + alpha^r)` over `r < k`.
pub open spec fn gen_poly(k: nat) -> Seq<u8>
    decreases k,
{
    if k == 0 {
        Seq::new(17, |j: int| if j == 0 { 1u8 } else { 0u8 })
    } else {
        let prev = gen_poly((k - 1) as nat);
        let a = alpha_pow((k - 1) as nat);
        Seq::new(17, |j: int| if 1 <= j <= k { prev[j] ^ gf_mul(prev[j - 1], a) } else { prev[j] })
    }
}

/// Every root `alpha^r`, `r < nsym`, of the generator is a root of `code`.
pub open spec fn is_codeword(code: Seq<u8>, nsym: nat) -> bool {
    forall|r: nat| r < nsym ==> #[trigger] horner(code, alpha_pow(r)) == 0u8
}

/// One step of the division register: shift in `byte` and subtract the scaled generator.
pub open spec fn lfsr_step(p: Seq<u8>, byte: u8, g: Seq<u8>) -> Seq<u8> {
    seq_xor(p.drop_first().push(0u8), seq_scale(g.subrange(1, p.len() + 1 as int), byte ^ p[0]))
}

/// Contents of an `n`-symbol division register after shifting in `data`.
pub open spec fn lfsr(data: Seq<u8>, g: Seq<u8>, n: nat) -> Seq<u8>
    decreases data.len(),
{
    if data.len() == 0 {
        Seq::new(n, |i: int| 0u8)
    } else {
        lfsr_step(lfsr(data.drop_last(), g, n), data.last(), g)
    }
}

/// The `nsym` parity symbols of `data`: the remainder of `data * x^nsym` divided by the generator.
pub open spec fn rs_parity(data: Seq<u8>, nsym: nat) -> Seq<u8> {
    lfsr(data, gen_poly(nsym), nsym)
}

proof fn lemma_gen_poly(k: nat)
    requires
        k <= 16,
    ensures
        gen_poly(k).len() == 17,
        gen_poly(k)[0] == 1u8,
        forall|j: int| k < j < 17 ==> gen_poly(k)[j] == 0u8,
        forall|r: nat| r < k ==> #[trigger] horner(gen_poly(k).take(k + 1 as int), alpha_pow(r)) == 0u8,
    decreases k,
{
    if k > 0 {
        let k1 = (k - 1) as nat;
        lemma_gen_poly(k1);
        let prev = gen_poly(k1);
        let a = alpha_pow(k1);
        let c = prev.take(k1 + 1 as int);
        let d = gen_poly(k).take(k + 1 as int);
        let rhs = seq_xor(c.push(0u8), seq_scale(seq![0u8] + c, a));
        assert forall|j: int| 0 <= j < k + 1 implies d[j] == rhs[j] by {
            lemma_mul_commutes(prev[j - 1], a);
            lemma_mul_identity(a);
            lemma_xor(prev[j], 0u8, 0u8);
            if j == k {
                lemma_xor(0u8, gf_mul(a, prev[j - 1]), 0u8);
            }
        }
        assert(d =~= rhs);
        assert forall|r: nat| r < k implies #[trigger] horner(gen_poly(k).take(k + 1 as int), alpha_pow(r))
            == 0u8 by {
            let x = alpha_pow(r);
            lemma_horner_linear_factor(c, a, x);
            if r < k1 {
                assert(horner(c, x) == 0u8);
                lemma_mul_identity(x ^ a);
            } else {
                lemma_xor(x, x, 0u8);
                lemma_mul_identity(horner(c, x));
            }
        }
        assert forall|j: int| k < j < 17 implies gen_poly(k)[j] == 0u8 by {}
    }
}

proof fn lemma_xor_solve(a: u8, b: u8, c: u8)
    ensures
        a ^ (b ^ c) == 0u8 ==> c == a ^ b,
        (a ^ b) ^ ((a ^ c) ^ (b ^ c)) == 0u8,
{
    assert(a ^ (b ^ c) == 0u8 ==> c == a ^ b) by (bit_vector);
    assert((a ^ b) ^ ((a ^ c) ^ (b ^ c)) == 0u8) by (bit_vector);
}

/// One register step keeps `data ++ register` divisible by the generator at the root `x`.
proof fn lemma_lfsr_step_root(d: Seq<u8>, p: Seq<u8>, byte: u8, g: Seq<u8>, x: u8)
    requires
        p.len() >= 1,
        g.len() >= p.len() + 1,
        g[0] == 1u8,
        horner(g.take(p.len() + 1 as int), x) == 0u8,
        horner(d + p, x) == 0u8,
    ensures
        horner(d.push(byte) + lfsr_step(p, byte, g), x) == 0u8,
{
    let n = p.len();
    let pd = p.drop_first();
    let gd = g.subrange(1, n + 1 as int);
    let fb = byte ^ p[0];
    let xn = gf_pow(x, n);
    let xn1 = gf_pow(x, (n - 1) as nat);
    let hd = horner(d, x);
    let hpd = horner(pd, x);
    let hgd = horner(gd, x);
    let p0 = p[0];
    // the register as a polynomial
    lemma_horner_concat(d, p, x);
    let z0 = seq![p0];
    assert(p =~= z0 + pd);
    lemma_horner_concat(z0, pd, x);
    lemma_horner_single(p0, x);
    lemma_xor_solve(gf_mul(hd, xn), gf_mul(p0, xn1), hpd);
    assert(hpd == gf_mul(hd, xn) ^ gf_mul(p0, xn1));
    // the generator
    let z1 = seq![1u8];
    assert(g.take(n + 1 as int) =~= z1 + gd);
    lemma_horner_concat(z1, gd, x);
    lemma_horner_single(1u8, x);
    lemma_mul_identity(xn);
    lemma_xor(xn, hgd, 0u8);
    assert(hgd == xn);
    // the new register
    let q = lfsr_step(p, byte, g);
    lemma_horner_xor(pd.push(0u8), seq_scale(gd, fb), x);
    lemma_horner_scale(gd, fb, x);
    assert(pd.push(0u8).drop_last() =~= pd);
    lemma_xor(gf_mul(hpd, x), 0u8, 0u8);
    let hq = horner(q, x);
    assert(hq == gf_mul(hpd, x) ^ gf_mul(fb, xn));
    // the new message
    lemma_horner_concat(d.push(byte), q, x);
    assert(d.push(byte).drop_last() =~= d);
    let hdb = horner(d.push(byte), x);
    assert(hdb == gf_mul(hd, x) ^ byte);
    // expand the products
    lemma_mul_distributes_left(gf_mul(hd, x), byte, xn);
    lemma_mul_distributes_left(gf_mul(hd, xn), gf_mul(p0, xn1), x);
    lemma_mul_associates(hd, x, xn);
    lemma_mul_associates(hd, xn, x);
    lemma_mul_commutes(x, xn);
    lemma_mul_associates(p0, xn1, x);
    assert(gf_mul(xn1, x) == xn);
    lemma_mul_distributes_left(byte, p0, xn);
    let t1 = gf_mul(hd, gf_mul(x, xn));
    let tb = gf_mul(byte, xn);
    let tp = gf_mul(p0, xn);
    lemma_xor_solve(t1, tb, tp);
}

/// The register keeps `n` symbols.
pub proof fn lemma_lfsr_len(data: Seq<u8>, g: Seq<u8>, n: nat)
    requires
        n >= 1,
    ensures
        lfsr(data, g, n).len() == n,
    decreases data.len(),
{
    if data.len() > 0 {
        lemma_lfsr_len(data.drop_last(), g, n);
    }
}

/// Systematic encoding makes a codeword: data followed by its parity has every generator
/// root as a root.
pub proof fn lemma_parity_codeword(data: Seq<u8>, nsym: nat)
    requires
        1 <= nsym <= 16,
    ensures
        rs_parity(data, nsym).len() == nsym,
        is_codeword(data + rs_parity(data, nsym), nsym),
    decreases data.len(),
{
    let g = gen_poly(nsym);
    lemma_gen_poly(nsym);
    lemma_lfsr_len(data, g, nsym);
    if data.len() == 0 {
        let p = rs_parity(data, nsym);
        assert(data + p =~= p);
        assert forall|r: nat| r < nsym implies #[trigger] horner(data + p, alpha_pow(r)) == 0u8 by {
            lemma_horner_zeros(p, alpha_pow(r));
        }
    } else {
        let d = data.drop_last();
        lemma_parity_codeword(d, nsym);
        lemma_lfsr_len(d, g, nsym);
        assert(data =~= d.push(data.last()));
        assert forall|r: nat| r < nsym implies #[trigger] horner(
            data + rs_parity(data, nsym),
            alpha_pow(r),
        ) == 0u8 by {
            lemma_lfsr_step_root(d, rs_parity(d, nsym), data.last(), g, alpha_pow(r));
        }
    }
}

proof fn lemma_lfsr_step_linear(p: Seq<u8>, q: Seq<u8>, x: u8, y: u8, g: Seq<u8>)
    requires
        p.len() == q.len(),
        p.len() >= 1,
        g.len() >= p.len() + 1,
    ensures
        lfsr_step(seq_xor(p, q), x ^ y, g) == seq_xor(lfsr_step(p, x, g), lfsr_step(q, y, g)),
{
    let pq = seq_xor(p, q);
    let kp = x ^ p[0];
    let kq = y ^ q[0];
    lemma_xor4(x, y, p[0], q[0]);
    let lhs = lfsr_step(pq, x ^ y, g);
    let rhs = seq_xor(lfsr_step(p, x, g), lfsr_step(q, y, g));
    assert forall|i: int| 0 <= i < p.len() implies lhs[i] == rhs[i] by {
        let gi = g[i + 1];
        lemma_mul_distributes(kp ^ kq, gi, 0u8);
        lemma_mul_distributes_left(kp, kq, gi);
        let a = if i + 1 < p.len() { p[i + 1] } else { 0u8 };
        let b = if i + 1 < p.len() { q[i + 1] } else { 0u8 };
        let c = gf_mul(kp, gi);
        let d = gf_mul(kq, gi);
        lemma_xor4(a, b, c, d);
        lemma_xor(0u8, 0u8, 0u8);
    }
    assert(lhs =~= rhs);
}

/// Parity is linear: the parity of the symbol-wise sum of two equally long messages is the
/// sum of their parities.
pub proof fn lemma_parity_linear(a: Seq<u8>, b: Seq<u8>, nsym: nat)
    requires
        a.len() == b.len(),
        1 <= nsym <= 16,
    ensures
        rs_parity(seq_xor(a, b), nsym) == seq_xor(rs_parity(a, nsym), rs_parity(b, nsym)),
    decreases a.len(),
{
    let g = gen_poly(nsym);
    let ab = seq_xor(a, b);
    if a.len() == 0 {
        assert(ab.len() == 0);
        assert forall|i: int| 0 <= i < nsym implies #[trigger] seq_xor(rs_parity(a, nsym), rs_parity(b, nsym))[i] == 0u8 by {
            lemma_xor(0u8, 0u8, 0u8);
        }
        assert(rs_parity(ab, nsym) =~= seq_xor(rs_parity(a, nsym), rs_parity(b, nsym)));
    } else {
        assert(ab.drop_last() =~= seq_xor(a.drop_last(), b.drop_last()));
        lemma_parity_linear(a.drop_last(), b.drop_last(), nsym);
        lemma_lfsr_len(a.drop_last(), g, nsym);
        lemma_lfsr_len(b.drop_last(), g, nsym);
        lemma_lfsr_step_linear(
            rs_parity(a.drop_last(), nsym),
            rs_parity(b.drop_last(), nsym),
            a.last(),
            b.last(),
            g,
        );
    }
}

fn generator(field: &Field, nsym: usize) -> (poly: [u8; 17])
    requires
        nsym <= 16,
    ensures
        poly@ == gen_poly(nsym as nat),
{
    let mut poly = [0u8; 17];
    poly[0] = 1;
    assert(poly@ =~= gen_poly(0));
    let mut root: usize = 0;
    while root < nsym
        invariant
            root <= nsym <= 16,
            poly@ == gen_poly(root as nat),
        decreases nsym - root,
    {
        let len = root + 1;
        let a = field.alpha(root);
        let ghost prev = poly@;
        let mut i = len;
        while i > 0
            invariant
                i <= len == root + 1 <= 16,
                prev == gen_poly(root as nat),
                a == alpha_pow(root as nat),
                poly@.len() == 17,
                forall|j: int| 0 <= j <= i ==> poly@[j] == prev[j],
                forall|j: int| i < j <= len ==> poly@[j] == prev[j] ^ gf_mul(prev[j - 1], a),
                forall|j: int| len < j < 17 ==> poly@[j] == prev[j],
            decreases i,
        {
            i -= 1;
            let m = field.mul(poly[i], a);
            poly[i + 1] = poly[i + 1] ^ m;
        }
        root += 1;
        assert(poly@ =~= gen_poly(root as nat));
    }
    poly
}

/// Compute the `parity.len()` Reed-Solomon parity symbols of `data` into `parity`.
pub fn encode(data: &[u8], parity: &mut [u8])
    requires
        old(parity)@.len() == 2 || old(parity)@.len() == 4 || old(parity)@.len() == 6
            || old(parity)@.len() == 8 || old(parity)@.len() == 16,
        data@.len() + old(parity)@.len() <= 255,
    ensures
        final(parity)@.len() == old(parity)@.len(),
        final(parity)@ == rs_parity(data@, old(parity)@.len()),
        is_codeword(data@ + final(parity)@, old(parity)@.len()),
{
    let n = parity.len();
    let field = Field::new();
    let polynomial = generator(&field, n);
    proof {
        lemma_gen_poly(n as nat);
    }
    let ghost g = polynomial@;
    let mut k: usize = 0;
    while k < n
        invariant
            k <= n == parity@.len(),
            forall|i: int| 0 <= i < k ==> parity@[i] == 0u8,
        decreases n - k,
    {
        parity[k] = 0;
        k += 1;
    }
    proof {
        assert(data@.take(0) =~= Seq::<u8>::empty());
        assert(parity@ =~= lfsr(Seq::<u8>::empty(), g, n as nat));
        assert forall|r: nat| r < n implies #[trigger] horner(data@.take(0) + parity@, alpha_pow(r))
            == 0u8 by {
            assert(data@.take(0) + parity@ =~= parity@);
            lemma_horner_zeros(parity@, alpha_pow(r));
        }
    }
    let mut j: usize = 0;
    while j < data.len()
        invariant
            j <= data@.len(),
            n == parity@.len(),
            2 <= n <= 16,
            g == polynomial@,
            g == gen_poly(n as nat),
            g[0] == 1u8,
            forall|r: nat| r < n ==> #[trigger] horner(g.take(n + 1 as int), alpha_pow(r)) == 0u8,
            parity@ == lfsr(data@.take(j as int), g, n as nat),
            forall|r: nat| r < n ==> #[trigger] horner(data@.take(j as int) + parity@, alpha_pow(r))
                == 0u8,
        decreases data@.len() - j,
    {
        let byte = data[j];
        let ghost p = parity@;
        let feedback = byte ^ parity[0];
        let mut i: usize = 0;
        while i + 1 < n
            invariant
                i + 1 <= n == parity@.len(),
                forall|t: int| 0 <= t < i ==> parity@[t] == p[t + 1],
                forall|t: int| i <= t < n ==> parity@[t] == p[t],
            decreases n - i,
        {
            parity[i] = parity[i + 1];
            i += 1;
        }
        parity[n - 1] = 0;
        assert(parity@ =~= p.drop_first().push(0u8));
        let ghost shifted = parity@;
        if feedback != 0 {
            let mut i: usize = 0;
            while i < n
                invariant
                    i <= n == parity@.len() <= 16,
                    g == polynomial@,
                    forall|t: int| 0 <= t < i ==> parity@[t] == shifted[t] ^ gf_mul(g[t + 1], feedback),
                    forall|t: int| i <= t < n ==> parity@[t] == shifted[t],
                decreases n - i,
            {
                let m = field.mul(polynomial[i + 1], feedback);
                parity[i] = parity[i] ^ m;
                i += 1;
            }
        }
        proof {
            let q = lfsr_step(p, byte, g);
            assert forall|t: int| 0 <= t < n implies parity@[t] == q[t] by {
                lemma_mul_commutes(g[t + 1], feedback);
                lemma_mul_identity(g[t + 1]);
                lemma_xor(shifted[t], 0u8, 0u8);
            }
            assert(parity@ =~= q);
            assert(data@.take(j + 1).drop_last() =~= data@.take(j as int));
            assert(data@.take(j + 1) =~= data@.take(j as int).push(byte));
            assert forall|r: nat| r < n implies #[trigger] horner(
                data@.take(j + 1) + parity@,
                alpha_pow(r),
            ) == 0u8 by {
                lemma_lfsr_step_root(data@.take(j as int), p, byte, g, alpha_pow(r));
            }
        }
        j += 1;
    }
    assert(data@.take(data@.len() as int) =~= data@);
}

/// Number of positions at which two sequences differ.
pub open spec fn diff_count(a: Seq<u8>, b: Seq<u8>) -> nat
    decreases a.len(),
{
    if a.len() == 0 || b.len() == 0 {
        0
    } else {
        diff_count(a.drop_last(), b.drop_last()) + if a.last() != b.last() {
            1nat
        } else {
            0nat
        }
    }
}

pub proof fn lemma_diff_count_same(a: Seq<u8>)
    ensures
        diff_count(a, a) == 0,
    decreases a.len(),
{
    if a.len() > 0 {
        lemma_diff_count_same(a.drop_last());
    }
}

/// Differences of concatenations add up.
pub proof fn lemma_diff_count_concat(a1: Seq<u8>, a2: Seq<u8>, b1: Seq<u8>, b2: Seq<u8>)
    requires
        a1.len() == b1.len(),
        a2.len() == b2.len(),
    ensures
        diff_count(a1 + a2, b1 + b2) == diff_count(a1, b1) + diff_count(a2, b2),
    decreases a2.len(),
{
    if a2.len() == 0 {
        assert(a1 + a2 =~= a1);
        assert(b1 + b2 =~= b1);
    } else {
        lemma_diff_count_concat(a1, a2.drop_last(), b1, b2.drop_last());
        assert((a1 + a2).drop_last() =~= a1 + a2.drop_last());
        assert((b1 + b2).drop_last() =~= b1 + b2.drop_last());
    }
}

pub proof fn lemma_diff_count_update(a: Seq<u8>, b: Seq<u8>, i: int, v: u8)
    requires
        a.len() == b.len(),
        0 <= i < b.len(),
    ensures
        diff_count(a, b.update(i, v)) <= diff_count(a, b) + 1,
    decreases a.len(),
{
    let c = b.update(i, v);
    if i == b.len() - 1 {
        assert(c.drop_last() =~= b.drop_last());
    } else {
        assert(c.drop_last() =~= b.drop_last().update(i, v));
        lemma_diff_count_update(a.drop_last(), b.drop_last(), i, v);
    }
}

/// Sequences at distance zero are equal.
pub proof fn lemma_diff_zero(a: Seq<u8>, b: Seq<u8>)
    requires
        a.len() == b.len(),
        diff_count(a, b) == 0,
    ensures
        a == b,
    decreases a.len(),
{
    if a.len() > 0 {
        lemma_diff_zero(a.drop_last(), b.drop_last());
        assert(a =~= a.drop_last().push(a.last()));
        assert(b =~= b.drop_last().push(b.last()));
    } else {
        assert(a =~= b);
    }
}

/// Changing one symbol to a different value puts a sequence at distance one.
pub proof fn lemma_diff_count_single(a: Seq<u8>, k: int, v: u8)
    requires
        0 <= k < a.len(),
        v != a[k],
    ensures
        diff_count(a.update(k, v), a) == 1,
    decreases a.len(),
{
    let b = a.update(k, v);
    if k == a.len() - 1 {
        assert(b.drop_last() =~= a.drop_last());
        lemma_diff_count_same(a.drop_last());
    } else {
        assert(b.drop_last() =~= a.drop_last().update(k, v));
        lemma_diff_count_single(a.drop_last(), k, v);
    }
}

/// Distance is symmetric.
pub proof fn lemma_diff_symmetric(a: Seq<u8>, b: Seq<u8>)
    ensures
        diff_count(a, b) == diff_count(b, a),
    decreases a.len(),
{
    if a.len() > 0 && b.len() > 0 {
        lemma_diff_symmetric(a.drop_last(), b.drop_last());
    }
}

/// Distance obeys the triangle inequality.
proof fn lemma_diff_triangle(a: Seq<u8>, b: Seq<u8>, c: Seq<u8>)
    requires
        a.len() == b.len(),
        b.len() == c.len(),
    ensures
        diff_count(a, c) <= diff_count(a, b) + diff_count(b, c),
    decreases a.len(),
{
    if a.len() > 0 {
        lemma_diff_triangle(a.drop_last(), b.drop_last(), c.drop_last());
    }
}

/// The syndromes of `code`: its values at the first `nsym` generator roots.
fn syndromes(field: &Field, code: &[u8], nsym: usize) -> (out: [u8; 16])
    requires
        nsym <= 16,
    ensures
        forall|r: nat| r < nsym ==> out@[r as int] == #[trigger] horner(code@, alpha_pow(r)),
        forall|r: int| nsym <= r < 16 ==> out@[r] == 0u8,
{
    let mut out = [0u8; 16];
    let mut root: usize = 0;
    while root < nsym
        invariant
            root <= nsym <= 16,
            out@.len() == 16,
            forall|r: nat| r < root ==> out@[r as int] == #[trigger] horner(code@, alpha_pow(r)),
            forall|r: int| root <= r < 16 ==> out@[r] == 0u8,
        decreases nsym - root,
    {
        let a = field.alpha(root);
        let mut syndrome: u8 = 0;
        let mut k: usize = 0;
        while k < code.len()
            invariant
                k <= code@.len(),
                syndrome == horner(code@.take(k as int), a),
            decreases code@.len() - k,
        {
            assert(code@.take(k + 1).drop_last() =~= code@.take(k as int));
            syndrome = field.mul(syndrome, a) ^ code[k];
            k += 1;
        }
        assert(code@.take(code@.len() as int) =~= code@);
        out[root] = syndrome;
        root += 1;
    }
    out
}

/// Whether the first `nsym` syndromes are all zero.
fn all_zero(synd: &[u8; 16], nsym: usize) -> (r: bool)
    requires
        nsym <= 16,
    ensures
        r == (forall|i: int| 0 <= i < nsym ==> synd@[i] == 0u8),
{
    let mut i: usize = 0;
    while i < nsym
        invariant
            i <= nsym <= 16,
            forall|t: int| 0 <= t < i ==> synd@[t] == 0u8,
        decreases nsym - i,
    {
        if synd[i] != 0 {
            return false;
        }
        i += 1;
    }
    true
}

/// The discrepancy of the connection polynomial `c` (lowest degree first) of length `l` at
/// syndrome `k`: the sum of `c[i] * s[k - i]` over `i <= l`.
pub open spec fn disc(c: Seq<u8>, s: Seq<u8>, k: int, l: nat) -> u8
    decreases l,
{
    if l == 0 {
        gf_mul(c[0], s[k])
    } else {
        disc(c, s, k, (l - 1) as nat) ^ gf_mul(c[l as int], s[k - l])
    }
}

/// Coefficients that are zero add nothing to a discrepancy.
proof fn lemma_disc_zero_ext(c: Seq<u8>, s: Seq<u8>, k: int, l1: nat, l2: nat)
    requires
        l1 <= l2,
        forall|j: int| l1 < j <= l2 ==> c[j] == 0u8,
    ensures
        disc(c, s, k, l2) == disc(c, s, k, l1),
    decreases l2,
{
    if l2 > l1 {
        lemma_disc_zero_ext(c, s, k, l1, (l2 - 1) as nat);
        lemma_mul_identity(s[k - l2]);
        lemma_xor(disc(c, s, k, (l2 - 1) as nat), 0u8, 0u8);
    }
}

/// A discrepancy reads only the first `l + 1` coefficients.
proof fn lemma_disc_agree(c2: Seq<u8>, c: Seq<u8>, s: Seq<u8>, k: int, l: nat)
    requires
        forall|j: int| 0 <= j <= l ==> c2[j] == c[j],
    ensures
        disc(c2, s, k, l) == disc(c, s, k, l),
    decreases l,
{
    if l > 0 {
        lemma_disc_agree(c2, c, s, k, (l - 1) as nat);
    }
}

/// Adding `scale * x^m * b` to a connection polynomial adds `scale` times the discrepancy of
/// `b`, `m` syndromes earlier.
proof fn lemma_disc_update(c2: Seq<u8>, c: Seq<u8>, b: Seq<u8>, s: Seq<u8>, k: int, l: nat, m: nat, scale: u8)
    requires
        1 <= m <= l,
        forall|j: int|
            0 <= j <= l ==> #[trigger] c2[j] == if m <= j {
                c[j] ^ gf_mul(scale, b[j - m])
            } else {
                c[j]
            },
    ensures
        disc(c2, s, k, l) == disc(c, s, k, l) ^ gf_mul(scale, disc(b, s, k - m, (l - m) as nat)),
    decreases l,
{
    let x = s[k - l];
    let bl = b[l - m];
    let sb = gf_mul(scale, bl);
    let prev = (l - 1) as nat;
    lemma_mul_distributes_left(c[l as int], sb, x);
    lemma_mul_associates(scale, bl, x);
    if l == m {
        assert forall|j: int| 0 <= j <= prev implies c2[j] == c[j] by {
            assert(c2[j] == c[j]);
        }
        lemma_disc_agree(c2, c, s, k, prev);
        assert(disc(b, s, k - m, 0) == gf_mul(b[0], s[k - m]));
        lemma_xor(disc(c, s, k, prev), gf_mul(c[l as int], x), gf_mul(scale, gf_mul(bl, x)));
    } else {
        assert forall|j: int| 0 <= j <= prev implies #[trigger] c2[j] == if m <= j {
            c[j] ^ gf_mul(scale, b[j - m])
        } else {
            c[j]
        } by {
            assert(c2[j] == if m <= j {
                c[j] ^ gf_mul(scale, b[j - m])
            } else {
                c[j]
            });
        }
        lemma_disc_update(c2, c, b, s, k, prev, m, scale);
        let d = disc(b, s, k - m, (prev - m) as nat);
        assert((k - m) - (l - m) == k - l);
        assert(disc(b, s, k - m, (l - m) as nat) == d ^ gf_mul(bl, x));
        lemma_mul_distributes(scale, d, gf_mul(bl, x));
        lemma_xor4(disc(c, s, k, prev), gf_mul(scale, d), gf_mul(c[l as int], x), gf_mul(scale, gf_mul(bl, x)));
    }
}

/// The sum of `f(i)` over `lo <= i < hi`.
pub open spec fn xsum(f: spec_fn(int) -> u8, lo: int, hi: int) -> u8
    decreases hi - lo,
{
    if hi <= lo {
        0u8
    } else {
        xsum(f, lo, hi - 1) ^ f(hi - 1)
    }
}

proof fn lemma_xsum_ext(f: spec_fn(int) -> u8, g: spec_fn(int) -> u8, lo: int, hi: int)
    requires
        forall|i: int| lo <= i < hi ==> #[trigger] f(i) == g(i),
    ensures
        xsum(f, lo, hi) == xsum(g, lo, hi),
    decreases hi - lo,
{
    if hi > lo {
        lemma_xsum_ext(f, g, lo, hi - 1);
    }
}

proof fn lemma_xsum_zero(f: spec_fn(int) -> u8, lo: int, hi: int)
    requires
        forall|i: int| lo <= i < hi ==> #[trigger] f(i) == 0u8,
    ensures
        xsum(f, lo, hi) == 0u8,
    decreases hi - lo,
{
    if hi > lo {
        lemma_xsum_zero(f, lo, hi - 1);
        lemma_xor(0u8, 0u8, 0u8);
    }
}

proof fn lemma_xsum_xor(f: spec_fn(int) -> u8, g: spec_fn(int) -> u8, lo: int, hi: int)
    ensures
        xsum(|i: int| f(i) ^ g(i), lo, hi) == xsum(f, lo, hi) ^ xsum(g, lo, hi),
    decreases hi - lo,
{
    if hi > lo {
        lemma_xsum_xor(f, g, lo, hi - 1);
        lemma_xor4(xsum(f, lo, hi - 1), xsum(g, lo, hi - 1), f(hi - 1), g(hi - 1));
    } else {
        lemma_xor(0u8, 0u8, 0u8);
    }
}

proof fn lemma_xsum_scale(a: u8, f: spec_fn(int) -> u8, lo: int, hi: int)
    ensures
        gf_mul(a, xsum(f, lo, hi)) == xsum(|i: int| gf_mul(a, f(i)), lo, hi),
    decreases hi - lo,
{
    if hi > lo {
        lemma_xsum_scale(a, f, lo, hi - 1);
        lemma_mul_distributes(a, xsum(f, lo, hi - 1), f(hi - 1));
    } else {
        lemma_mul_identity(a);
    }
}

/// The order of summation of a double sum does not matter.
proof fn lemma_xsum_swap(f: spec_fn(int, int) -> u8, ilo: int, ihi: int, jlo: int, jhi: int)
    ensures
        xsum(|i: int| xsum(|j: int| f(i, j), jlo, jhi), ilo, ihi) == xsum(
            |j: int| xsum(|i: int| f(i, j), ilo, ihi),
            jlo,
            jhi,
        ),
    decreases ihi - ilo,
{
    if ihi > ilo {
        lemma_xsum_swap(f, ilo, ihi - 1, jlo, jhi);
        let g = |j: int| xsum(|i: int| f(i, j), ilo, ihi - 1);
        let h = |j: int| f(ihi - 1, j);
        lemma_xsum_xor(g, h, jlo, jhi);
        lemma_xsum_ext(
            |j: int| g(j) ^ h(j),
            |j: int| xsum(|i: int| f(i, j), ilo, ihi),
            jlo,
            jhi,
        );
        assert(xsum(|i: int| xsum(|j: int| f(i, j), jlo, jhi), ilo, ihi) == xsum(
            |i: int| xsum(|j: int| f(i, j), jlo, jhi),
            ilo,
            ihi - 1,
        ) ^ xsum(h, jlo, jhi));
    } else {
        lemma_xsum_zero(|j: int| xsum(|i: int| f(i, j), ilo, ihi), jlo, jhi);
    }
}

/// A discrepancy as a sum.
proof fn lemma_disc_sum(c: Seq<u8>, s: Seq<u8>, k: int, l: nat)
    ensures
        disc(c, s, k, l) == xsum(|i: int| gf_mul(c[i], s[k - i]), 0, (l + 1) as int),
    decreases l,
{
    let f = |i: int| gf_mul(c[i], s[k - i]);
    if l > 0 {
        lemma_disc_sum(c, s, k, (l - 1) as nat);
        assert(xsum(f, 0, (l + 1) as int) == xsum(f, 0, l as int) ^ f(l as int));
    } else {
        assert(xsum(f, 0, 0) == 0u8);
        assert(xsum(f, 0, 1) == xsum(f, 0, 0) ^ f(0));
        lemma_xor(f(0), 0u8, 0u8);
    }
}

/// `c` of length `l` generates the syndromes `s` from `l` up to `n`.
pub open spec fn generates(c: Seq<u8>, s: Seq<u8>, l: nat, n: int) -> bool {
    forall|k: int| l <= k < n ==> #[trigger] disc(c, s, k, l) == 0u8
}

/// The sum of row `i` of `f` over `lo <= j < hi`.
spec fn row(f: spec_fn(int, int) -> u8, i: int, lo: int, hi: int) -> u8 {
    xsum(|j: int| f(i, j), lo, hi)
}

/// The sum of column `j` of `f` over `lo <= i < hi`.
spec fn column(f: spec_fn(int, int) -> u8, j: int, lo: int, hi: int) -> u8 {
    xsum(|i: int| f(i, j), lo, hi)
}

/// Massey's lemma: if `c` of length `l` generates the syndromes up to `n` but fails at `n`,
/// every connection polynomial that generates them through `n` is longer than `n - l`.
proof fn lemma_massey(c: Seq<u8>, d: Seq<u8>, s: Seq<u8>, n: int, l: nat, l2: nat)
    requires
        d[0] == 1u8,
        l + l2 <= n,
        generates(c, s, l, n),
        generates(d, s, l2, n + 1),
    ensures
        disc(c, s, n, l) == 0u8,
{
    let hl = (l + 1) as int;
    let hl2 = (l2 + 1) as int;
    let f = |i: int, j: int| gf_mul(c[i], gf_mul(d[j], s[n - i - j]));
    lemma_disc_sum(c, s, n, l);
    // each term of the discrepancy of c at n expands through d into a row of f
    assert forall|i: int| 0 <= i < hl implies #[trigger] gf_mul(c[i], s[n - i]) == row(f, i, 1, hl2) by {
        let k = n - i;
        let g = |j: int| gf_mul(d[j], s[k - j]);
        assert(disc(d, s, k, l2) == 0u8);
        lemma_disc_sum(d, s, k, l2);
        lemma_xsum_split(g, 0, hl2);
        lemma_mul_identity(s[k]);
        lemma_xor(s[k], xsum(g, 1, hl2), 0u8);
        lemma_xsum_scale(c[i], g, 1, hl2);
        lemma_xsum_ext(|x: int| gf_mul(c[i], g(x)), |j: int| f(i, j), 1, hl2);
    }
    lemma_xsum_ext(|i: int| gf_mul(c[i], s[n - i]), |i: int| row(f, i, 1, hl2), 0, hl);
    lemma_xsum_ext(|i: int| row(f, i, 1, hl2), |i: int| xsum(|j: int| f(i, j), 1, hl2), 0, hl);
    lemma_xsum_swap(f, 0, hl, 1, hl2);
    // and each column of f is d[j] times a discrepancy of c before n, which is zero
    assert forall|j: int| 1 <= j < hl2 implies #[trigger] column(f, j, 0, hl) == 0u8 by {
        let k = n - j;
        let h = |i: int| gf_mul(c[i], s[k - i]);
        assert forall|i: int| 0 <= i < hl implies #[trigger] f(i, j) == gf_mul(d[j], h(i)) by {
            assert(n - i - j == k - i);
            lemma_mul_associates(c[i], d[j], s[k - i]);
            lemma_mul_commutes(c[i], d[j]);
            lemma_mul_associates(d[j], c[i], s[k - i]);
        }
        lemma_xsum_ext(|i: int| f(i, j), |x: int| gf_mul(d[j], h(x)), 0, hl);
        lemma_xsum_scale(d[j], h, 0, hl);
        lemma_disc_sum(c, s, k, l);
        assert(disc(c, s, k, l) == 0u8);
        lemma_mul_identity(d[j]);
    }
    lemma_xsum_zero(|j: int| column(f, j, 0, hl), 1, hl2);
    lemma_xsum_ext(|j: int| xsum(|i: int| f(i, j), 0, hl), |j: int| column(f, j, 0, hl), 1, hl2);
}

/// Splitting off the first term of a sum.
proof fn lemma_xsum_split(f: spec_fn(int) -> u8, lo: int, hi: int)
    requires
        lo < hi,
    ensures
        xsum(f, lo, hi) == f(lo) ^ xsum(f, lo + 1, hi),
    decreases hi - lo,
{
    if hi - 1 > lo {
        lemma_xsum_split(f, lo, hi - 1);
        assert(xsum(f, lo + 1, hi) == xsum(f, lo + 1, hi - 1) ^ f(hi - 1));
        lemma_xor(f(lo), xsum(f, lo + 1, hi - 1), f(hi - 1));
    } else {
        assert(xsum(f, lo, lo) == 0u8);
        assert(xsum(f, lo + 1, hi) == 0u8);
        lemma_xor(0u8, f(lo), 0u8);
        lemma_xor(f(lo), 0u8, 0u8);
    }
}

/// The sum of `y[k] * xs[k]^r` over `k < m`.
pub open spec fn power_sum(xs: Seq<u8>, y: Seq<u8>, m: int, r: nat) -> u8 {
    xsum(|k: int| gf_mul(gf_pow(xs[k], r), y[k]), 0, m)
}

/// Powers of a nonzero element are nonzero.
proof fn lemma_pow_nonzero_any(x: u8, n: nat)
    requires
        x != 0,
    ensures
        gf_pow(x, n) != 0,
    decreases n,
{
    if n > 0 {
        lemma_pow_nonzero_any(x, (n - 1) as nat);
        if gf_pow(x, n) == 0 {
            lemma_no_zero_divisor(gf_pow(x, (n - 1) as nat), x);
        }
    }
}

/// One Vandermonde elimination step, term by term: `x^n * ((x + z) * y)` is
/// `x^(n+1) * y + z * (x^n * y)`.
proof fn lemma_vandermonde_term(x: u8, z: u8, y: u8, n: nat)
    ensures
        gf_mul(gf_pow(x, n), gf_mul(x ^ z, y)) == gf_mul(gf_pow(x, n + 1), y) ^ gf_mul(
            z,
            gf_mul(gf_pow(x, n), y),
        ),
{
    let xn = gf_pow(x, n);
    lemma_mul_distributes_left(x, z, y);
    lemma_mul_distributes(xn, gf_mul(x, y), gf_mul(z, y));
    lemma_mul_associates(xn, x, y);
    assert(gf_pow(x, n + 1) == gf_mul(xn, x));
    lemma_mul_associates(xn, z, y);
    lemma_mul_commutes(xn, z);
    lemma_mul_associates(z, xn, y);
}

/// Vandermonde: `m` distinct nonzero points `xs` and weights `y` whose power sums vanish
/// at `m` consecutive exponents have all weights zero.
pub proof fn lemma_vandermonde(xs: Seq<u8>, y: Seq<u8>, m: nat, a: nat)
    requires
        m <= xs.len(),
        m <= y.len(),
        forall|p: int| 0 <= p < m ==> #[trigger] xs[p] != 0u8,
        forall|p: int, q: int| 0 <= p < q < m ==> #[trigger] xs[p] != #[trigger] xs[q],
        forall|r: nat| r < m ==> #[trigger] power_sum(xs, y, m as int, a + r) == 0u8,
    ensures
        forall|p: int| 0 <= p < m ==> #[trigger] y[p] == 0u8,
    decreases m,
{
    if m > 0 {
        let k = m - 1;
        let z = xs[k];
        let y2 = Seq::new(k as nat, |p: int| gf_mul(xs[p] ^ z, y[p]));
        // the weights eliminated against the last point
        assert forall|r: nat| r < k implies #[trigger] power_sum(xs, y2, k as int, a + r) == 0u8 by {
            let n = a + r;
            let f0 = |p: int| gf_mul(gf_pow(xs[p], n), y[p]);
            let f1 = |p: int| gf_mul(gf_pow(xs[p], n + 1), y[p]);
            let g = |p: int| gf_mul(z, f0(p));
            assert(power_sum(xs, y, m as int, n) == 0u8);
            assert(power_sum(xs, y, m as int, a + (r + 1)) == 0u8);
            assert(a + (r + 1) == n + 1);
            assert(xsum(f0, 0, m as int) == xsum(f0, 0, k as int) ^ f0(k as int));
            assert(xsum(f1, 0, m as int) == xsum(f1, 0, k as int) ^ f1(k as int));
            lemma_xsum_xor(f1, g, 0, k as int);
            lemma_xsum_scale(z, f0, 0, k as int);
            assert forall|p: int| 0 <= p < k implies #[trigger] gf_mul(gf_pow(xs[p], n), y2[p]) == f1(p) ^ g(p) by {
                lemma_vandermonde_term(xs[p], z, y[p], n);
            }
            lemma_xsum_ext(|p: int| gf_mul(gf_pow(xs[p], n), y2[p]), |p: int| f1(p) ^ g(p), 0, k as int);
            // both sums are the last point's term: zero altogether
            let t0 = gf_mul(gf_pow(z, n), y[k as int]);
            lemma_xor(xsum(f0, 0, k as int), t0, 0u8);
            lemma_xor(xsum(f1, 0, k as int), f1(k as int), 0u8);
            lemma_vandermonde_term(z, z, y[k as int], n);
            lemma_xor(z, z, 0u8);
            lemma_mul_identity(y[k as int]);
            lemma_mul_identity(gf_pow(z, n));
            lemma_xor(f1(k as int), gf_mul(z, t0), 0u8);
        }
        assert forall|p: int, q: int| 0 <= p < q < k implies #[trigger] xs[p] != #[trigger] xs[q] by {}
        lemma_vandermonde(xs, y2, k as nat, a);
        assert forall|p: int| 0 <= p < k implies #[trigger] y[p] == 0u8 by {
            assert(y2[p] == 0u8);
            lemma_xor(xs[p], z, 0u8);
            lemma_no_zero_divisor(xs[p] ^ z, y[p]);
        }
        // what is left is the last point's term
        let f = |p: int| gf_mul(gf_pow(xs[p], a), y[p]);
        assert(power_sum(xs, y, m as int, a + 0) == 0u8);
        assert(xsum(f, 0, m as int) == xsum(f, 0, k as int) ^ f(k as int));
        assert forall|p: int| 0 <= p < k implies #[trigger] f(p) == 0u8 by {
            lemma_mul_identity(gf_pow(xs[p], a));
        }
        lemma_xsum_zero(f, 0, k as int);
        lemma_xor(f(k as int), 0u8, 0u8);
        lemma_pow_nonzero_any(z, a);
        lemma_no_zero_divisor(gf_pow(z, a), y[k as int]);
    }
}

/// Where Berlekamp-Massey stands after the first `n` syndromes `s`: the connection
/// polynomial `c` of length `degree` generates them, and `b`, of length `lb`, is the
/// polynomial before the last length change, which generated the syndromes before the one,
/// `shift` places back, at which it failed by `last`.
spec fn bm_state(s: Seq<u8>, n: nat, c: Seq<u8>, b: Seq<u8>, degree: nat, shift: nat, last: u8, lb: nat) -> bool {
    &&& c.len() == 17
    &&& b.len() == 17
    &&& c[0] == 1u8
    &&& b[0] == 1u8
    &&& forall|j: int| degree < j < 17 ==> #[trigger] c[j] == 0u8
    &&& forall|j: int| lb < j < 17 ==> #[trigger] b[j] == 0u8
    &&& lb + shift + degree == n + 1
    &&& forall|k: int| degree <= k < n ==> #[trigger] disc(c, s, k, degree) == 0u8
    &&& n >= shift ==> disc(b, s, n - shift, lb) == last
    &&& forall|k: int| lb <= k < n - shift ==> #[trigger] disc(b, s, k, lb) == 0u8
}

/// One round of Berlekamp-Massey keeps its state: the corrected connection polynomial
/// generates one more syndrome.
proof fn lemma_bm_step(
    s: Seq<u8>,
    nsym: nat,
    n: nat,
    c0: Seq<u8>,
    b0: Seq<u8>,
    degree0: nat,
    shift0: nat,
    last0: u8,
    lb0: nat,
    delta: u8,
    scale: u8,
    c: Seq<u8>,
    b: Seq<u8>,
    degree: nat,
    shift: nat,
    last: u8,
) -> (lb: nat)
    requires
        nsym <= 16,
        n < nsym,
        degree0 <= n,
        1 <= shift0,
        last0 != 0,
        bm_state(s, n, c0, b0, degree0, shift0, last0, lb0),
        forall|d: Seq<u8>, l: nat|
            d[0] == 1u8 && #[trigger] generates(d, s, l, n as int) ==> l >= degree0,
        delta == disc(c0, s, n as int, degree0),
        delta == 0 ==> c == c0 && b == b0 && degree == degree0 && shift == shift0 + 1 && last
            == last0,
        delta != 0 ==> {
            &&& scale == gf_div(delta, last0)
            &&& c.len() == 17
            &&& forall|j: int|
                0 <= j < 17 ==> #[trigger] c[j] == if shift0 <= j <= nsym {
                    c0[j] ^ gf_mul(scale, b0[j - shift0])
                } else {
                    c0[j]
                }
            &&& 2 * degree0 <= n ==> degree == n + 1 - degree0 && b == c0 && last == delta && shift
                == 1
            &&& 2 * degree0 > n ==> degree == degree0 && b == b0 && last == last0 && shift == shift0
                + 1
        },
    ensures
        bm_state(s, n + 1, c, b, degree, shift, last, lb),
        forall|d: Seq<u8>, l: nat|
            d[0] == 1u8 && #[trigger] generates(d, s, l, (n + 1) as int) ==> l >= degree,
{
    assert forall|d: Seq<u8>, l: nat| d[0] == 1u8 && #[trigger] generates(d, s, l, (n + 1) as int) implies l
        >= degree by {
        assert forall|k: int| l <= k < n implies #[trigger] disc(d, s, k, l) == 0u8 by {
            assert(l <= k < n + 1);
        }
        assert(generates(d, s, l, n as int));
        if delta != 0 && 2 * degree0 <= n && l + degree0 <= n {
            lemma_massey(c0, d, s, n as int, degree0, l);
        }
    }
    if delta == 0 {
        lb0
    } else {
        let lb = if 2 * degree0 <= n { degree0 } else { lb0 };
        assert(degree >= shift0 + lb0 && degree >= degree0 && degree <= nsym);
        assert forall|j: int| degree < j < 17 implies #[trigger] c[j] == 0u8 by {
            lemma_mul_identity(scale);
            lemma_xor(0u8, 0u8, 0u8);
            if shift0 <= j <= nsym {
                assert(b0[j - shift0] == 0u8);
            }
        }
        assert forall|k: int| degree <= k < n + 1 implies #[trigger] disc(c, s, k, degree) == 0u8 by {
            lemma_disc_update(c, c0, b0, s, k, degree, shift0, scale);
            lemma_disc_zero_ext(c0, s, k, degree0, degree);
            lemma_disc_zero_ext(b0, s, k - shift0, lb0, (degree - shift0) as nat);
            if k < n {
                lemma_mul_identity(scale);
                lemma_xor(0u8, 0u8, 0u8);
            } else {
                lemma_div_mul(delta, last0);
                lemma_mul_commutes(gf_div(delta, last0), last0);
                lemma_xor(delta, delta, 0u8);
            }
        }
        lb
    }
}

/// Berlekamp-Massey: the error locator polynomial (lowest degree first) and its degree. It
/// is a shortest connection polynomial that generates the syndromes: its constant
/// coefficient is one, its coefficients past the degree are zero, its discrepancy at every
/// syndrome from the degree on is zero, and no connection polynomial of smaller length
/// generates them.
fn locator(field: &Field, synd: &[u8; 16], nsym: usize) -> (res: ([u8; 17], usize))
    requires
        nsym <= 16,
    ensures
        res.1 <= nsym,
        res.0@[0] == 1u8,
        forall|j: int| res.1 < j < 17 ==> #[trigger] res.0@[j] == 0u8,
        generates(res.0@, synd@, res.1 as nat, nsym as int),
        forall|d: Seq<u8>, l: nat|
            d[0] == 1u8 && #[trigger] generates(d, synd@, l, nsym as int) ==> l >= res.1,
{
    let mut c = [0u8; 17];
    let mut b = [0u8; 17];
    c[0] = 1;
    b[0] = 1;
    assert(c@[0] == 1u8 && b@[0] == 1u8);

    let mut degree: usize = 0;
    let mut shift: usize = 1;
    let mut last: u8 = 1;

    let ghost mut lb: nat = 0;
    let mut n: usize = 0;
    while n < nsym
        invariant
            n <= nsym <= 16,
            degree <= n,
            1 <= shift <= n + 1,
            last != 0,
            bm_state(synd@, n as nat, c@, b@, degree as nat, shift as nat, last, lb),
            forall|d: Seq<u8>, l: nat|
                d[0] == 1u8 && #[trigger] generates(d, synd@, l, n as int) ==> l >= degree,
        decreases nsym - n,
    {
        let mut delta = synd[n];
        proof {
            lemma_mul_identity(synd@[n as int]);
        }
        let mut i: usize = 1;
        while i <= degree
            invariant
                1 <= i <= degree + 1,
                degree <= n < nsym <= 16,
                c@.len() == 17,
                delta == disc(c@, synd@, n as int, (i - 1) as nat),
                i == 1 ==> delta == synd@[n as int],
                i == 2 ==> delta == synd@[n as int] ^ gf_mul(c@[1], synd@[n - 1]),
            decreases degree + 1 - i,
        {
            let m = field.mul(c[i], synd[n - i]);
            delta = delta ^ m;
            i += 1;
        }

        let ghost c0 = c@;
        let ghost b0 = b@;
        let ghost degree0 = degree;
        let ghost shift0 = shift;
        let ghost last0 = last;
        let ghost mut scale_used: u8 = 0;
        if delta == 0 {
            shift += 1;
        } else {
            let old = c;
            let scale = field.div(delta, last);
            proof {
                scale_used = scale;
            }
            let mut i: usize = 0;
            while i <= nsym - shift
                invariant
                    1 <= shift <= n + 1 <= nsym <= 16,
                    i <= nsym - shift + 1,
                    c@.len() == 17,
                    forall|j: int|
                        0 <= j < 17 ==> #[trigger] c@[j] == if shift <= j < shift + i {
                            old@[j] ^ gf_mul(scale, b@[j - shift])
                        } else {
                            old@[j]
                        },
                decreases nsym - shift + 1 - i,
            {
                let m = field.mul(scale, b[i]);
                c[i + shift] = c[i + shift] ^ m;
                i += 1;
            }

            if 2 * degree <= n {
                degree = n + 1 - degree;
                b = old;
                last = delta;
                shift = 1;
            } else {
                shift += 1;
            }
        }
        proof {
            lb = lemma_bm_step(
                synd@,
                nsym as nat,
                n as nat,
                c0,
                b0,
                degree0 as nat,
                shift0 as nat,
                last0,
                lb,
                delta,
                scale_used,
                c@,
                b@,
                degree as nat,
                shift as nat,
                last,
            );
        }
        n += 1;
    }
    (c, degree)
}

/// Value at `x` of the polynomial with coefficients `poly[0..=degree]`, lowest degree first.
pub open spec fn eval_low_spec(poly: Seq<u8>, degree: int, x: u8) -> u8 {
    horner(poly.subrange(0, degree + 1).reverse(), x)
}

fn eval_low(field: &Field, poly: &[u8; 17], degree: usize, x: u8) -> (value: u8)
    requires
        degree <= 16,
    ensures
        value == eval_low_spec(poly@, degree as int, x),
{
    let mut value = poly[degree];
    proof {
        assert(poly@.subrange(degree as int, degree + 1).reverse() =~= seq![poly@[degree as int]]);
        lemma_horner_single(poly@[degree as int], x);
    }
    let mut i = degree;
    while i > 0
        invariant
            i <= degree <= 16,
            value == horner(poly@.subrange(i as int, degree + 1).reverse(), x),
        decreases i,
    {
        assert(poly@.subrange(i - 1, degree + 1).reverse().drop_last() =~= poly@.subrange(
            i as int,
            degree + 1,
        ).reverse());
        i -= 1;
        value = field.mul(value, x) ^ poly[i];
    }
    value
}

proof fn lemma_ratio_exponent(p: nat, q: nat)
    requires
        p < 255,
        q < 255,
    ensures
        ({
            let k = (p + ((255 - q % 255) % 255) as nat) % 255;
            &&& k < 255
            &&& (k == 0) == (p == q)
        }),
{
    assert(q % 255 == q);
    if q == 0 {
        assert((255 - q % 255) % 255 == 0);
        assert(p % 255 == p);
    } else {
        assert((255 - q % 255) % 255 == 255 - q);
        let s = p + 255 - q;
        assert(s % 255 == if s >= 255 {
            s - 255
        } else {
            s
        });
    }
}

/// `alpha^p` times `alpha^-q` is one exactly when `p` and `q` agree, for exponents below 255.
pub proof fn lemma_alpha_ratio(p: nat, q: nat)
    requires
        p < 255,
        q < 255,
    ensures
        (gf_mul(alpha_pow(p), alpha_pow(((255 - q % 255) % 255) as nat)) == 1u8) == (p == q),
{
    let iq = ((255 - q % 255) % 255) as nat;
    lemma_alpha_mul(p, iq);
    lemma_ratio_exponent(p, q);
    let k = (p + iq) % 255;
    if k != 0 {
        lemma_alpha_not_one(k);
    }
}

/// Evaluation as a sum: `s(x)` is the sum of `s[i] * x^(|s| - 1 - i)`.
proof fn lemma_horner_sum(s: Seq<u8>, x: u8)
    ensures
        horner(s, x) == xsum(|i: int| gf_mul(gf_pow(x, (s.len() - 1 - i) as nat), s[i]), 0, s.len() as int),
    decreases s.len(),
{
    let l = s.len() as int;
    let g = |i: int| gf_mul(gf_pow(x, (l - 1 - i) as nat), s[i]);
    if l == 0 {
    } else {
        let t = s.drop_last();
        lemma_horner_sum(t, x);
        let g1 = |i: int| gf_mul(gf_pow(x, (t.len() - 1 - i) as nat), t[i]);
        lemma_xsum_scale(x, g1, 0, l - 1);
        assert forall|i: int| 0 <= i < l - 1 implies #[trigger] gf_mul(x, g1(i)) == g(i) by {
            let m = (l - 2 - i) as nat;
            lemma_mul_associates(x, gf_pow(x, m), s[i]);
            lemma_mul_commutes(x, gf_pow(x, m));
            assert(gf_pow(x, m + 1) == gf_mul(gf_pow(x, m), x));
            assert((l - 1 - i) as nat == m + 1);
        }
        lemma_xsum_ext(|i: int| gf_mul(x, g1(i)), g, 0, l - 1);
        lemma_mul_commutes(horner(t, x), x);
        assert(g(l - 1) == gf_mul(gf_pow(x, 0), s[l - 1]));
        lemma_mul_identity(s[l - 1]);
    }
}

/// Reversing the coefficients evaluates at the inverse point: for `x * y == 1`,
/// `rev(s)(y) * x^(|s| - 1) == s(x)`.
proof fn lemma_horner_reverse(s: Seq<u8>, x: u8, y: u8)
    requires
        s.len() >= 1,
        gf_mul(x, y) == 1u8,
    ensures
        gf_mul(horner(s.reverse(), y), gf_pow(x, (s.len() - 1) as nat)) == horner(s, x),
    decreases s.len(),
{
    let l = (s.len() - 1) as nat;
    let a = s[0];
    if l == 0 {
        assert(s.reverse() =~= seq![a]);
        assert(s =~= seq![a]);
        lemma_horner_single(a, y);
        lemma_horner_single(a, x);
        lemma_mul_identity(a);
    } else {
        let t = s.subrange(1, s.len() as int);
        lemma_horner_reverse(t, x, y);
        assert(s.reverse().drop_last() =~= t.reverse());
        assert(s.reverse().last() == a);
        assert(s =~= seq![a] + t);
        lemma_horner_concat(seq![a], t, x);
        lemma_horner_single(a, x);
        let h = horner(t.reverse(), y);
        let pl = gf_pow(x, l);
        let pm = gf_pow(x, (l - 1) as nat);
        assert(pl == gf_mul(pm, x));
        // (h * y ^ a) * x^l == h * x^(l-1) ^ a * x^l
        lemma_mul_distributes_left(gf_mul(h, y), a, pl);
        lemma_mul_associates(h, y, pl);
        lemma_mul_commutes(y, pl);
        lemma_mul_associates(pm, x, y);
        lemma_mul_identity(pm);
        lemma_xor(gf_mul(a, pl), horner(t, x), 0u8);
    }
}

/// Synthetic division by `x + a`: the coefficients of the quotient.
pub open spec fn synth(p: Seq<u8>, a: u8) -> Seq<u8> {
    Seq::new((p.len() - 1) as nat, |i: int| horner(p.take(i + 1), a))
}

/// `p(x) == q(x) * (x + a) + p(a)` for the quotient `q` of synthetic division.
proof fn lemma_synth(p: Seq<u8>, a: u8, x: u8)
    requires
        p.len() >= 1,
    ensures
        horner(p, x) == gf_mul(horner(synth(p, a), x), x ^ a) ^ horner(p, a),
    decreases p.len(),
{
    let q = synth(p, a);
    if p.len() == 1 {
        assert(q =~= Seq::<u8>::empty());
        lemma_mul_identity(x ^ a);
        assert(p =~= seq![p[0]]);
        lemma_horner_single(p[0], x);
        lemma_horner_single(p[0], a);
        lemma_xor(p[0], 0u8, 0u8);
    } else {
        let t = p.drop_last();
        let c = p.last();
        lemma_synth(t, a, x);
        let qt = synth(t, a);
        let ht = horner(t, a);
        assert(p.take(p.len() - 1) =~= t);
        assert(q =~= qt.push(ht)) by {
            assert forall|i: int| 0 <= i < qt.len() implies #[trigger] q[i] == qt[i] by {
                assert(p.take(i + 1) =~= t.take(i + 1));
            }
        }
        assert(q.drop_last() =~= qt);
        let hq = horner(qt, x);
        let xa = x ^ a;
        // horner(p, x) = (hq * xa ^ ht) * x ^ c
        // horner(q, x) * xa ^ horner(p, a) = (hq * x ^ ht) * xa ^ (ht * a ^ c)
        lemma_mul_distributes_left(gf_mul(hq, xa), ht, x);
        lemma_mul_distributes_left(gf_mul(hq, x), ht, xa);
        lemma_mul_associates(hq, xa, x);
        lemma_mul_associates(hq, x, xa);
        lemma_mul_commutes(xa, x);
        lemma_mul_distributes(ht, x, a);
        let u = gf_mul(gf_mul(hq, x), xa);
        let v = gf_mul(ht, x);
        let w = gf_mul(ht, a);
        // (u ^ (v ^ w)) ^ (w ^ c) == (u ^ v) ^ c
        lemma_xor(u, v, w);
        lemma_xor(u ^ v, w, w ^ c);
        lemma_xor(w, w, c);
        lemma_xor(w, 0u8, c);
        lemma_xor(c, 0u8, 0u8);
    }
}

/// A polynomial with leading coefficient one and degree `|p| - 1` has no more roots than its
/// degree among distinct points.
proof fn lemma_root_bound(p: Seq<u8>, xs: Seq<u8>, m: nat)
    requires
        p.len() >= 1,
        p[0] == 1u8,
        m <= xs.len(),
        forall|i: int, j: int| 0 <= i < j < m ==> #[trigger] xs[i] != #[trigger] xs[j],
        forall|i: int| 0 <= i < m ==> #[trigger] horner(p, xs[i]) == 0u8,
    ensures
        m <= p.len() - 1,
    decreases p.len(),
{
    if m > 0 {
        if p.len() == 1 {
            assert(p =~= seq![1u8]);
            lemma_horner_single(1u8, xs[0]);
        } else {
            let a = xs[m - 1];
            let q = synth(p, a);
            assert(p.take(1) =~= seq![p[0]]);
            lemma_horner_single(p[0], a);
            assert(q[0] == 1u8);
            assert forall|i: int| 0 <= i < m - 1 implies #[trigger] horner(q, xs[i]) == 0u8 by {
                lemma_synth(p, a, xs[i]);
                assert(horner(p, a) == 0u8);
                lemma_xor(gf_mul(horner(q, xs[i]), xs[i] ^ a), 0u8, 0u8);
                lemma_xor(xs[i], a, 0u8);
                lemma_no_zero_divisor(horner(q, xs[i]), xs[i] ^ a);
            }
            lemma_root_bound(q, xs, (m - 1) as nat);
        }
    }
}

/// The coefficients (highest degree first) of the product of `x + xs[q]` over `q < m`.
pub open spec fn prod_poly(xs: Seq<u8>, m: nat) -> Seq<u8>
    decreases m,
{
    if m == 0 {
        seq![1u8]
    } else {
        let c = prod_poly(xs, (m - 1) as nat);
        seq_xor(c.push(0u8), seq_scale(seq![0u8] + c, xs[m - 1]))
    }
}

/// The product has degree `m`, leading coefficient one, and each `xs[q]` as a root.
proof fn lemma_prod_poly(xs: Seq<u8>, m: nat)
    requires
        m <= xs.len(),
    ensures
        prod_poly(xs, m).len() == m + 1,
        prod_poly(xs, m)[0] == 1u8,
        forall|q: int| 0 <= q < m ==> #[trigger] horner(prod_poly(xs, m), xs[q]) == 0u8,
    decreases m,
{
    if m > 0 {
        let c = prod_poly(xs, (m - 1) as nat);
        lemma_prod_poly(xs, (m - 1) as nat);
        let a = xs[m - 1];
        lemma_mul_identity(a);
        lemma_xor(1u8, 0u8, 0u8);
        assert(seq_scale(seq![0u8] + c, a)[0] == gf_mul(a, 0u8));
        assert forall|q: int| 0 <= q < m implies #[trigger] horner(prod_poly(xs, m), xs[q]) == 0u8 by {
            lemma_horner_linear_factor(c, a, xs[q]);
            if q == m - 1 {
                lemma_xor(a, 0u8, 0u8);
                lemma_mul_identity(horner(c, a));
            } else {
                lemma_mul_identity(xs[q] ^ a);
            }
        }
    }
}

/// The weights `c_rev(ys[q]) * es[q]`, where `c_rev` is the first `d + 1` coefficients of
/// `c` read highest degree first.
pub open spec fn weighted(c: Seq<u8>, d: nat, ys: Seq<u8>, es: Seq<u8>, nu: nat) -> Seq<u8> {
    Seq::new(nu, |q: int| gf_mul(horner(c.take((d + 1) as int), ys[q]), es[q]))
}

/// Over syndromes that are power sums of points `ys` with weights `es`, the discrepancy of
/// a connection polynomial `c` of length `d` at `k` is the power sum, at `k - d`, of the
/// same points weighted by the reversed polynomial's values there.
proof fn lemma_disc_power_sum(c: Seq<u8>, s: Seq<u8>, ys: Seq<u8>, es: Seq<u8>, nu: nat, d: nat, k: int)
    requires
        d <= k,
        c.len() >= d + 1,
        forall|j: int| 0 <= j <= k ==> #[trigger] s[j] == power_sum(ys, es, nu as int, j as nat),
    ensures
        disc(c, s, k, d) == power_sum(ys, weighted(c, d, ys, es, nu), nu as int, (k - d) as nat),
{
    let hd = (d + 1) as int;
    let hn = nu as int;
    let f = |i: int, q: int| gf_mul(c[i], gf_mul(gf_pow(ys[q], (k - i) as nat), es[q]));
    lemma_disc_sum(c, s, k, d);
    assert forall|i: int| 0 <= i < hd implies #[trigger] gf_mul(c[i], s[k - i]) == row(f, i, 0, hn) by {
        assert(s[k - i] == power_sum(ys, es, hn, (k - i) as nat));
        let g = |q: int| gf_mul(gf_pow(ys[q], (k - i) as nat), es[q]);
        lemma_xsum_scale(c[i], g, 0, hn);
        lemma_xsum_ext(|q: int| gf_mul(c[i], g(q)), |q: int| f(i, q), 0, hn);
    }
    lemma_xsum_ext(|i: int| gf_mul(c[i], s[k - i]), |i: int| row(f, i, 0, hn), 0, hd);
    lemma_xsum_ext(|i: int| row(f, i, 0, hn), |i: int| xsum(|q: int| f(i, q), 0, hn), 0, hd);
    lemma_xsum_swap(f, 0, hd, 0, hn);
    let z = weighted(c, d, ys, es, nu);
    assert forall|q: int| 0 <= q < hn implies #[trigger] column(f, q, 0, hd) == gf_mul(
        gf_pow(ys[q], (k - d) as nat),
        z[q],
    ) by {
        let x = ys[q];
        let e = es[q];
        let a = gf_pow(x, (k - d) as nat);
        let cd = c.take(hd);
        let b = |i: int| gf_mul(gf_pow(x, (cd.len() - 1 - i) as nat), cd[i]);
        assert forall|i: int| 0 <= i < hd implies #[trigger] f(i, q) == gf_mul(a, gf_mul(b(i), e)) by {
            let bi = gf_pow(x, (d - i) as nat);
            lemma_pow_add(x, (k - d) as nat, (d - i) as nat);
            assert((k - d) as nat + (d - i) as nat == (k - i) as nat);
            assert(cd[i] == c[i]);
            assert(b(i) == gf_mul(bi, c[i]));
            // c * ((a * bi) * e) == a * ((bi * c) * e)
            let p = gf_mul(a, bi);
            lemma_mul_commutes(c[i], gf_mul(p, e));
            lemma_mul_associates(p, e, c[i]);
            lemma_mul_commutes(e, c[i]);
            lemma_mul_associates(a, bi, gf_mul(c[i], e));
            lemma_mul_associates(bi, c[i], e);
        }
        let be = |i: int| gf_mul(b(i), e);
        let abe = |i: int| gf_mul(a, be(i));
        let eb = |i: int| gf_mul(e, b(i));
        assert(column(f, q, 0, hd) == xsum(|i: int| f(i, q), 0, hd));
        lemma_xsum_ext(|i: int| f(i, q), abe, 0, hd);
        lemma_xsum_scale(a, be, 0, hd);
        assert(column(f, q, 0, hd) == gf_mul(a, xsum(be, 0, hd)));
        assert forall|i: int| 0 <= i < hd implies #[trigger] be(i) == eb(i) by {
            lemma_mul_commutes(b(i), e);
        }
        lemma_xsum_ext(be, eb, 0, hd);
        lemma_xsum_scale(e, b, 0, hd);
        assert(cd.len() == hd);
        lemma_horner_sum(cd, x);
        assert(xsum(b, 0, hd) == horner(cd, x));
        lemma_mul_commutes(e, horner(cd, x));
        assert(z[q] == gf_mul(horner(cd, x), e));
    }
    lemma_xsum_ext(
        |q: int| column(f, q, 0, hd),
        |q: int| gf_mul(gf_pow(ys[q], (k - d) as nat), z[q]),
        0,
        hn,
    );
    lemma_xsum_ext(|q: int| xsum(|i: int| f(i, q), 0, hd), |q: int| column(f, q, 0, hd), 0, hn);
}

/// The positions below `n` at which `a` and `b` differ, in increasing order.
pub open spec fn diff_positions(a: Seq<u8>, b: Seq<u8>, n: nat) -> Seq<int>
    decreases n,
{
    if n == 0 {
        Seq::empty()
    } else {
        let prev = diff_positions(a, b, (n - 1) as nat);
        if a[n - 1] != b[n - 1] {
            prev.push(n - 1)
        } else {
            prev
        }
    }
}

/// The differing positions are as many as the distance, increasing, differing, and all of
/// them.
proof fn lemma_diff_positions(a: Seq<u8>, b: Seq<u8>, n: nat)
    requires
        n <= a.len(),
        a.len() == b.len(),
    ensures
        diff_positions(a, b, n).len() == diff_count(a.take(n as int), b.take(n as int)),
        forall|i: int, j: int|
            0 <= i < j < diff_positions(a, b, n).len() ==> #[trigger] diff_positions(a, b, n)[i]
                < #[trigger] diff_positions(a, b, n)[j],
        forall|q: int|
            0 <= q < diff_positions(a, b, n).len() ==> 0 <= #[trigger] diff_positions(a, b, n)[q] < n
                && a[diff_positions(a, b, n)[q]] != b[diff_positions(a, b, n)[q]],
        forall|j: int|
            0 <= j < n && a[j] != b[j] ==> exists|q: int|
                0 <= q < diff_positions(a, b, n).len() && #[trigger] diff_positions(a, b, n)[q] == j,
    decreases n,
{
    if n > 0 {
        let m = (n - 1) as nat;
        lemma_diff_positions(a, b, m);
        assert(a.take(n as int).drop_last() =~= a.take(m as int));
        assert(b.take(n as int).drop_last() =~= b.take(m as int));
        let prev = diff_positions(a, b, m);
        let cur = diff_positions(a, b, n);
        assert forall|j: int| 0 <= j < n && a[j] != b[j] implies exists|q: int|
            0 <= q < cur.len() && #[trigger] cur[q] == j by {
            if j == m {
                assert(cur[prev.len() as int] == j);
            } else {
                let q = choose|q: int| 0 <= q < prev.len() && #[trigger] prev[q] == j;
                assert(cur[q] == j);
            }
        }
    }
}

/// The points `alpha^(|a| - 1 - p)` of the positions `p` where `a` and `b` differ.
pub open spec fn error_locations(a: Seq<u8>, b: Seq<u8>) -> Seq<u8> {
    let ps = diff_positions(a, b, a.len());
    Seq::new(ps.len(), |q: int| alpha_pow((a.len() - 1 - ps[q]) as nat))
}

/// The differences `a[p] + b[p]` at those positions.
pub open spec fn error_values(a: Seq<u8>, b: Seq<u8>) -> Seq<u8> {
    let ps = diff_positions(a, b, a.len());
    Seq::new(ps.len(), |q: int| a[ps[q]] ^ b[ps[q]])
}

/// A sum over all positions whose terms vanish where `a` and `b` agree is the sum over the
/// differing positions.
proof fn lemma_sparse_sum(f: spec_fn(int) -> u8, a: Seq<u8>, b: Seq<u8>, n: nat)
    requires
        n <= a.len(),
        a.len() == b.len(),
        forall|i: int| 0 <= i < n && a[i] == b[i] ==> #[trigger] f(i) == 0u8,
    ensures
        xsum(f, 0, n as int) == xsum(
            |q: int| f(diff_positions(a, b, n)[q]),
            0,
            diff_positions(a, b, n).len() as int,
        ),
    decreases n,
{
    if n > 0 {
        let m = (n - 1) as nat;
        lemma_sparse_sum(f, a, b, m);
        let prev = diff_positions(a, b, m);
        let cur = diff_positions(a, b, n);
        if a[m as int] != b[m as int] {
            lemma_xsum_ext(|q: int| f(cur[q]), |q: int| f(prev[q]), 0, prev.len() as int);
            assert(xsum(|q: int| f(cur[q]), 0, cur.len() as int) == xsum(|q: int| f(cur[q]), 0, prev.len() as int)
                ^ f(cur[prev.len() as int]));
        } else {
            lemma_xor(xsum(f, 0, m as int), 0u8, 0u8);
        }
    }
}

/// The value at `alpha^j` of the difference of `a` and `b` is the power sum of the error
/// locations weighted by the error values.
proof fn lemma_error_sum(a: Seq<u8>, b: Seq<u8>, j: nat)
    requires
        a.len() == b.len(),
    ensures
        horner(a, alpha_pow(j)) ^ horner(b, alpha_pow(j)) == power_sum(
            error_locations(a, b),
            error_values(a, b),
            diff_positions(a, b, a.len()).len() as int,
            j,
        ),
{
    let x = alpha_pow(j);
    let l = a.len();
    let e = seq_xor(a, b);
    lemma_horner_xor(a, b, x);
    lemma_horner_sum(e, x);
    let f = |i: int| gf_mul(gf_pow(x, (e.len() - 1 - i) as nat), e[i]);
    assert forall|i: int| 0 <= i < l && a[i] == b[i] implies #[trigger] f(i) == 0u8 by {
        lemma_xor(a[i], 0u8, 0u8);
        lemma_mul_identity(gf_pow(x, (e.len() - 1 - i) as nat));
    }
    lemma_sparse_sum(f, a, b, l);
    assert(a.take(l as int) =~= a);
    let ps = diff_positions(a, b, l);
    lemma_diff_positions(a, b, l);
    let ys = error_locations(a, b);
    let es = error_values(a, b);
    assert forall|q: int| 0 <= q < ps.len() implies #[trigger] f(ps[q]) == gf_mul(gf_pow(ys[q], j), es[q]) by {
        let m = (l - 1 - ps[q]) as nat;
        lemma_alpha_pow_pow(j, m);
        lemma_alpha_pow_pow(m, j);
        assert(j * m == m * j) by (nonlinear_arith);
    }
    lemma_xsum_ext(|q: int| f(ps[q]), |q: int| gf_mul(gf_pow(ys[q], j), es[q]), 0, ps.len() as int);
}

/// Error locations are distinct and nonzero, and error values are nonzero.
proof fn lemma_error_points(a: Seq<u8>, b: Seq<u8>)
    requires
        a.len() == b.len(),
        a.len() <= 255,
    ensures
        forall|p: int| 0 <= p < error_locations(a, b).len() ==> #[trigger] error_locations(a, b)[p] != 0u8,
        forall|p: int, q: int|
            0 <= p < q < error_locations(a, b).len() ==> #[trigger] error_locations(a, b)[p]
                != #[trigger] error_locations(a, b)[q],
        forall|p: int| 0 <= p < error_values(a, b).len() ==> #[trigger] error_values(a, b)[p] != 0u8,
{
    let l = a.len();
    let ps = diff_positions(a, b, l);
    lemma_diff_positions(a, b, l);
    let ys = error_locations(a, b);
    assert forall|p: int| 0 <= p < ys.len() implies #[trigger] ys[p] != 0u8 by {
        lemma_pow_nonzero_any(2u8, ((l - 1 - ps[p]) as nat) % 255);
    }
    assert forall|p: int, q: int| 0 <= p < q < ys.len() implies #[trigger] ys[p] != #[trigger] ys[q] by {
        assert(ps[p] < ps[q]);
        lemma_alpha_ratio((l - 1 - ps[p]) as nat, (l - 1 - ps[q]) as nat);
        lemma_alpha_ratio((l - 1 - ps[q]) as nat, (l - 1 - ps[q]) as nat);
    }
    assert forall|p: int| 0 <= p < error_values(a, b).len() implies #[trigger] error_values(a, b)[p] != 0u8 by {
        lemma_xor(a[ps[p]], b[ps[p]], 0u8);
    }
}

/// Two codewords of `nsym` parity symbols that differ in at most `nsym` places are equal.
pub proof fn lemma_codeword_separation(u: Seq<u8>, v: Seq<u8>, nsym: nat)
    requires
        u.len() == v.len(),
        u.len() <= 255,
        is_codeword(u, nsym),
        is_codeword(v, nsym),
        diff_count(u, v) <= nsym,
    ensures
        u == v,
{
    let m = diff_positions(u, v, u.len()).len();
    lemma_diff_positions(u, v, u.len());
    assert(u.take(u.len() as int) =~= u);
    assert(v.take(v.len() as int) =~= v);
    lemma_error_points(u, v);
    let ys = error_locations(u, v);
    let es = error_values(u, v);
    assert forall|r: nat| r < m implies #[trigger] power_sum(ys, es, m as int, 0 + r) == 0u8 by {
        lemma_error_sum(u, v, r);
        assert(horner(u, alpha_pow(r)) == 0u8);
        assert(horner(v, alpha_pow(r)) == 0u8);
        lemma_xor(0u8, 0u8, 0u8);
    }
    lemma_vandermonde(ys, es, m, 0);
    if m > 0 {
        assert(es[0] == 0u8);
    }
    lemma_diff_zero(u, v);
}

/// The inverse of the point `alpha^(len - 1 - pos)` of position `pos`.
pub open spec fn inverse_point(len: nat, pos: int) -> u8 {
    alpha_pow(((255 - ((len - 1 - pos) as nat) % 255) % 255) as nat)
}

/// The locator of length `degree` vanishes at the inverse point of position `pos`.
pub open spec fn root_at(loc: Seq<u8>, degree: int, len: nat, pos: int) -> bool {
    eval_low_spec(loc, degree, inverse_point(len, pos)) == 0u8
}

/// The positions below `upto` at which the locator vanishes, in increasing order.
pub open spec fn roots_upto(loc: Seq<u8>, degree: int, len: nat, upto: nat) -> Seq<int>
    decreases upto,
{
    if upto == 0 {
        Seq::empty()
    } else {
        let prev = roots_upto(loc, degree, len, (upto - 1) as nat);
        if root_at(loc, degree, len, upto - 1) {
            prev.push(upto - 1)
        } else {
            prev
        }
    }
}

/// Chien search: the positions (at most eight kept) whose inverse points are roots of the
/// locator, in increasing order, and how many there are.
fn positions(
    field: &Field,
    locator: &[u8; 17],
    degree: usize,
    len: usize,
) -> (res: ([usize; 8], usize))
    requires
        degree <= 16,
    ensures
        res.1 <= len,
        forall|i: int| 0 <= i < res.1 && i < 8 ==> res.0@[i] < len,
        res.1 == roots_upto(locator@, degree as int, len as nat, len as nat).len(),
        forall|i: int|
            0 <= i < res.1 && i < 8 ==> res.0@[i] == roots_upto(locator@, degree as int, len as nat, len as nat)[i],
{
    let mut positions = [0usize; 8];
    let mut count: usize = 0;
    let mut pos: usize = 0;
    while pos < len
        invariant
            pos <= len,
            count <= pos,
            degree <= 16,
            forall|i: int| 0 <= i < count && i < 8 ==> positions@[i] < len,
            count == roots_upto(locator@, degree as int, len as nat, pos as nat).len(),
            forall|i: int|
                0 <= i < count && i < 8 ==> positions@[i] == roots_upto(locator@, degree as int, len as nat, pos as nat)[i],
        decreases len - pos,
    {
        let power = len - 1 - pos;
        let inverse = field.alpha((255 - power % 255) % 255);
        if eval_low(field, locator, degree, inverse) == 0 {
            if count < 8 {
                positions[count] = pos;
            }
            count += 1;
        }
        pos += 1;
    }
    (positions, count)
}

/// Entry `col` of row `row` of a matrix stored row-major with nine columns.
spec fn cell(m: Seq<u8>, row: int, col: int) -> u8 {
    m[row * 9 + col]
}

fn at(row: usize, col: usize) -> (r: usize)
    requires
        row < 8,
        col < 9,
    ensures
        r == row * 9 + col,
        r < 72,
{
    assert(row * 9 + col < 72) by (nonlinear_arith)
        requires
            row < 8,
            col < 9,
    ;
    row * 9 + col
}

/// Row `r` of the left-hand side of matrix `m` (with `n` unknowns) applied to `x`.
spec fn row_dot(m: Seq<u8>, r: int, x: Seq<u8>, n: int) -> u8 {
    xsum(|k: int| gf_mul(cell(m, r, k), x[k]), 0, n)
}

/// `x` solves the `n` equations of the augmented matrix `m`.
spec fn solves(m: Seq<u8>, x: Seq<u8>, n: int) -> bool {
    forall|r: int| 0 <= r < n ==> #[trigger] row_dot(m, r, x, n) == cell(m, r, n)
}

/// `x` solves the `n` homogeneous equations of `m`.
spec fn kernel(m: Seq<u8>, x: Seq<u8>, n: int) -> bool {
    forall|r: int| 0 <= r < n ==> #[trigger] row_dot(m, r, x, n) == 0u8
}

/// The systems of `a` and `b` have the same solutions, and so do their homogeneous systems.
spec fn equivalent(a: Seq<u8>, b: Seq<u8>, n: int) -> bool {
    forall|x: Seq<u8>|
        #![trigger solves(a, x, n)]
        #![trigger solves(b, x, n)]
        #![trigger kernel(a, x, n)]
        #![trigger kernel(b, x, n)]
        solves(a, x, n) == solves(b, x, n) && kernel(a, x, n) == kernel(b, x, n)
}

/// `b` is `a` with rows `i` and `j` exchanged.
spec fn swapped(a: Seq<u8>, b: Seq<u8>, i: int, j: int, n: int) -> bool {
    forall|r: int, c: int|
        0 <= r < n && 0 <= c <= n ==> #[trigger] cell(b, r, c) == cell(
            a,
            if r == i {
                j
            } else if r == j {
                i
            } else {
                r
            },
            c,
        )
}

/// `b` is `a` with row `i` divided by `s`.
spec fn row_scaled(a: Seq<u8>, b: Seq<u8>, i: int, s: u8, n: int) -> bool {
    forall|r: int, c: int|
        0 <= r < n && 0 <= c <= n ==> #[trigger] cell(b, r, c) == if r == i {
            gf_div(cell(a, r, c), s)
        } else {
            cell(a, r, c)
        }
}

/// `b` is `a` with `f` times row `p` added to row `i`.
spec fn row_reduced(a: Seq<u8>, b: Seq<u8>, i: int, p: int, f: u8, n: int) -> bool {
    forall|r: int, c: int|
        0 <= r < n && 0 <= c <= n ==> #[trigger] cell(b, r, c) == if r == i {
            cell(a, i, c) ^ gf_mul(f, cell(a, p, c))
        } else {
            cell(a, r, c)
        }
}

proof fn lemma_equiv_trans(a: Seq<u8>, b: Seq<u8>, c: Seq<u8>, n: int)
    requires
        equivalent(a, b, n),
        equivalent(b, c, n),
    ensures
        equivalent(a, c, n),
{
    assert forall|x: Seq<u8>| solves(a, x, n) == solves(c, x, n) && kernel(a, x, n) == kernel(c, x, n) by {
        assert(solves(b, x, n) == solves(a, x, n));
        assert(kernel(b, x, n) == kernel(a, x, n));
    }
}

proof fn lemma_swap_equiv(a: Seq<u8>, b: Seq<u8>, i: int, j: int, n: int)
    requires
        0 <= i < n,
        0 <= j < n,
        swapped(a, b, i, j, n),
    ensures
        equivalent(a, b, n),
{
    assert forall|x: Seq<u8>| solves(a, x, n) == solves(b, x, n) && kernel(a, x, n) == kernel(b, x, n) by {
        assert forall|r: int| 0 <= r < n implies #[trigger] row_dot(b, r, x, n) == row_dot(
            a,
            if r == i {
                j
            } else if r == j {
                i
            } else {
                r
            },
            x,
            n,
        ) && cell(b, r, n) == cell(
            a,
            if r == i {
                j
            } else if r == j {
                i
            } else {
                r
            },
            n,
        ) by {
            let q = if r == i {
                j
            } else if r == j {
                i
            } else {
                r
            };
            assert forall|k: int| 0 <= k < n implies #[trigger] gf_mul(cell(b, r, k), x[k]) == gf_mul(
                cell(a, q, k),
                x[k],
            ) by {
                assert(cell(b, r, k) == cell(a, q, k));
            }
            lemma_xsum_ext(|k: int| gf_mul(cell(b, r, k), x[k]), |k: int| gf_mul(cell(a, q, k), x[k]), 0, n);
        }
        if solves(a, x, n) {
            assert forall|r: int| 0 <= r < n implies #[trigger] row_dot(b, r, x, n) == cell(b, r, n) by {
                let q = if r == i {
                    j
                } else if r == j {
                    i
                } else {
                    r
                };
                assert(row_dot(a, q, x, n) == cell(a, q, n));
            }
        }
        if solves(b, x, n) {
            assert forall|r: int| 0 <= r < n implies #[trigger] row_dot(a, r, x, n) == cell(a, r, n) by {
                let q = if r == i {
                    j
                } else if r == j {
                    i
                } else {
                    r
                };
                assert(row_dot(b, q, x, n) == cell(b, q, n));
            }
        }
        if kernel(a, x, n) {
            assert forall|r: int| 0 <= r < n implies #[trigger] row_dot(b, r, x, n) == 0u8 by {
                let q = if r == i {
                    j
                } else if r == j {
                    i
                } else {
                    r
                };
                assert(row_dot(a, q, x, n) == 0u8);
            }
        }
        if kernel(b, x, n) {
            assert forall|r: int| 0 <= r < n implies #[trigger] row_dot(a, r, x, n) == 0u8 by {
                let q = if r == i {
                    j
                } else if r == j {
                    i
                } else {
                    r
                };
                assert(row_dot(b, q, x, n) == 0u8);
            }
        }
    }
}

proof fn lemma_reduce_equiv(a: Seq<u8>, b: Seq<u8>, i: int, p: int, f: u8, n: int)
    requires
        0 <= i < n,
        0 <= p < n,
        i != p,
        row_reduced(a, b, i, p, f, n),
    ensures
        equivalent(a, b, n),
{
    assert forall|x: Seq<u8>| solves(a, x, n) == solves(b, x, n) && kernel(a, x, n) == kernel(b, x, n) by {
        let fa = |k: int| gf_mul(cell(a, i, k), x[k]);
        let fp = |k: int| gf_mul(cell(a, p, k), x[k]);
        let g = |k: int| gf_mul(f, fp(k));
        assert forall|k: int| 0 <= k < n implies #[trigger] gf_mul(cell(b, i, k), x[k]) == fa(k) ^ g(k) by {
            lemma_mul_distributes_left(cell(a, i, k), gf_mul(f, cell(a, p, k)), x[k]);
            lemma_mul_associates(f, cell(a, p, k), x[k]);
        }
        lemma_xsum_ext(|k: int| gf_mul(cell(b, i, k), x[k]), |k: int| fa(k) ^ g(k), 0, n);
        lemma_xsum_xor(fa, g, 0, n);
        lemma_xsum_scale(f, fp, 0, n);
        // row i of b is row i of a plus f times row p; every other row is unchanged
        let di = row_dot(a, i, x, n);
        let dp = row_dot(a, p, x, n);
        assert(row_dot(b, i, x, n) == di ^ gf_mul(f, dp));
        assert(cell(b, i, n) == cell(a, i, n) ^ gf_mul(f, cell(a, p, n)));
        assert forall|r: int| 0 <= r < n && r != i implies #[trigger] row_dot(b, r, x, n) == row_dot(
            a,
            r,
            x,
            n,
        ) && cell(b, r, n) == cell(a, r, n) by {
            assert forall|k: int| 0 <= k < n implies #[trigger] gf_mul(cell(b, r, k), x[k]) == gf_mul(
                cell(a, r, k),
                x[k],
            ) by {
                assert(cell(b, r, k) == cell(a, r, k));
            }
            lemma_xsum_ext(|k: int| gf_mul(cell(b, r, k), x[k]), |k: int| gf_mul(cell(a, r, k), x[k]), 0, n);
        }
        assert(row_dot(b, p, x, n) == dp);
        let ci = cell(a, i, n);
        let cp = cell(a, p, n);
        lemma_xor(di, gf_mul(f, dp), gf_mul(f, dp));
        lemma_xor(ci, gf_mul(f, cp), gf_mul(f, cp));
        lemma_mul_identity(f);
        lemma_xor(di, 0u8, 0u8);
        if solves(a, x, n) {
            assert(di == ci && dp == cp);
            assert forall|r: int| 0 <= r < n implies #[trigger] row_dot(b, r, x, n) == cell(b, r, n) by {
                if r != i {
                    assert(row_dot(a, r, x, n) == cell(a, r, n));
                }
            }
        }
        if solves(b, x, n) {
            assert(row_dot(b, i, x, n) == cell(b, i, n));
            assert(row_dot(b, p, x, n) == cell(b, p, n));
            assert(cell(b, p, n) == cp);
            assert(dp == cp);
            assert(di ^ gf_mul(f, dp) == ci ^ gf_mul(f, dp));
            lemma_xor(di, gf_mul(f, dp), 0u8);
            lemma_xor(ci, gf_mul(f, dp), 0u8);
            assert((di ^ gf_mul(f, dp)) ^ gf_mul(f, dp) == (ci ^ gf_mul(f, dp)) ^ gf_mul(f, dp));
            let ff = gf_mul(f, dp);
            lemma_xor(ff, 0u8, 0u8);
            lemma_xor(di, ff, ff);
            lemma_xor(ci, ff, ff);
            lemma_xor(di, 0u8, 0u8);
            lemma_xor(ci, 0u8, 0u8);
            assert(di == ci);
            assert forall|r: int| 0 <= r < n implies #[trigger] row_dot(a, r, x, n) == cell(a, r, n) by {
                if r != i {
                    assert(row_dot(b, r, x, n) == cell(b, r, n));
                }
            }
        }
        if kernel(a, x, n) {
            assert(di == 0u8 && dp == 0u8);
            assert forall|r: int| 0 <= r < n implies #[trigger] row_dot(b, r, x, n) == 0u8 by {
                if r != i {
                    assert(row_dot(a, r, x, n) == 0u8);
                }
            }
        }
        if kernel(b, x, n) {
            assert(row_dot(b, i, x, n) == 0u8);
            assert(row_dot(b, p, x, n) == 0u8);
            assert forall|r: int| 0 <= r < n implies #[trigger] row_dot(a, r, x, n) == 0u8 by {
                if r != i {
                    assert(row_dot(b, r, x, n) == 0u8);
                }
            }
        }
    }
}

proof fn lemma_scale_equiv(a: Seq<u8>, b: Seq<u8>, i: int, sc: u8, n: int)
    requires
        0 <= i < n,
        sc != 0,
        row_scaled(a, b, i, sc, n),
    ensures
        equivalent(a, b, n),
{
    let inv = crate::gf::gf_inv(sc);
    lemma_div_mul(1u8, sc);
    lemma_mul_identity(inv);
    lemma_mul_identity(sc);
    assert(inv != 0u8);
    assert forall|x: Seq<u8>| solves(a, x, n) == solves(b, x, n) && kernel(a, x, n) == kernel(b, x, n) by {
        let fa = |k: int| gf_mul(cell(a, i, k), x[k]);
        assert forall|k: int| 0 <= k < n implies #[trigger] gf_mul(cell(b, i, k), x[k]) == gf_mul(inv, fa(k)) by {
            lemma_mul_associates(cell(a, i, k), inv, x[k]);
            lemma_mul_commutes(inv, x[k]);
            lemma_mul_associates(cell(a, i, k), x[k], inv);
            lemma_mul_commutes(fa(k), inv);
        }
        lemma_xsum_ext(|k: int| gf_mul(cell(b, i, k), x[k]), |k: int| gf_mul(inv, fa(k)), 0, n);
        lemma_xsum_scale(inv, fa, 0, n);
        let di = row_dot(a, i, x, n);
        let ci = cell(a, i, n);
        assert(row_dot(b, i, x, n) == gf_mul(inv, di));
        lemma_mul_commutes(ci, inv);
        assert(cell(b, i, n) == gf_mul(inv, ci));
        assert forall|r: int| 0 <= r < n && r != i implies #[trigger] row_dot(b, r, x, n) == row_dot(
            a,
            r,
            x,
            n,
        ) && cell(b, r, n) == cell(a, r, n) by {
            assert forall|k: int| 0 <= k < n implies #[trigger] gf_mul(cell(b, r, k), x[k]) == gf_mul(
                cell(a, r, k),
                x[k],
            ) by {
                assert(cell(b, r, k) == cell(a, r, k));
            }
            lemma_xsum_ext(|k: int| gf_mul(cell(b, r, k), x[k]), |k: int| gf_mul(cell(a, r, k), x[k]), 0, n);
        }
        // multiplying by the nonzero inverse keeps equations apart
        lemma_mul_distributes(inv, di, ci);
        lemma_xor(di, ci, 0u8);
        lemma_xor(gf_mul(inv, di), gf_mul(inv, ci), 0u8);
        if gf_mul(inv, di ^ ci) == 0u8 {
            lemma_no_zero_divisor(inv, di ^ ci);
        }
        if gf_mul(inv, di) == 0u8 {
            lemma_no_zero_divisor(inv, di);
        }
        assert((row_dot(b, i, x, n) == cell(b, i, n)) == (di == ci));
        assert((row_dot(b, i, x, n) == 0u8) == (di == 0u8));
        if solves(a, x, n) {
            assert forall|r: int| 0 <= r < n implies #[trigger] row_dot(b, r, x, n) == cell(b, r, n) by {
                assert(row_dot(a, r, x, n) == cell(a, r, n));
            }
        }
        if solves(b, x, n) {
            assert forall|r: int| 0 <= r < n implies #[trigger] row_dot(a, r, x, n) == cell(a, r, n) by {
                assert(row_dot(b, r, x, n) == cell(b, r, n));
            }
        }
        if kernel(a, x, n) {
            assert forall|r: int| 0 <= r < n implies #[trigger] row_dot(b, r, x, n) == 0u8 by {
                assert(row_dot(a, r, x, n) == 0u8);
            }
        }
        if kernel(b, x, n) {
            assert forall|r: int| 0 <= r < n implies #[trigger] row_dot(a, r, x, n) == 0u8 by {
                assert(row_dot(b, r, x, n) == 0u8);
            }
        }
    }
}

/// The points `alpha^(len - 1 - p)` of the located positions `p`.
pub open spec fn error_points(positions: Seq<usize>, len: nat) -> Seq<u8> {
    Seq::new(8, |k: int| alpha_pow((len - 1 - positions[k]) as nat))
}

/// The first `n` positions are pairwise distinct.
pub open spec fn distinct_upto(positions: Seq<usize>, n: int) -> bool {
    forall|i: int, j: int| 0 <= i < j < n ==> #[trigger] positions[i] != #[trigger] positions[j]
}

proof fn lemma_cell_index(r1: int, c1: int, r2: int, c2: int)
    by (nonlinear_arith)
    requires
        0 <= c1 < 9,
        0 <= c2 < 9,
        0 <= r1 < 8,
        0 <= r2 < 8,
    ensures
        (r1 * 9 + c1 == r2 * 9 + c2) == (r1 == r2 && c1 == c2),
        0 <= r1 * 9 + c1 < 72,
{
}

/// Writing one entry of the matrix leaves every other entry alone.
proof fn lemma_cell_update(m: Seq<u8>, row: int, col: int, v: u8)
    requires
        m.len() == 72,
        0 <= row < 8,
        0 <= col < 9,
    ensures
        forall|r: int, c: int|
            0 <= r < 8 && 0 <= c < 9 ==> #[trigger] cell(m.update(row * 9 + col, v), r, c) == if r
                == row && c == col {
                v
            } else {
                cell(m, r, c)
            },
{
    assert forall|r: int, c: int| 0 <= r < 8 && 0 <= c < 9 implies #[trigger] cell(
        m.update(row * 9 + col, v),
        r,
        c,
    ) == if r == row && c == col {
        v
    } else {
        cell(m, r, c)
    } by {
        lemma_cell_index(r, c, row, col);
    }
}

/// Splitting a sum at `mid`.
proof fn lemma_xsum_range(f: spec_fn(int) -> u8, lo: int, mid: int, hi: int)
    requires
        lo <= mid <= hi,
    ensures
        xsum(f, lo, hi) == xsum(f, lo, mid) ^ xsum(f, mid, hi),
    decreases hi - mid,
{
    if hi > mid {
        lemma_xsum_range(f, lo, mid, hi - 1);
        lemma_xor(xsum(f, lo, mid), xsum(f, mid, hi - 1), f(hi - 1));
    } else {
        lemma_xor(xsum(f, lo, mid), 0u8, 0u8);
    }
}

/// A sum with a single term that may be nonzero is that term.
proof fn lemma_xsum_one(f: spec_fn(int) -> u8, lo: int, hi: int, a: int)
    requires
        lo <= a < hi,
        forall|k: int| lo <= k < hi && k != a ==> #[trigger] f(k) == 0u8,
    ensures
        xsum(f, lo, hi) == f(a),
{
    lemma_xsum_range(f, lo, a, hi);
    lemma_xsum_zero(f, lo, a);
    lemma_xsum_split(f, a, hi);
    lemma_xsum_zero(f, a + 1, hi);
    lemma_xor(f(a), 0u8, 0u8);
    lemma_xor(0u8, f(a), 0u8);
}

/// The first `col` columns of the first `n` rows are those of the identity matrix.
spec fn identity_upto(m: Seq<u8>, col: int, n: int) -> bool {
    forall|r: int, j: int|
        0 <= r < n && 0 <= j < col ==> #[trigger] cell(m, r, j) == if r == j {
            1u8
        } else {
            0u8
        }
}

/// The vector that a missing pivot in column `col` makes a nonzero solution of the
/// homogeneous system.
spec fn pivotless(m: Seq<u8>, col: int, n: int) -> Seq<u8> {
    Seq::new(n as nat, |k: int| if k < col { cell(m, k, col) } else if k == col { 1u8 } else { 0u8 })
}

proof fn lemma_no_pivot(m: Seq<u8>, col: int, n: int)
    requires
        0 <= col < n,
        identity_upto(m, col, n),
        forall|r: int| col <= r < n ==> #[trigger] cell(m, r, col) == 0u8,
    ensures
        kernel(m, pivotless(m, col, n), n),
{
    let x = pivotless(m, col, n);
    assert forall|r: int| 0 <= r < n implies #[trigger] row_dot(m, r, x, n) == 0u8 by {
        let f = |k: int| gf_mul(cell(m, r, k), x[k]);
        assert forall|k: int| 0 <= k < n && k > col implies #[trigger] f(k) == 0u8 by {
            lemma_mul_identity(cell(m, r, k));
        }
        lemma_xsum_range(f, 0, col, n);
        lemma_xsum_zero(f, col + 1, n);
        lemma_xsum_split(f, col, n);
        if r < col {
            assert forall|k: int| 0 <= k < col && k != r implies #[trigger] f(k) == 0u8 by {
                lemma_mul_identity(x[k]);
            }
            lemma_xsum_one(f, 0, col, r);
            lemma_mul_identity(cell(m, r, col));
            lemma_xor(cell(m, r, col), 0u8, 0u8);
        } else {
            assert forall|k: int| 0 <= k < col implies #[trigger] f(k) == 0u8 by {
                lemma_mul_identity(x[k]);
            }
            lemma_xsum_zero(f, 0, col);
            lemma_mul_identity(1u8);
            lemma_xor(0u8, 0u8, 0u8);
        }
    }
}

proof fn lemma_identity_solution(m: Seq<u8>, x: Seq<u8>, n: int)
    requires
        0 <= n,
        identity_upto(m, n, n),
        forall|k: int| 0 <= k < n ==> #[trigger] x[k] == cell(m, k, n),
    ensures
        solves(m, x, n),
{
    assert forall|r: int| 0 <= r < n implies #[trigger] row_dot(m, r, x, n) == cell(m, r, n) by {
        let f = |k: int| gf_mul(cell(m, r, k), x[k]);
        assert forall|k: int| 0 <= k < n && k != r implies #[trigger] f(k) == 0u8 by {
            lemma_mul_identity(x[k]);
        }
        lemma_xsum_one(f, 0, n, r);
        lemma_mul_identity(x[r]);
    }
}

/// Distinct positions below `len <= 255` give distinct nonzero points.
proof fn lemma_points_distinct(positions: Seq<usize>, len: nat, n: int)
    requires
        n <= 8,
        len <= 255,
        positions.len() == 8,
        distinct_upto(positions, n),
        forall|i: int| 0 <= i < n ==> positions[i] < len,
    ensures
        forall|p: int| 0 <= p < n ==> #[trigger] error_points(positions, len)[p] != 0u8,
        forall|p: int, q: int|
            0 <= p < q < n ==> #[trigger] error_points(positions, len)[p] != #[trigger] error_points(
                positions,
                len,
            )[q],
{
    let xs = error_points(positions, len);
    assert forall|p: int| 0 <= p < n implies #[trigger] xs[p] != 0u8 by {
        lemma_pow_nonzero_any(2u8, ((len - 1 - positions[p]) as nat) % 255);
    }
    assert forall|p: int, q: int| 0 <= p < q < n implies #[trigger] xs[p] != #[trigger] xs[q] by {
        let a = (len - 1 - positions[p]) as nat;
        let b = (len - 1 - positions[q]) as nat;
        assert(positions[p] != positions[q]);
        lemma_alpha_ratio(a, b);
        lemma_alpha_ratio(b, b);
    }
}

/// Forney step by Gaussian elimination: the error values at the located positions, the
/// solution `v` of the Vandermonde system `sum_k v[k] * X_k^r == synd[r]` for `r < count`,
/// with `X_k` the point of position `k`. For pairwise distinct positions the system has a
/// solution and it is found.
#[verifier::spinoff_prover]
fn magnitudes(
    field: &Field,
    synd: &[u8; 16],
    positions: &[usize; 8],
    count: usize,
    len: usize,
) -> (res: Option<[u8; 8]>)
    requires
        count <= 8,
        len <= 255,
        forall|i: int| 0 <= i < count ==> positions@[i] < len,
    ensures
        distinct_upto(positions@, count as int) ==> res is Some,
        res matches Some(v) ==> forall|r: nat|
            r < count ==> #[trigger] power_sum(error_points(positions@, len as nat), v@, count as int, r)
                == synd@[r as int],
{
    let ghost n = count as int;
    let ghost xs = error_points(positions@, len as nat);
    // row-major count x (count + 1) augmented matrix, nine columns per row
    let mut matrix = [0u8; 72];
    let mut row: usize = 0;
    while row < count
        invariant
            row <= count <= 8,
            len <= 255,
            forall|i: int| 0 <= i < count ==> positions@[i] < len,
            matrix@.len() == 72,
            xs == error_points(positions@, len as nat),
            forall|r: int, k: int|
                0 <= r < row && 0 <= k < count ==> #[trigger] cell(matrix@, r, k) == gf_pow(xs[k], r as nat),
            forall|r: int| 0 <= r < row ==> #[trigger] cell(matrix@, r, count as int) == synd@[r],
        decreases count - row,
    {
        let mut col: usize = 0;
        while col < count
            invariant
                col <= count <= 8,
                row < count,
                len <= 255,
                forall|i: int| 0 <= i < count ==> positions@[i] < len,
                matrix@.len() == 72,
                xs == error_points(positions@, len as nat),
                forall|r: int, k: int|
                    0 <= r < row && 0 <= k < count ==> #[trigger] cell(matrix@, r, k) == gf_pow(
                        xs[k],
                        r as nat,
                    ),
                forall|r: int| 0 <= r < row ==> #[trigger] cell(matrix@, r, count as int) == synd@[r],
                forall|k: int| 0 <= k < col ==> #[trigger] cell(matrix@, row as int, k) == gf_pow(
                    xs[k],
                    row as nat,
                ),
            decreases count - col,
        {
            assert(positions@[col as int] < len);
            let base = len - 1 - positions[col];
            assert(base * row <= 254 * 8) by (nonlinear_arith)
                requires
                    base <= 254,
                    row < 8,
            ;
            let power = base * row;
            let idx = at(row, col);
            let ghost before = matrix@;
            let value = field.alpha(power);
            matrix[idx] = value;
            proof {
                lemma_cell_update(before, row as int, col as int, value);
                lemma_alpha_pow_pow(base as nat, row as nat);
            }
            col += 1;
        }
        let idx = at(row, count);
        let ghost before = matrix@;
        matrix[idx] = synd[row];
        proof {
            lemma_cell_update(before, row as int, count as int, synd[row as int]);
        }
        row += 1;
    }
    let ghost m0 = matrix@;
    proof {
        assert forall|x: Seq<u8>, r: int| 0 <= r < n implies #[trigger] row_dot(m0, r, x, n) == power_sum(
            xs,
            x,
            n,
            r as nat,
        ) by {
            assert forall|k: int| 0 <= k < n implies #[trigger] gf_mul(cell(m0, r, k), x[k]) == gf_mul(
                gf_pow(xs[k], r as nat),
                x[k],
            ) by {
                assert(cell(m0, r, k) == gf_pow(xs[k], r as nat));
            }
            lemma_xsum_ext(
                |k: int| gf_mul(cell(m0, r, k), x[k]),
                |k: int| gf_mul(gf_pow(xs[k], r as nat), x[k]),
                0,
                n,
            );
        }
    }

    let mut col: usize = 0;
    while col < count
        invariant
            col <= count <= 8,
            n == count,
            len <= 255,
            forall|i: int| 0 <= i < count ==> positions@[i] < len,
            xs == error_points(positions@, len as nat),
            matrix@.len() == 72,
            equivalent(m0, matrix@, n),
            identity_upto(matrix@, col as int, n),
            forall|x: Seq<u8>, r: int| 0 <= r < n ==> #[trigger] row_dot(m0, r, x, n) == power_sum(xs, x, n, r as nat),
            forall|r: int| 0 <= r < n ==> #[trigger] cell(m0, r, n) == synd@[r],
        decreases count - col,
    {
        // find a pivot row
        let mut pivot = col;
        while pivot < count && matrix[at(pivot, col)] == 0
            invariant
                col <= pivot <= count <= 8,
                matrix@.len() == 72,
                forall|r: int| col <= r < pivot ==> #[trigger] cell(matrix@, r, col as int) == 0u8,
            decreases count - pivot,
        {
            pivot += 1;
        }
        if pivot == count {
            proof {
                if distinct_upto(positions@, n) {
                    let x = pivotless(matrix@, col as int, n);
                    lemma_no_pivot(matrix@, col as int, n);
                    assert(kernel(matrix@, x, n));
                    assert(kernel(m0, x, n));
                    assert forall|r: nat| r < n implies #[trigger] power_sum(xs, x, n, 0 + r) == 0u8 by {
                        assert(row_dot(m0, r as int, x, n) == 0u8);
                    }
                    lemma_points_distinct(positions@, len as nat, n);
                    lemma_vandermonde(xs, x, n as nat, 0);
                    assert(x[col as int] == 0u8);
                }
            }
            return None;
        }
        // swap rows `col` and `pivot`
        let ghost ms = matrix@;
        assert(cell(ms, pivot as int, col as int) != 0u8);
        let mut k: usize = 0;
        while k < 9
            invariant
                k <= 9,
                col <= pivot < count <= 8,
                matrix@.len() == 72,
                forall|j: int|
                    0 <= j < k ==> #[trigger] cell(matrix@, col as int, j) == cell(ms, pivot as int, j)
                        && cell(matrix@, pivot as int, j) == cell(ms, col as int, j),
                forall|j: int|
                    k <= j < 9 ==> #[trigger] cell(matrix@, col as int, j) == cell(ms, col as int, j)
                        && cell(matrix@, pivot as int, j) == cell(ms, pivot as int, j),
                forall|r: int, j: int|
                    0 <= r < 8 && 0 <= j < 9 && r != col && r != pivot ==> #[trigger] cell(matrix@, r, j)
                        == cell(ms, r, j),
            decreases 9 - k,
        {
            let ghost before = matrix@;
            let a = at(col, k);
            let b = at(pivot, k);
            let t = matrix[a];
            let u = matrix[b];
            assert(t == cell(before, col as int, k as int));
            assert(cell(before, col as int, k as int) == cell(ms, col as int, k as int));
            assert(u == cell(before, pivot as int, k as int));
            assert(cell(before, pivot as int, k as int) == cell(ms, pivot as int, k as int));
            matrix[a] = u;
            let ghost mid = matrix@;
            proof {
                lemma_cell_update(before, col as int, k as int, u);
                assert(mid == before.update(col * 9 + k, u));
            }
            matrix[b] = t;
            proof {
                lemma_cell_update(mid, pivot as int, k as int, t);
                assert(matrix@ == mid.update(pivot * 9 + k, t));
                assert(cell(matrix@, col as int, k as int) == cell(ms, pivot as int, k as int));
                assert(cell(matrix@, pivot as int, k as int) == cell(ms, col as int, k as int));
                assert forall|j: int| k < j < 9 implies #[trigger] cell(matrix@, col as int, j) == cell(
                    ms,
                    col as int,
                    j,
                ) && cell(matrix@, pivot as int, j) == cell(ms, pivot as int, j) by {
                    assert(cell(before, col as int, j) == cell(ms, col as int, j));
                    assert(cell(before, pivot as int, j) == cell(ms, pivot as int, j));
                    assert(cell(mid, col as int, j) == cell(before, col as int, j));
                    assert(cell(mid, pivot as int, j) == cell(before, pivot as int, j));
                }
                assert forall|j: int| 0 <= j < k implies #[trigger] cell(matrix@, col as int, j) == cell(
                    ms,
                    pivot as int,
                    j,
                ) && cell(matrix@, pivot as int, j) == cell(ms, col as int, j) by {
                    assert(cell(before, col as int, j) == cell(ms, pivot as int, j));
                    assert(cell(before, pivot as int, j) == cell(ms, col as int, j));
                    assert(cell(mid, col as int, j) == cell(before, col as int, j));
                    assert(cell(mid, pivot as int, j) == cell(before, pivot as int, j));
                }
                assert forall|r: int, j: int|
                    0 <= r < 8 && 0 <= j < 9 && r != col && r != pivot implies #[trigger] cell(matrix@, r, j)
                        == cell(ms, r, j) by {
                    assert(cell(before, r, j) == cell(ms, r, j));
                    assert(cell(mid, r, j) == cell(before, r, j));
                }
            }
            k += 1;
        }
        proof {
            assert forall|r: int, c: int| 0 <= r < n && 0 <= c <= n implies #[trigger] cell(matrix@, r, c)
                == cell(
                ms,
                if r == col {
                    pivot as int
                } else if r == pivot {
                    col as int
                } else {
                    r
                },
                c,
            ) by {
                if r == col {
                    assert(cell(matrix@, col as int, c) == cell(ms, pivot as int, c));
                } else if r == pivot {
                    assert(cell(matrix@, pivot as int, c) == cell(ms, col as int, c));
                }
            }
            assert(swapped(ms, matrix@, col as int, pivot as int, n));
            lemma_swap_equiv(ms, matrix@, col as int, pivot as int, n);
            lemma_equiv_trans(m0, ms, matrix@, n);
            assert forall|r: int, j: int| 0 <= r < n && 0 <= j < col implies #[trigger] cell(matrix@, r, j)
                == if r == j {
                1u8
            } else {
                0u8
            } by {
                if r == col {
                    assert(cell(ms, pivot as int, j) == 0u8);
                } else if r == pivot {
                    assert(cell(ms, col as int, j) == 0u8);
                } else {
                    assert(cell(ms, r, j) == if r == j {
                        1u8
                    } else {
                        0u8
                    });
                }
            }
        }

        let scale = matrix[at(col, col)];
        assert(scale == cell(matrix@, col as int, col as int));
        assert(scale != 0u8);
        let ghost m1 = matrix@;
        let mut k = col;
        while k <= count
            invariant
                col <= k <= count + 1,
                col < count <= 8,
                scale != 0,
                matrix@.len() == 72,
                forall|j: int|
                    col <= j < k ==> #[trigger] cell(matrix@, col as int, j) == gf_div(cell(m1, col as int, j), scale),
                forall|r: int, j: int|
                    0 <= r < 8 && 0 <= j < 9 && !(r == col && col <= j < k) ==> #[trigger] cell(matrix@, r, j)
                        == cell(m1, r, j),
            decreases count + 1 - k,
        {
            let idx = at(col, k);
            let ghost before = matrix@;
            assert(matrix[idx as int] == cell(before, col as int, k as int));
            assert(cell(before, col as int, k as int) == cell(m1, col as int, k as int));
            let value = field.div(matrix[idx], scale);
            matrix[idx] = value;
            proof {
                lemma_cell_update(before, col as int, k as int, value);
                assert(matrix@ == before.update(col * 9 + k, value));
                assert(cell(matrix@, col as int, k as int) == value);
                assert forall|j: int| col <= j < k + 1 implies #[trigger] cell(matrix@, col as int, j) == gf_div(
                    cell(m1, col as int, j),
                    scale,
                ) by {
                    if j < k {
                        assert(cell(before, col as int, j) == gf_div(cell(m1, col as int, j), scale));
                    }
                }
                assert forall|r: int, j: int|
                    0 <= r < 8 && 0 <= j < 9 && !(r == col && col <= j < k + 1) implies #[trigger] cell(
                        matrix@,
                        r,
                        j,
                    ) == cell(m1, r, j) by {
                    assert(cell(before, r, j) == cell(m1, r, j));
                }
            }
            k += 1;
        }
        proof {
            assert forall|r: int, c: int| 0 <= r < n && 0 <= c <= n implies #[trigger] cell(matrix@, r, c)
                == if r == col {
                gf_div(cell(m1, r, c), scale)
            } else {
                cell(m1, r, c)
            } by {
                if r == col && c < col {
                    assert(cell(m1, r, c) == 0u8);
                    lemma_mul_identity(crate::gf::gf_inv(scale));
                }
            }
            assert(row_scaled(m1, matrix@, col as int, scale, n));
            lemma_scale_equiv(m1, matrix@, col as int, scale, n);
            lemma_equiv_trans(m0, m1, matrix@, n);
            lemma_div_cancel(1u8, scale);
            lemma_mul_identity(scale);
            assert(cell(matrix@, col as int, col as int) == 1u8);
        }

        let mut row: usize = 0;
        while row < count
            invariant
                row <= count <= 8,
                col < count,
                n == count,
                matrix@.len() == 72,
                equivalent(m0, matrix@, n),
                identity_upto(matrix@, col as int, n),
                cell(matrix@, col as int, col as int) == 1u8,
                forall|r: int| 0 <= r < row && r != col ==> #[trigger] cell(matrix@, r, col as int) == 0u8,
            decreases count - row,
        {
            let factor = matrix[at(row, col)];
            if row != col && factor != 0 {
                let pivot_row = matrix;
                let ghost mb = matrix@;
                let mut k = col;
                while k <= count
                    invariant
                        col <= k <= count + 1,
                        col < count <= 8,
                        row < count,
                        row != col,
                        matrix@.len() == 72,
                        pivot_row@ == mb,
                        forall|j: int|
                            col <= j < k ==> #[trigger] cell(matrix@, row as int, j) == cell(mb, row as int, j)
                                ^ gf_mul(factor, cell(mb, col as int, j)),
                        forall|r: int, j: int|
                            0 <= r < 8 && 0 <= j < 9 && !(r == row && col <= j < k) ==> #[trigger] cell(
                                matrix@,
                                r,
                                j,
                            ) == cell(mb, r, j),
                    decreases count + 1 - k,
                {
                    let idx = at(row, k);
                    let ghost before = matrix@;
                    let pidx = at(col, k);
                    assert(pivot_row[pidx as int] == cell(mb, col as int, k as int));
                    assert(matrix[idx as int] == cell(before, row as int, k as int));
                    assert(cell(before, row as int, k as int) == cell(mb, row as int, k as int));
                    let m = field.mul(factor, pivot_row[pidx]);
                    let value = matrix[idx] ^ m;
                    matrix[idx] = value;
                    proof {
                        lemma_cell_update(before, row as int, k as int, value);
                        assert(matrix@ == before.update(row * 9 + k, value));
                        assert(cell(matrix@, row as int, k as int) == value);
                        assert forall|j: int| col <= j < k + 1 implies #[trigger] cell(matrix@, row as int, j)
                            == cell(mb, row as int, j) ^ gf_mul(factor, cell(mb, col as int, j)) by {
                            if j < k {
                                assert(cell(before, row as int, j) == cell(mb, row as int, j) ^ gf_mul(
                                    factor,
                                    cell(mb, col as int, j),
                                ));
                            }
                        }
                        assert forall|r: int, j: int|
                            0 <= r < 8 && 0 <= j < 9 && !(r == row && col <= j < k + 1) implies #[trigger] cell(
                                matrix@,
                                r,
                                j,
                            ) == cell(mb, r, j) by {
                            assert(cell(before, r, j) == cell(mb, r, j));
                        }
                    }
                    k += 1;
                }
                proof {
                    assert forall|r: int, c: int| 0 <= r < n && 0 <= c <= n implies #[trigger] cell(
                        matrix@,
                        r,
                        c,
                    ) == if r == row {
                        cell(mb, row as int, c) ^ gf_mul(factor, cell(mb, col as int, c))
                    } else {
                        cell(mb, r, c)
                    } by {
                        if r == row && c < col {
                            assert(cell(mb, col as int, c) == 0u8);
                            lemma_mul_identity(factor);
                            lemma_xor(cell(mb, r, c), 0u8, 0u8);
                        }
                    }
                    assert(row_reduced(mb, matrix@, row as int, col as int, factor, n));
                    lemma_reduce_equiv(mb, matrix@, row as int, col as int, factor, n);
                    lemma_equiv_trans(m0, mb, matrix@, n);
                    lemma_mul_identity(factor);
                    lemma_xor(factor, 0u8, 0u8);
                }
            }
            row += 1;
        }
        proof {
            assert forall|r: int, j: int| 0 <= r < n && 0 <= j < col + 1 implies #[trigger] cell(matrix@, r, j)
                == if r == j {
                1u8
            } else {
                0u8
            } by {
                if j == col && r != col {
                    assert(cell(matrix@, r, col as int) == 0u8);
                }
            }
        }
        col += 1;
    }

    let mut values = [0u8; 8];
    let mut i: usize = 0;
    while i < count
        invariant
            i <= count <= 8,
            n == count,
            matrix@.len() == 72,
            values@.len() == 8,
            forall|k: int| 0 <= k < i ==> #[trigger] values@[k] == cell(matrix@, k, n),
        decreases count - i,
    {
        values[i] = matrix[at(i, count)];
        i += 1;
    }
    proof {
        lemma_identity_solution(matrix@, values@, n);
        assert(solves(matrix@, values@, n));
        assert(solves(m0, values@, n));
        assert forall|r: nat| r < count implies #[trigger] power_sum(xs, values@, n, r) == synd@[r as int] by {
            assert(row_dot(m0, r as int, values@, n) == cell(m0, r as int, n));
        }
    }
    Some(values)
}

/// Chien search finds exactly the positions at which the locator vanishes; where those are
/// the error positions, it finds the error positions.
proof fn lemma_roots_match(c: Seq<u8>, degree: int, len: nat, a: Seq<u8>, b: Seq<u8>, n: nat)
    requires
        n <= len,
        forall|pos: int| 0 <= pos < len ==> #[trigger] root_at(c, degree, len, pos) == (a[pos] != b[pos]),
    ensures
        roots_upto(c, degree, len, n) == diff_positions(a, b, n),
    decreases n,
{
    if n > 0 {
        lemma_roots_match(c, degree, len, a, b, (n - 1) as nat);
        assert(root_at(c, degree, len, n - 1) == (a[n - 1] != b[n - 1]));
    }
}

/// A position is a root of the locator exactly when the reversed locator vanishes at its point.
proof fn lemma_root_at(c: Seq<u8>, degree: nat, len: nat, pos: int)
    requires
        0 <= pos < len <= 255,
        c.len() >= degree + 1,
    ensures
        root_at(c, degree as int, len, pos) == (horner(c.take((degree + 1) as int), alpha_pow((len - 1 - pos) as nat))
            == 0u8),
{
    let m = (len - 1 - pos) as nat;
    let x = alpha_pow(m);
    let y = inverse_point(len, pos);
    lemma_alpha_ratio(m, m);
    let sub = c.subrange(0, (degree + 1) as int);
    assert(sub =~= c.take((degree + 1) as int));
    lemma_horner_reverse(sub, x, y);
    lemma_pow_nonzero_any(2u8, m % 255);
    lemma_pow_nonzero_any(x, degree);
    lemma_mul_identity(gf_pow(x, degree));
    if horner(sub.reverse(), y) != 0u8 && horner(sub, x) == 0u8 {
        lemma_no_zero_divisor(horner(sub.reverse(), y), gf_pow(x, degree));
    }
}

/// Correct `code` (data followed by `nsym` parity symbols) in place.
///
/// Any codeword within `nsym / 2` symbols of `code` is restored, and the number of symbols
/// changed returned; when there is none, `None` is returned.
pub fn decode(code: &mut [u8], data_len: usize, nsym: usize) -> (res: Option<usize>)
    requires
        nsym == 2 || nsym == 4 || nsym == 6 || nsym == 8 || nsym == 16,
        old(code)@.len() == data_len + nsym,
        old(code)@.len() <= 255,
    ensures
        final(code)@.len() == old(code)@.len(),
        (res == Some(0usize)) == is_codeword(old(code)@, nsym as nat),
        is_codeword(old(code)@, nsym as nat) ==> final(code)@ == old(code)@,
        res matches Some(n) ==> {
            &&& is_codeword(final(code)@, nsym as nat)
            &&& n <= nsym / 2
            &&& diff_count(old(code)@, final(code)@) == n
        },
        res is None ==> diff_count(old(code)@, final(code)@) <= nsym / 2,
        forall|w: Seq<u8>|
            is_codeword(w, nsym as nat) && w.len() == old(code)@.len() && #[trigger] diff_count(
                old(code)@,
                w,
            ) <= nsym / 2 ==> res == Some(diff_count(old(code)@, w) as usize) && final(code)@ == w,
{
    let ghost received = code@;
    let ghost len = received.len();
    let ghost t = nsym / 2;
    // the codeword within `nsym / 2` symbols, if there is one, and its errors
    let ghost near = exists|v: Seq<u8>|
        is_codeword(v, nsym as nat) && v.len() == len && #[trigger] diff_count(received, v) <= t;
    let ghost w = if near {
        choose|v: Seq<u8>| is_codeword(v, nsym as nat) && v.len() == len && #[trigger] diff_count(received, v) <= t
    } else {
        received
    };
    let ghost ps = diff_positions(received, w, len);
    let ghost nu = ps.len();
    let ghost ys = error_locations(received, w);
    let ghost es = error_values(received, w);
    proof {
        lemma_diff_count_same(received);
        lemma_diff_positions(received, w, len);
        assert(received.take(len as int) =~= received);
        assert(w.take(len as int) =~= w);
        lemma_error_points(received, w);
        // every codeword within reach is the chosen one
        assert forall|v: Seq<u8>|
            is_codeword(v, nsym as nat) && v.len() == len && #[trigger] diff_count(received, v) <= t
                implies v == w by {
            lemma_diff_symmetric(received, w);
            lemma_diff_triangle(w, received, v);
            lemma_codeword_separation(w, v, nsym as nat);
        }
    }
    let field = Field::new();
    let synd = syndromes(&field, code, nsym);
    proof {
        if near {
            assert forall|j: int| 0 <= j < nsym implies #[trigger] synd@[j] == power_sum(ys, es, nu as int, j as nat) by {
                lemma_error_sum(received, w, j as nat);
                assert(synd@[j] == horner(received, alpha_pow(j as nat)));
                assert(horner(w, alpha_pow(j as nat)) == 0u8);
                lemma_xor(synd@[j], 0u8, 0u8);
            }
        }
    }
    if all_zero(&synd, nsym) {
        proof {
            assert forall|r: nat| r < nsym implies #[trigger] horner(code@, alpha_pow(r)) == 0u8 by {
                assert(synd@[r as int] == 0u8);
            }
            if near {
                lemma_codeword_separation(received, w, nsym as nat);
            }
        }
        return Some(0);
    }
    assert(!is_codeword(code@, nsym as nat)) by {
        let i = choose|i: int| 0 <= i < nsym && synd@[i] != 0u8;
        assert(synd@[i] == horner(code@, alpha_pow(i as nat)));
    }
    proof {
        if near && nu == 0 {
            lemma_diff_zero(received, w);
        }
    }

    let (loc, degree) = locator(&field, &synd, nsym);
    let ghost c = loc@;
    proof {
        if near {
            // the error locator generates the syndromes, so the shortest one is no longer
            lemma_prod_poly(ys, nu);
            let lam = prod_poly(ys, nu);
            assert(lam.take((nu + 1) as int) =~= lam);
            assert forall|k: int| nu <= k < nsym implies #[trigger] disc(lam, synd@, k, nu) == 0u8 by {
                lemma_disc_power_sum(lam, synd@, ys, es, nu, nu, k);
                let z = weighted(lam, nu, ys, es, nu);
                let f = |q: int| gf_mul(gf_pow(ys[q], (k - nu) as nat), z[q]);
                assert forall|q: int| 0 <= q < nu implies #[trigger] f(q) == 0u8 by {
                    assert(horner(lam, ys[q]) == 0u8);
                    lemma_mul_identity(es[q]);
                    lemma_mul_identity(gf_pow(ys[q], (k - nu) as nat));
                }
                lemma_xsum_zero(f, 0, nu as int);
            }
            assert(generates(lam, synd@, nu, nsym as int));
            assert(degree <= nu);
            // the locator vanishes at every error location
            let z = weighted(c, degree as nat, ys, es, nu);
            assert forall|r: nat| r < nu implies #[trigger] power_sum(ys, z, nu as int, 0 + r) == 0u8 by {
                let k = degree + r;
                lemma_disc_power_sum(c, synd@, ys, es, nu, degree as nat, k);
                assert(disc(c, synd@, k, degree as nat) == 0u8);
            }
            lemma_vandermonde(ys, z, nu, 0);
            assert forall|q: int| 0 <= q < nu implies #[trigger] horner(c.take(degree + 1), ys[q]) == 0u8 by {
                assert(z[q] == 0u8);
                lemma_no_zero_divisor(horner(c.take(degree + 1), ys[q]), es[q]);
            }
            lemma_root_bound(c.take(degree + 1), ys, nu);
            assert(degree == nu);
        }
    }
    if degree == 0 || degree > nsym / 2 || degree > 8 {
        return None;
    }

    let (positions, count) = positions(&field, &loc, degree, code.len());
    proof {
        if near {
            // the roots of the locator are exactly the error positions
            assert forall|pos: int| 0 <= pos < len implies #[trigger] root_at(c, degree as int, len, pos)
                == (received[pos] != w[pos]) by {
                lemma_root_at(c, degree as nat, len, pos);
                let x = alpha_pow((len - 1 - pos) as nat);
                if received[pos] != w[pos] {
                    let q = choose|q: int| 0 <= q < ps.len() && #[trigger] ps[q] == pos;
                    assert(ys[q] == x);
                } else if horner(c.take(degree + 1), x) == 0u8 {
                    let xs2 = ys.push(x);
                    assert forall|i: int, j: int| 0 <= i < j < nu + 1 implies #[trigger] xs2[i] != #[trigger] xs2[j] by {
                        if j == nu {
                            assert(ps[i] != pos);
                            lemma_alpha_ratio((len - 1 - ps[i]) as nat, (len - 1 - pos) as nat);
                            lemma_alpha_ratio((len - 1 - pos) as nat, (len - 1 - pos) as nat);
                        } else {
                            assert(ys[i] != ys[j]);
                        }
                    }
                    assert forall|i: int| 0 <= i < nu + 1 implies #[trigger] horner(c.take(degree + 1), xs2[i]) == 0u8 by {
                        if i < nu {
                            assert(xs2[i] == ys[i]);
                        }
                    }
                    lemma_root_bound(c.take(degree + 1), xs2, nu + 1);
                }
            }
            lemma_roots_match(c, degree as int, len, received, w, len);
        }
    }
    if count != degree || count > 8 {
        return None;
    }
    proof {
        if near {
            assert forall|i: int, j: int| 0 <= i < j < count implies #[trigger] positions@[i] != #[trigger] positions@[j] by {
                assert(ps[i] < ps[j]);
            }
        }
    }
    let values = match magnitudes(&field, &synd, &positions, count, code.len()) {
        Some(values) => values,
        None => return None,
    };
    proof {
        if near {
            // the error values solve the same Vandermonde system, which has one solution
            let d = Seq::new(nu, |q: int| values@[q] ^ es[q]);
            assert forall|r: nat| r < nu implies #[trigger] power_sum(ys, d, nu as int, 0 + r) == 0u8 by {
                let xe = error_points(positions@, len);
                assert(power_sum(xe, values@, nu as int, r) == synd@[r as int]);
                lemma_xsum_ext(
                    |k: int| gf_mul(gf_pow(xe[k], r), values@[k]),
                    |k: int| gf_mul(gf_pow(ys[k], r), values@[k]),
                    0,
                    nu as int,
                );
                let fv = |k: int| gf_mul(gf_pow(ys[k], r), values@[k]);
                let fe = |k: int| gf_mul(gf_pow(ys[k], r), es[k]);
                lemma_xsum_xor(fv, fe, 0, nu as int);
                assert forall|k: int| 0 <= k < nu implies #[trigger] gf_mul(gf_pow(ys[k], r), d[k]) == fv(k) ^ fe(k) by {
                    lemma_mul_distributes(gf_pow(ys[k], r), values@[k], es[k]);
                }
                lemma_xsum_ext(|k: int| gf_mul(gf_pow(ys[k], r), d[k]), |k: int| fv(k) ^ fe(k), 0, nu as int);
                lemma_xor(synd@[r as int], 0u8, 0u8);
            }
            lemma_vandermonde(ys, d, nu, 0);
            assert forall|q: int| 0 <= q < nu implies #[trigger] values@[q] == es[q] by {
                assert(d[q] == 0u8);
                lemma_xor(values@[q], es[q], 0u8);
            }
        }
    }
    let mut i: usize = 0;
    while i < count
        invariant
            i <= count <= 8,
            count <= code@.len(),
            code@.len() == received.len(),
            len == received.len(),
            forall|t: int| 0 <= t < count ==> positions@[t] < code@.len(),
            diff_count(received, code@) <= i,
            near ==> count == nu && w.len() == len,
            near ==> forall|q: int| 0 <= q < nu ==> #[trigger] positions@[q] == ps[q] && values@[q] == es[q],
            near ==> forall|q: int, r: int| 0 <= q < r < nu ==> #[trigger] ps[q] < #[trigger] ps[r],
            near ==> forall|q: int| 0 <= q < nu ==> 0 <= #[trigger] ps[q] < len && received[ps[q]] != w[ps[q]],
            near ==> forall|j: int| 0 <= j < len && received[j] != w[j] ==> exists|q: int|
                0 <= q < nu && #[trigger] ps[q] == j,
            near ==> forall|j: int|
                0 <= j < len ==> #[trigger] code@[j] == if j < (if i < nu {
                    ps[i as int]
                } else {
                    len as int
                }) {
                    w[j]
                } else {
                    received[j]
                },
            forall|q: int| 0 <= q < nu ==> #[trigger] es[q] == received[ps[q]] ^ w[ps[q]],
        decreases count - i,
    {
        let p = positions[i];
        let ghost before = code@;
        proof {
            lemma_diff_count_update(received, code@, p as int, code@[p as int] ^ values@[i as int]);
        }
        code[p] = code[p] ^ values[i];
        proof {
            if near {
                let lim0 = ps[i as int];
                let lim1 = if i + 1 < nu { ps[i + 1] } else { len as int };
                assert forall|j: int| 0 <= j < len implies #[trigger] code@[j] == if j < lim1 {
                    w[j]
                } else {
                    received[j]
                } by {
                    if j == lim0 {
                        let r = received[j];
                        let v = w[j];
                        lemma_xor(r, r, v);
                        lemma_xor(r, 0u8, 0u8);
                        lemma_xor(v, 0u8, 0u8);
                        assert(before[j] == r);
                    } else if lim0 < j < lim1 {
                        if received[j] != w[j] {
                            let q = choose|q: int| 0 <= q < nu && #[trigger] ps[q] == j;
                            if q <= i {
                                if q < i {
                                    assert(ps[q] < ps[i as int]);
                                }
                            } else if i + 1 < nu {
                                if q > i + 1 {
                                    assert(ps[i + 1] < ps[q]);
                                }
                            }
                        }
                    } else {
                        assert(before[j] == code@[j]);
                    }
                }
            }
        }
        i += 1;
    }
    proof {
        if near {
            assert(code@ =~= w);
        }
    }

    let check = syndromes(&field, code, nsym);
    if all_zero(&check, nsym) {
        proof {
            assert forall|r: nat| r < nsym implies #[trigger] horner(code@, alpha_pow(r)) == 0u8 by {
                assert(check@[r as int] == 0u8);
            }
            if !near {
                assert(diff_count(received, code@) <= t);
            }
        }
        Some(count)
    } else {
        proof {
            if near {
                let j = choose|j: int| 0 <= j < nsym && check@[j] != 0u8;
                assert(check@[j] == horner(code@, alpha_pow(j as nat)));
            }
        }
        None
    }
}

} // verus!
