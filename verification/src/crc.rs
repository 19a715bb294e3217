//! CRC-16/X-25 and its transmission as four Hamming (7,4) codewords.
use vstd::prelude::*;
use crate::error::Error;
use crate::poly::lemma_xor;

verus! {

/// Hamming (7,4) codewords of the sixteen nibbles.
const HAMMING: [u8; 16] = [
    0x00, 0x71, 0x62, 0x13, 0x54, 0x25, 0x36, 0x47, 0x38, 0x49, 0x5a, 0x2b, 0x6c, 0x1d, 0x0e, 0x7f,
];

/// Hamming (7,4) codeword of the nibble `n`.
pub open spec fn ham(n: u8) -> u8 {
    if n == 0 { 0x00u8 }
    else if n == 1 { 0x71u8 }
    else if n == 2 { 0x62u8 }
    else if n == 3 { 0x13u8 }
    else if n == 4 { 0x54u8 }
    else if n == 5 { 0x25u8 }
    else if n == 6 { 0x36u8 }
    else if n == 7 { 0x47u8 }
    else if n == 8 { 0x38u8 }
    else if n == 9 { 0x49u8 }
    else if n == 10 { 0x5au8 }
    else if n == 11 { 0x2bu8 }
    else if n == 12 { 0x6cu8 }
    else if n == 13 { 0x1du8 }
    else if n == 14 { 0x0eu8 }
    else { 0x7fu8 }
}

proof fn lemma_table()
    ensures
        forall|i: int| 0 <= i < 16 ==> #[trigger] HAMMING@[i] == ham(i as u8),
{
}

/// One bit of the reflected CRC register with polynomial 0x8408.
pub open spec fn crc_shift(c: u16) -> u16 {
    if c & 1u16 != 0 {
        (c >> 1u16) ^ 0x8408u16
    } else {
        c >> 1u16
    }
}

/// `n` register shifts.
pub open spec fn crc_shifts(c: u16, n: nat) -> u16
    decreases n,
{
    if n == 0 {
        c
    } else {
        crc_shift(crc_shifts(c, (n - 1) as nat))
    }
}

/// The CRC register after absorbing one byte.
pub open spec fn crc_update(c: u16, byte: u8) -> u16 {
    crc_shifts(c ^ (byte as u16), 8)
}

/// The CRC register after absorbing `data`, starting from `init`.
pub open spec fn crc_run(init: u16, data: Seq<u8>) -> u16
    decreases data.len(),
{
    if data.len() == 0 {
        init
    } else {
        crc_update(crc_run(init, data.drop_last()), data.last())
    }
}

/// CRC-16/X-25 of `data`: register preset to all ones, result complemented.
pub open spec fn spec_crc16(data: Seq<u8>) -> u16 {
    !crc_run(0xffffu16, data)
}

/// CRC-16/X-25, returns complement.
pub fn crc16(data: &[u8]) -> (r: u16)
    ensures
        r == spec_crc16(data@),
{
    let mut crc: u16 = 0xffff;
    let mut i: usize = 0;
    while i < data.len()
        invariant
            i <= data@.len(),
            crc == crc_run(0xffffu16, data@.take(i as int)),
        decreases data@.len() - i,
    {
        assert(data@.take(i + 1).drop_last() =~= data@.take(i as int));
        update(&mut crc, data[i]);
        i += 1;
    }
    assert(data@.take(data@.len() as int) =~= data@);
    !crc
}

/// Absorb one byte into the CRC register.
pub fn update(crc: &mut u16, byte: u8)
    ensures
        *final(crc) == crc_update(*old(crc), byte),
{
    *crc = *crc ^ (byte as u16);
    let ghost start = *crc;
    let mut k: usize = 0;
    while k < 8
        invariant
            k <= 8,
            *crc == crc_shifts(start, k as nat),
        decreases 8 - k,
    {
        *crc = if *crc & 1 != 0 {
            (*crc >> 1) ^ 0x8408
        } else {
            *crc >> 1
        };
        k += 1;
    }
}

/// Nibble `k` (0 is the least significant) of `c`.
pub open spec fn nibble(c: u16, k: u16) -> u8 {
    ((c >> (4 * k)) & 0xfu16) as u8
}

/// The four codewords carrying `crc`, most significant nibble first.
pub open spec fn spec_encode(crc: u16) -> Seq<u8> {
    seq![ham(nibble(crc, 3)), ham(nibble(crc, 2)), ham(nibble(crc, 1)), ham(nibble(crc, 0))]
}

/// Encode a CRC as four Hamming (7,4) codewords.
pub fn encode(crc: u16) -> (r: [u8; 4])
    ensures
        r@ == spec_encode(crc),
{
    proof {
        lemma_table();
    }
    let n3 = (crc >> 12) & 0xf;
    let n2 = (crc >> 8) & 0xf;
    let n1 = (crc >> 4) & 0xf;
    let n0 = crc & 0xf;
    assert(n3 < 16 && n2 < 16 && n1 < 16 && n0 < 16 && crc >> 0u16 == crc) by (bit_vector)
        requires
            n3 == (crc >> 12u16) & 0xfu16,
            n2 == (crc >> 8u16) & 0xfu16,
            n1 == (crc >> 4u16) & 0xfu16,
            n0 == crc & 0xfu16,
    ;
    let r = [HAMMING[n3 as usize], HAMMING[n2 as usize], HAMMING[n1 as usize], HAMMING[n0 as usize]];
    assert(r@ =~= spec_encode(crc));
    r
}

/// Number of set bits of `x`.
pub open spec fn ones(x: u8) -> u32 {
    ((x & 1u8) + ((x >> 1u8) & 1u8) + ((x >> 2u8) & 1u8) + ((x >> 3u8) & 1u8) + ((x >> 4u8) & 1u8)
        + ((x >> 5u8) & 1u8) + ((x >> 6u8) & 1u8) + ((x >> 7u8) & 1u8)) as u32
}

fn count_ones(x: u8) -> (r: u32)
    ensures
        r == ones(x),
{
    assert(x & 1u8 <= 1 && (x >> 1u8) & 1u8 <= 1 && (x >> 2u8) & 1u8 <= 1 && (x >> 3u8) & 1u8 <= 1
        && (x >> 4u8) & 1u8 <= 1 && (x >> 5u8) & 1u8 <= 1 && (x >> 6u8) & 1u8 <= 1 && (x >> 7u8)
        & 1u8 <= 1) by (bit_vector);
    (x & 1) as u32 + ((x >> 1) & 1) as u32 + ((x >> 2) & 1) as u32 + ((x >> 3) & 1) as u32 + ((x
        >> 4) & 1) as u32 + ((x >> 5) & 1) as u32 + ((x >> 6) & 1) as u32 + ((x >> 7) & 1) as u32
}

/// The best match among the first `k` codewords: the first index at the least distance.
pub open spec fn nearest_upto(code: u8, k: nat) -> (u16, u32)
    decreases k,
{
    if k == 0 {
        (0u16, u32::MAX)
    } else {
        let (n, d) = nearest_upto(code, (k - 1) as nat);
        let dk = ones(code ^ ham((k - 1) as u8));
        if dk < d {
            ((k - 1) as u16, dk)
        } else {
            (n, d)
        }
    }
}

/// The nibble whose codeword is nearest to `code`, the smallest on a tie.
pub open spec fn nearest(code: u8) -> u16 {
    nearest_upto(code, 16).0
}

/// The CRC carried by four codewords, or the error with which decoding fails.
pub open spec fn spec_decode(data: Seq<u8>) -> Result<u16, Error> {
    if data.len() < 4 {
        Err(Error::Truncated)
    } else if data[0] & 0x80u8 != 0 || data[1] & 0x80u8 != 0 || data[2] & 0x80u8 != 0 || data[3]
        & 0x80u8 != 0 {
        Err(Error::Crc)
    } else {
        Ok(
            (((((((0u16 << 4u16) | nearest(data[0])) << 4u16) | nearest(data[1])) << 4u16) | nearest(
                data[2],
            )) << 4u16) | nearest(data[3]),
        )
    }
}

/// Decode the CRC from the first four codewords of `data`, correcting a bit error in each.
pub fn decode(data: &[u8]) -> (r: Result<u16, Error>)
    ensures
        r == spec_decode(data@),
{
    if data.len() < 4 {
        return Err(Error::Truncated);
    }
    proof {
        lemma_table();
    }
    let mut crc: u16 = 0;
    let mut j: usize = 0;
    while j < 4
        invariant
            j <= 4 <= data@.len(),
            forall|t: int| 0 <= t < j ==> data@[t] & 0x80u8 == 0,
            crc == (if j == 0 { 0u16 } else if j == 1 { (0u16 << 4u16) | nearest(data@[0]) }
                else if j == 2 { (((0u16 << 4u16) | nearest(data@[0])) << 4u16) | nearest(data@[1]) }
                else if j == 3 { (((((0u16 << 4u16) | nearest(data@[0])) << 4u16) | nearest(data@[1])) << 4u16) | nearest(data@[2]) }
                else { (((((((0u16 << 4u16) | nearest(data@[0])) << 4u16) | nearest(data@[1])) << 4u16) | nearest(data@[2])) << 4u16) | nearest(data@[3]) }),
        decreases 4 - j,
    {
        let code = data[j];
        if code & 0x80 != 0 {
            return Err(Error::Crc);
        }
        let mut nib: u16 = 0;
        let mut distance: u32 = u32::MAX;
        let mut i: usize = 0;
        while i < 16
            invariant
                i <= 16,
                (nib, distance) == nearest_upto(code, i as nat),
                forall|t: int| 0 <= t < 16 ==> #[trigger] HAMMING@[t] == ham(t as u8),
            decreases 16 - i,
        {
            let d = count_ones(code ^ HAMMING[i]);
            if d < distance {
                distance = d;
                nib = i as u16;
            }
            i += 1;
        }
        crc = (crc << 4) | nib;
        j += 1;
    }
    Ok(crc)
}

/// An error pattern that flips at most one of the seven low bits of a byte.
pub open spec fn single_bit_error(e: u8) -> bool {
    e == 0u8 || e == 1u8 || e == 2u8 || e == 4u8 || e == 8u8 || e == 16u8 || e == 32u8 || e == 64u8
}

/// The codewords are seven bits wide and pairwise at distance at least three.
proof fn lemma_code_distance(n: u8, j: u8, e: u8)
    requires
        n < 16,
        j < 16,
        single_bit_error(e),
    ensures
        (ham(n) ^ e) & 0x80u8 == 0,
        ones((ham(n) ^ e) ^ ham(n)) <= 1,
        j != n ==> ones((ham(n) ^ e) ^ ham(j)) >= 2,
{
    assert({
        &&& (ham(n) ^ e) & 0x80u8 == 0
        &&& ones((ham(n) ^ e) ^ ham(n)) <= 1
        &&& (j != n ==> ones((ham(n) ^ e) ^ ham(j)) >= 2)
    }) by (bit_vector)
        requires
            n < 16,
            j < 16,
            single_bit_error(e),
    ;
}

proof fn lemma_nearest_upto(code: u8, n: u8, k: nat)
    requires
        n < 16,
        k <= 16,
        ones(code ^ ham(n)) <= 1,
        forall|j: u8| j < 16 && j != n ==> ones(code ^ #[trigger] ham(j)) >= 2,
    ensures
        k <= n ==> nearest_upto(code, k).1 >= 2,
        k > n ==> nearest_upto(code, k) == (n as u16, ones(code ^ ham(n))),
    decreases k,
{
    if k > 0 {
        lemma_nearest_upto(code, n, (k - 1) as nat);
        let j = (k - 1) as u8;
        assert(j as nat == k - 1);
        if j != n {
            assert(ones(code ^ ham(j)) >= 2);
        }
    }
}

/// A codeword with at most one flipped bit is within one bit of its own nibble's codeword
/// and of no other, and decoding it gives back that nibble.
pub proof fn lemma_nearest(n: u8, e: u8)
    requires
        n < 16,
        single_bit_error(e),
    ensures
        nearest(ham(n) ^ e) == n as u16,
        (ham(n) ^ e) & 0x80u8 == 0,
        ones((ham(n) ^ e) ^ ham(n)) <= 1,
        forall|m: u8| m < 16 && ones((ham(n) ^ e) ^ #[trigger] ham(m)) <= 1 ==> m == n,
{
    let code = ham(n) ^ e;
    lemma_code_distance(n, n, e);
    assert forall|j: u8| j < 16 && j != n implies ones(code ^ #[trigger] ham(j)) >= 2 by {
        lemma_code_distance(n, j, e);
    }
    lemma_nearest_upto(code, n, 16);
}

/// The Hamming (7,4) code is perfect: every seven-bit byte lies within one bit of exactly
/// one codeword, and that codeword's nibble is what decoding the byte gives.
pub proof fn lemma_perfect_code(b: u8, m: u8)
    requires
        b < 0x80,
    ensures
        exists|n: u8| n < 16 && #[trigger] ones(b ^ ham(n)) <= 1,
        m < 16 && ones(b ^ ham(m)) <= 1 ==> nearest(b) == m as u16 && forall|j: u8|
            j < 16 && #[trigger] ones(b ^ ham(j)) <= 1 ==> j == m,
{
    assert({
        &&& (m < 16 && ones(b ^ ham(m)) <= 1 ==> single_bit_error(b ^ ham(m)) && b == ham(m) ^ (b
            ^ ham(m)))
        &&& (ones(b ^ ham(0)) <= 1 || ones(b ^ ham(1)) <= 1 || ones(b ^ ham(2)) <= 1 || ones(
            b ^ ham(3),
        ) <= 1 || ones(b ^ ham(4)) <= 1 || ones(b ^ ham(5)) <= 1 || ones(b ^ ham(6)) <= 1 || ones(
            b ^ ham(7),
        ) <= 1 || ones(b ^ ham(8)) <= 1 || ones(b ^ ham(9)) <= 1 || ones(b ^ ham(10)) <= 1 || ones(
            b ^ ham(11),
        ) <= 1 || ones(b ^ ham(12)) <= 1 || ones(b ^ ham(13)) <= 1 || ones(b ^ ham(14)) <= 1
            || ones(b ^ ham(15)) <= 1)
    }) by (bit_vector)
        requires
            b < 0x80,
    ;
    if m < 16 && ones(b ^ ham(m)) <= 1 {
        lemma_nearest(m, b ^ ham(m));
    }
}

/// Hamming correction: decoding the four codewords of `crc`, each with at most one of its
/// seven bits flipped, gives back `crc`.
pub proof fn lemma_decode_corrects(crc: u16, e0: u8, e1: u8, e2: u8, e3: u8)
    requires
        single_bit_error(e0),
        single_bit_error(e1),
        single_bit_error(e2),
        single_bit_error(e3),
    ensures
        spec_decode(
            seq![
                ham(nibble(crc, 3)) ^ e0,
                ham(nibble(crc, 2)) ^ e1,
                ham(nibble(crc, 1)) ^ e2,
                ham(nibble(crc, 0)) ^ e3,
            ],
        ) == Ok::<u16, Error>(crc),
{
    let n3 = nibble(crc, 3);
    let n2 = nibble(crc, 2);
    let n1 = nibble(crc, 1);
    let n0 = nibble(crc, 0);
    assert(n3 == ((crc >> 12u16) & 0xfu16) as u8);
    assert(n2 == ((crc >> 8u16) & 0xfu16) as u8);
    assert(n1 == ((crc >> 4u16) & 0xfu16) as u8);
    assert(n0 == ((crc >> 0u16) & 0xfu16) as u8);
    assert(n3 < 16 && n2 < 16 && n1 < 16 && n0 < 16 && (((((((0u16 << 4u16) | n3 as u16) << 4u16)
        | n2 as u16) << 4u16) | n1 as u16) << 4u16) | n0 as u16 == crc) by (bit_vector)
        requires
            n3 == ((crc >> 12u16) & 0xfu16) as u8,
            n2 == ((crc >> 8u16) & 0xfu16) as u8,
            n1 == ((crc >> 4u16) & 0xfu16) as u8,
            n0 == ((crc >> 0u16) & 0xfu16) as u8,
    ;
    lemma_nearest(n3, e0);
    lemma_nearest(n2, e1);
    lemma_nearest(n1, e2);
    lemma_nearest(n0, e3);
}

/// Decoding the codewords of a CRC gives it back.
pub proof fn lemma_decode_encode(crc: u16)
    ensures
        spec_decode(spec_encode(crc)) == Ok::<u16, Error>(crc),
{
    lemma_decode_corrects(crc, 0u8, 0u8, 0u8, 0u8);
    let a = ham(nibble(crc, 3));
    let b = ham(nibble(crc, 2));
    let c = ham(nibble(crc, 1));
    let d = ham(nibble(crc, 0));
    lemma_xor(a, 0u8, 0u8);
    lemma_xor(b, 0u8, 0u8);
    lemma_xor(c, 0u8, 0u8);
    lemma_xor(d, 0u8, 0u8);
    assert(seq![a ^ 0u8, b ^ 0u8, c ^ 0u8, d ^ 0u8] =~= spec_encode(crc));
}

/// One register shift is linear.
proof fn lemma_shift_linear(a: u16, b: u16)
    ensures
        crc_shift(a ^ b) == crc_shift(a) ^ crc_shift(b),
{
    assert(crc_shift(a ^ b) == crc_shift(a) ^ crc_shift(b)) by (bit_vector);
}

proof fn lemma_shifts_linear(a: u16, b: u16, n: nat)
    ensures
        crc_shifts(a ^ b, n) == crc_shifts(a, n) ^ crc_shifts(b, n),
    decreases n,
{
    if n > 0 {
        lemma_shifts_linear(a, b, (n - 1) as nat);
        lemma_shift_linear(crc_shifts(a, (n - 1) as nat), crc_shifts(b, (n - 1) as nat));
    }
}

/// Absorbing a byte is linear in the register and the byte together: the update of a sum is
/// the sum of the updates.
pub proof fn lemma_update_linear(r1: u16, r2: u16, b1: u8, b2: u8)
    ensures
        crc_update(r1 ^ r2, b1 ^ b2) == crc_update(r1, b1) ^ crc_update(r2, b2),
{
    assert((r1 ^ r2) ^ ((b1 ^ b2) as u16) == (r1 ^ (b1 as u16)) ^ (r2 ^ (b2 as u16))) by (bit_vector);
    lemma_shifts_linear(r1 ^ (b1 as u16), r2 ^ (b2 as u16), 8);
}

/// Absorbing the complement of the register, low byte first, always leaves the register at
/// the X-25 good-frame residue 0xf0b8.
proof fn lemma_residue(r: u16)
    ensures
        crc_update(crc_update(r, (!r) as u8), ((!r) >> 8u16) as u8) == 0xf0b8u16,
{
    reveal_with_fuel(crc_shifts, 9);
    let lo = (!r) as u8;
    let hi = ((!r) >> 8u16) as u8;
    let a = r ^ (lo as u16);
    let a8 = crc_shift(crc_shift(crc_shift(crc_shift(crc_shift(crc_shift(crc_shift(crc_shift(a))))))));
    let b = a8 ^ (hi as u16);
    assert(crc_shift(crc_shift(crc_shift(crc_shift(crc_shift(crc_shift(crc_shift(crc_shift(b))))))))
        == 0xf0b8u16) by (bit_vector)
        requires
            lo == (!r) as u8,
            hi == ((!r) >> 8u16) as u8,
            a == r ^ (lo as u16),
            a8 == crc_shift(crc_shift(crc_shift(crc_shift(crc_shift(crc_shift(crc_shift(crc_shift(a)))))))),
            b == a8 ^ (hi as u16),
    ;
}

/// A frame followed by its CRC, low byte first, runs the register to the X-25 good-frame
/// residue 0xf0b8, whatever the frame.
pub proof fn lemma_good_residue(data: Seq<u8>)
    ensures
        ({
            let fcs = spec_crc16(data);
            crc_run(0xffffu16, data.push(fcs as u8).push((fcs >> 8u16) as u8)) == 0xf0b8u16
        }),
{
    let fcs = spec_crc16(data);
    let d1 = data.push(fcs as u8);
    let d2 = d1.push((fcs >> 8u16) as u8);
    assert(d2.drop_last() =~= d1);
    assert(d1.drop_last() =~= data);
    let r = crc_run(0xffffu16, data);
    assert(fcs == !r);
    assert(crc_run(0xffffu16, d1) == crc_update(r, fcs as u8));
    assert(crc_run(0xffffu16, d2) == crc_update(crc_run(0xffffu16, d1), (fcs >> 8u16) as u8));
    lemma_residue(r);
}

} // verus!
