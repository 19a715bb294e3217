//! The IL2P self-synchronising scrambler (polynomial `x^9 + x^4 + 1`), MSB first.
use vstd::prelude::*;

verus! {

/// Next transmit register state after shifting in `input`.
pub open spec fn tx_next(input: u16, state: u16) -> u16 {
    ((((input ^ state) & 1u16) << 9u16) | (state ^ ((state & 1u16) << 4u16))) >> 1u16
}

/// Bit emitted by the transmit register in `state`.
pub open spec fn tx_out(state: u16) -> u16 {
    ((state >> 4u16) ^ state) & 1u16
}

/// Next receive register state after shifting in `input`.
pub open spec fn rx_next(input: u16, state: u16) -> u16 {
    ((state >> 1u16) | (input << 8u16)) ^ (input << 3u16)
}

/// Bit emitted by the receive register in `state` for the received bit `input`.
pub open spec fn rx_out(input: u16, state: u16) -> u16 {
    (input ^ state) & 1u16
}

/// Bit `t` (0 is the most significant) of the byte `v`.
pub open spec fn byte_bit(v: u8, t: int) -> u16 {
    ((v >> ((7 - t) as u8)) & 1u8) as u16
}

/// Bit `i` of a byte sequence read MSB first; zero past the end.
pub open spec fn bit_at(s: Seq<u8>, i: int) -> u16 {
    if 0 <= i < s.len() * 8 {
        byte_bit(s[i / 8], i % 8)
    } else {
        0u16
    }
}

/// The transmit register after `n` input bits, starting from `0x00f`.
pub open spec fn tx_state(s: Seq<u8>, n: nat) -> u16
    decreases n,
{
    if n == 0 {
        0x00fu16
    } else {
        tx_next(bit_at(s, n - 1), tx_state(s, (n - 1) as nat))
    }
}

/// The receive register after `n` received bits, starting from `0x1f0`.
pub open spec fn rx_state(s: Seq<u8>, n: nat) -> u16
    decreases n,
{
    if n == 0 {
        0x1f0u16
    } else {
        rx_next(bit_at(s, n - 1), rx_state(s, (n - 1) as nat))
    }
}

/// The first `k` bits `f(base) ..` assembled MSB first into a number.
pub open spec fn pack(f: spec_fn(int) -> u16, base: int, k: nat) -> int
    decreases k,
{
    if k == 0 {
        0
    } else {
        pack(f, base, (k - 1) as nat) * 2 + f(base + k - 1)
    }
}

/// Scrambled bit `i`: the transmit register output five bits later.
pub open spec fn scrambled_bit(s: Seq<u8>, i: int) -> u16 {
    tx_out(tx_state(s, (i + 5) as nat))
}

/// Descrambled bit `i`.
pub open spec fn descrambled_bit(s: Seq<u8>, i: int) -> u16 {
    rx_out(bit_at(s, i), rx_state(s, i as nat))
}

pub open spec fn spec_scramble(s: Seq<u8>) -> Seq<u8> {
    Seq::new(s.len(), |j: int| pack(|i: int| scrambled_bit(s, i), 8 * j, 8) as u8)
}

pub open spec fn spec_descramble(s: Seq<u8>) -> Seq<u8> {
    Seq::new(s.len(), |j: int| pack(|i: int| descrambled_bit(s, i), 8 * j, 8) as u8)
}

fn tx_bit(input: u16, state: &mut u16) -> (out: u8)
    ensures
        *final(state) == tx_next(input, *old(state)),
        out as u16 == tx_out(*old(state)),
{
    let s = *state;
    let output = ((s >> 4) ^ s) & 1;
    *state = ((((input ^ s) & 1) << 9) | (s ^ ((s & 1) << 4))) >> 1;
    assert(output <= 1) by (bit_vector)
        requires
            output == ((s >> 4u16) ^ s) & 1u16,
    ;
    output as u8
}

fn rx_bit(input: u16, state: &mut u16) -> (out: u8)
    ensures
        *final(state) == rx_next(input, *old(state)),
        out as u16 == rx_out(input, *old(state)),
{
    let s = *state;
    let output = (input ^ s) & 1;
    *state = ((s >> 1) | (input << 8)) ^ (input << 3);
    assert(output <= 1) by (bit_vector)
        requires
            output == (input ^ s) & 1u16,
    ;
    output as u8
}

/// Bit `8 * j + k` of `input`, MSB first, or zero past the end.
fn input_bit(input: &[u8], j: usize, k: usize) -> (bit: u16)
    requires
        j <= input@.len(),
        k < 16,
    ensures
        bit == bit_at(input@, 8 * j + k),
        bit <= 1,
{
    if j >= input.len() {
        return 0;
    }
    let byte = j + k / 8;
    let t = k % 8;
    assert((8 * j + k) / 8 == byte && (8 * j + k) % 8 == t) by (nonlinear_arith)
        requires
            byte == j + k / 8,
            t == k % 8,
            k < 16,
    ;
    if byte < input.len() {
        let v = input[byte];
        let sh = (7 - t) as u8;
        let b = (v >> sh) & 1;
        assert(b <= 1) by (bit_vector)
            requires
                b == (v >> sh) & 1u8,
        ;
        b as u16
    } else {
        0
    }
}

/// `2^k`.
pub open spec fn two_pow(k: nat) -> nat
    decreases k,
{
    if k == 0 {
        1
    } else {
        2 * two_pow((k - 1) as nat)
    }
}

proof fn lemma_out_bits(state: u16, input: u16)
    ensures
        tx_out(state) <= 1,
        rx_out(input, state) <= 1,
{
    assert(tx_out(state) <= 1 && rx_out(input, state) <= 1) by (bit_vector);
}

proof fn lemma_pack_bound(f: spec_fn(int) -> u16, base: int, k: nat)
    requires
        forall|i: int| base <= i < base + k ==> #[trigger] f(i) <= 1,
    ensures
        0 <= pack(f, base, k) < two_pow(k),
    decreases k,
{
    if k > 0 {
        lemma_pack_bound(f, base, (k - 1) as nat);
        assert(f(base + (k - 1)) <= 1);
    }
}

/// Scramble `input` into the first `input.len()` bytes of `output`.
pub fn scramble(input: &[u8], output: &mut [u8])
    requires
        old(output)@.len() >= input@.len(),
    ensures
        final(output)@ == spec_scramble(input@) + old(output)@.skip(input@.len() as int),
{
    let len = input.len();
    let ghost f = |i: int| scrambled_bit(input@, i);
    let mut state: u16 = 0x00f;
    let mut i: usize = 0;
    while i < 5
        invariant
            i <= 5,
            state == tx_state(input@, i as nat),
        decreases 5 - i,
    {
        let bit = input_bit(input, 0, i);
        tx_bit(bit, &mut state);
        i += 1;
    }
    let mut j: usize = 0;
    while j < len
        invariant
            j <= len == input@.len(),
            output@.len() == old(output)@.len(),
            input@.len() <= output@.len(),
            f == (|i: int| scrambled_bit(input@, i)),
            state == tx_state(input@, (8 * j + 5) as nat),
            forall|t: int| 0 <= t < j ==> output@[t] == spec_scramble(input@)[t],
            forall|t: int| j <= t < output@.len() ==> output@[t] == old(output)@[t],
        decreases len - j,
    {
        let mut acc: u8 = 0;
        let mut k: usize = 0;
        while k < 8
            invariant
                j < len == input@.len(),
                k <= 8,
                state == tx_state(input@, (8 * j + k + 5) as nat),
                acc as int == pack(f, 8 * j, k as nat),
                acc < two_pow(k as nat),
                f == (|i: int| scrambled_bit(input@, i)),
            decreases 8 - k,
        {
            let bit = input_bit(input, j, k + 5);
            let o = tx_bit(bit, &mut state);
            proof {
                lemma_out_bits(tx_state(input@, (8 * j + k + 5) as nat), 0u16);
                reveal_with_fuel(two_pow, 9);
                assert(two_pow(k as nat) <= 128);
            }
            acc = acc * 2 + o;
            k += 1;
        }
        output[j] = acc;
        j += 1;
    }
    assert(output@ =~= spec_scramble(input@) + old(output)@.skip(input@.len() as int));
}

/// Descramble `input` into the first `input.len()` bytes of `output`.
pub fn descramble(input: &[u8], output: &mut [u8])
    requires
        old(output)@.len() >= input@.len(),
    ensures
        final(output)@ == spec_descramble(input@) + old(output)@.skip(input@.len() as int),
{
    let len = input.len();
    let ghost f = |i: int| descrambled_bit(input@, i);
    let mut state: u16 = 0x1f0;
    let mut j: usize = 0;
    while j < len
        invariant
            j <= len == input@.len(),
            output@.len() == old(output)@.len(),
            input@.len() <= output@.len(),
            f == (|i: int| descrambled_bit(input@, i)),
            state == rx_state(input@, (8 * j) as nat),
            forall|t: int| 0 <= t < j ==> output@[t] == spec_descramble(input@)[t],
            forall|t: int| j <= t < output@.len() ==> output@[t] == old(output)@[t],
        decreases len - j,
    {
        let mut acc: u8 = 0;
        let mut k: usize = 0;
        while k < 8
            invariant
                j < len == input@.len(),
                k <= 8,
                state == rx_state(input@, (8 * j + k) as nat),
                acc as int == pack(f, 8 * j, k as nat),
                acc < two_pow(k as nat),
                f == (|i: int| descrambled_bit(input@, i)),
            decreases 8 - k,
        {
            let bit = input_bit(input, j, k);
            let o = rx_bit(bit, &mut state);
            proof {
                lemma_out_bits(rx_state(input@, (8 * j + k) as nat), bit);
                reveal_with_fuel(two_pow, 9);
                assert(two_pow(k as nat) <= 128);
            }
            acc = acc * 2 + o;
            k += 1;
        }
        output[j] = acc;
        j += 1;
    }
    assert(output@ =~= spec_descramble(input@) + old(output)@.skip(input@.len() as int));
}

/// The transmit and receive registers of a scrambled stream stay related: after `n`
/// received bits, the receiver state is this function of the transmitter state five bits
/// ahead and the five pending input bits `w`.
pub open spec fn sync_rel(t: u16, w: u16) -> u16 {
    ((((t ^ (t >> 4u16)) & 0xfu16) | ((t >> 4u16) & 0x10u16)) ^ w) ^ ((t & 0xfu16) << 5u16)
}

/// The five input bits `n .. n + 5`, bit `n` least significant.
pub open spec fn window(s: Seq<u8>, n: int) -> u16 {
    bit_at(s, n) | (bit_at(s, n + 1) << 1u16) | (bit_at(s, n + 2) << 2u16) | (bit_at(s, n + 3)
        << 3u16) | (bit_at(s, n + 4) << 4u16)
}

pub(crate) proof fn lemma_bit_at_bit(s: Seq<u8>, i: int)
    ensures
        bit_at(s, i) <= 1,
{
    if 0 <= i < s.len() * 8 {
        let v = s[i / 8];
        let sh = (7 - i % 8) as u8;
        assert(((v >> sh) & 1u8) as u16 <= 1) by (bit_vector);
    }
}

proof fn lemma_sync_base(b0: u16, b1: u16, b2: u16, b3: u16, b4: u16)
    requires
        b0 <= 1,
        b1 <= 1,
        b2 <= 1,
        b3 <= 1,
        b4 <= 1,
    ensures
        sync_rel(
            tx_next(b4, tx_next(b3, tx_next(b2, tx_next(b1, tx_next(b0, 0x00fu16))))),
            b0 | (b1 << 1u16) | (b2 << 2u16) | (b3 << 3u16) | (b4 << 4u16),
        ) == 0x1f0u16,
{
    assert(sync_rel(
        tx_next(b4, tx_next(b3, tx_next(b2, tx_next(b1, tx_next(b0, 0x00fu16))))),
        b0 | (b1 << 1u16) | (b2 << 2u16) | (b3 << 3u16) | (b4 << 4u16),
    ) == 0x1f0u16) by (bit_vector)
        requires
            b0 <= 1,
            b1 <= 1,
            b2 <= 1,
            b3 <= 1,
            b4 <= 1,
    ;
}

proof fn lemma_sync_step(t: u16, b0: u16, b1: u16, b2: u16, b3: u16, b4: u16, b5: u16)
    requires
        t < 512,
        b0 <= 1,
        b1 <= 1,
        b2 <= 1,
        b3 <= 1,
        b4 <= 1,
        b5 <= 1,
    ensures
        ({
            let w = b0 | (b1 << 1u16) | (b2 << 2u16) | (b3 << 3u16) | (b4 << 4u16);
            let w2 = b1 | (b2 << 1u16) | (b3 << 2u16) | (b4 << 3u16) | (b5 << 4u16);
            &&& rx_next(tx_out(t), sync_rel(t, w)) == sync_rel(tx_next(b5, t), w2)
            &&& rx_out(tx_out(t), sync_rel(t, w)) == b0
            &&& tx_next(b5, t) < 512
        }),
{
    assert({
        let w = b0 | (b1 << 1u16) | (b2 << 2u16) | (b3 << 3u16) | (b4 << 4u16);
        let w2 = b1 | (b2 << 1u16) | (b3 << 2u16) | (b4 << 3u16) | (b5 << 4u16);
        &&& rx_next(tx_out(t), sync_rel(t, w)) == sync_rel(tx_next(b5, t), w2)
        &&& rx_out(tx_out(t), sync_rel(t, w)) == b0
        &&& tx_next(b5, t) < 512
    }) by (bit_vector)
        requires
            t < 512,
            b0 <= 1,
            b1 <= 1,
            b2 <= 1,
            b3 <= 1,
            b4 <= 1,
            b5 <= 1,
    ;
}

/// Bit `t` of a byte assembled MSB first from eight bits is the `t`-th of them.
proof fn lemma_pack_byte(f: spec_fn(int) -> u16, base: int)
    requires
        forall|i: int| base <= i < base + 8 ==> #[trigger] f(i) <= 1,
    ensures
        forall|t: int|
            0 <= t < 8 ==> #[trigger] byte_bit(pack(f, base, 8) as u8, t) == f(base + t),
{
    reveal_with_fuel(pack, 9);
    let b0 = f(base);
    let b1 = f(base + 1);
    let b2 = f(base + 2);
    let b3 = f(base + 3);
    let b4 = f(base + 4);
    let b5 = f(base + 5);
    let b6 = f(base + 6);
    let b7 = f(base + 7);
    assert(b0 <= 1 && b1 <= 1 && b2 <= 1 && b3 <= 1 && b4 <= 1 && b5 <= 1 && b6 <= 1 && b7 <= 1);
    let v = (b0 * 128 + b1 * 64 + b2 * 32 + b3 * 16 + b4 * 8 + b5 * 4 + b6 * 2 + b7) as u8;
    assert(pack(f, base, 8) == b0 * 128 + b1 * 64 + b2 * 32 + b3 * 16 + b4 * 8 + b5 * 4 + b6 * 2
        + b7);
    assert({
        &&& ((v >> 7u8) & 1u8) as u16 == b0
        &&& ((v >> 6u8) & 1u8) as u16 == b1
        &&& ((v >> 5u8) & 1u8) as u16 == b2
        &&& ((v >> 4u8) & 1u8) as u16 == b3
        &&& ((v >> 3u8) & 1u8) as u16 == b4
        &&& ((v >> 2u8) & 1u8) as u16 == b5
        &&& ((v >> 1u8) & 1u8) as u16 == b6
        &&& ((v >> 0u8) & 1u8) as u16 == b7
    }) by (bit_vector)
        requires
            v == (b0 * 128 + b1 * 64 + b2 * 32 + b3 * 16 + b4 * 8 + b5 * 4 + b6 * 2 + b7) as u8,
            b0 <= 1,
            b1 <= 1,
            b2 <= 1,
            b3 <= 1,
            b4 <= 1,
            b5 <= 1,
            b6 <= 1,
            b7 <= 1,
    ;
}

/// A byte is the MSB-first assembly of its own bits.
proof fn lemma_unpack_byte(s: Seq<u8>, j: int)
    requires
        0 <= j < s.len(),
    ensures
        pack(|i: int| bit_at(s, i), 8 * j, 8) == s[j] as int,
{
    reveal_with_fuel(pack, 9);
    let v = s[j];
    assert forall|t: int| 0 <= t < 8 implies bit_at(s, 8 * j + t) == byte_bit(v, t) by {
        assert((8 * j + t) / 8 == j && (8 * j + t) % 8 == t) by (nonlinear_arith)
            requires
                0 <= t < 8,
        ;
        assert(8 * j + t < s.len() * 8) by (nonlinear_arith)
            requires
                0 <= t < 8,
                j < s.len(),
        ;
    }
    assert((((v >> 7u8) & 1u8) as u16) * 128 + (((v >> 6u8) & 1u8) as u16) * 64 + (((v >> 5u8)
        & 1u8) as u16) * 32 + (((v >> 4u8) & 1u8) as u16) * 16 + (((v >> 3u8) & 1u8) as u16) * 8
        + (((v >> 2u8) & 1u8) as u16) * 4 + (((v >> 1u8) & 1u8) as u16) * 2 + (((v >> 0u8) & 1u8)
        as u16) == v) by (bit_vector);
}

proof fn lemma_pack_ext(f: spec_fn(int) -> u16, g: spec_fn(int) -> u16, base: int, k: nat)
    requires
        forall|i: int| base <= i < base + k ==> #[trigger] f(i) == g(i),
    ensures
        pack(f, base, k) == pack(g, base, k),
    decreases k,
{
    if k > 0 {
        lemma_pack_ext(f, g, base, (k - 1) as nat);
        assert(f(base + k - 1) == g(base + k - 1));
    }
}

/// Bits of the scrambled stream are the scrambler outputs.
proof fn lemma_scrambled_bits(x: Seq<u8>, i: int)
    requires
        0 <= i < x.len() * 8,
    ensures
        bit_at(spec_scramble(x), i) == scrambled_bit(x, i),
{
    let s = spec_scramble(x);
    let f = |k: int| scrambled_bit(x, k);
    let j = i / 8;
    let t = i % 8;
    assert(0 <= j < x.len() && 0 <= t < 8 && i == 8 * j + t) by (nonlinear_arith)
        requires
            0 <= i < x.len() * 8,
            j == i / 8,
            t == i % 8,
    ;
    assert forall|k: int| 8 * j <= k < 8 * j + 8 implies #[trigger] f(k) <= 1 by {
        lemma_out_bits(tx_state(x, (k + 5) as nat), 0u16);
    }
    lemma_pack_byte(f, 8 * j);
    assert(s[j] == pack(f, 8 * j, 8) as u8);
    assert(byte_bit(s[j], t) == f(8 * j + t));
}

/// The receiver tracks the transmitter through the relation `sync_rel`.
proof fn lemma_sync(x: Seq<u8>, n: nat)
    requires
        n <= x.len() * 8,
    ensures
        tx_state(x, n + 5) < 512,
        rx_state(spec_scramble(x), n) == sync_rel(tx_state(x, n + 5), window(x, n as int)),
    decreases n,
{
    let s = spec_scramble(x);
    if n == 0 {
        lemma_bit_at_bit(x, 0);
        lemma_bit_at_bit(x, 1);
        lemma_bit_at_bit(x, 2);
        lemma_bit_at_bit(x, 3);
        lemma_bit_at_bit(x, 4);
        reveal_with_fuel(tx_state, 6);
        lemma_sync_base(bit_at(x, 0), bit_at(x, 1), bit_at(x, 2), bit_at(x, 3), bit_at(x, 4));
        assert(tx_state(x, 0) == 0x00fu16);
        let t5 = tx_next(bit_at(x, 4), tx_next(bit_at(x, 3), tx_next(bit_at(x, 2), tx_next(bit_at(x, 1), tx_next(bit_at(x, 0), 0x00fu16)))));
        assert(tx_state(x, 5) == t5);
        let b0 = bit_at(x, 0);
        let b1 = bit_at(x, 1);
        let b2 = bit_at(x, 2);
        let b3 = bit_at(x, 3);
        let b4 = bit_at(x, 4);
        assert(t5 < 512) by (bit_vector)
            requires
                t5 == tx_next(b4, tx_next(b3, tx_next(b2, tx_next(b1, tx_next(b0, 0x00fu16))))),
        ;
    } else {
        let m = (n - 1) as nat;
        lemma_sync(x, m);
        let t = tx_state(x, m + 5);
        let k = m as int;
        lemma_bit_at_bit(x, k);
        lemma_bit_at_bit(x, k + 1);
        lemma_bit_at_bit(x, k + 2);
        lemma_bit_at_bit(x, k + 3);
        lemma_bit_at_bit(x, k + 4);
        lemma_bit_at_bit(x, k + 5);
        lemma_sync_step(t, bit_at(x, k), bit_at(x, k + 1), bit_at(x, k + 2), bit_at(x, k + 3), bit_at(x, k + 4), bit_at(x, k + 5));
        lemma_scrambled_bits(x, k);
        assert(tx_state(x, n + 5) == tx_next(bit_at(x, k + 5), t));
        assert(rx_state(s, n) == rx_next(bit_at(s, k), rx_state(s, m)));
    }
}

/// Descrambling undoes scrambling.
pub proof fn lemma_descramble_scramble(x: Seq<u8>)
    ensures
        spec_descramble(spec_scramble(x)) == x,
{
    let s = spec_scramble(x);
    let d = spec_descramble(s);
    assert forall|j: int| 0 <= j < x.len() implies d[j] == x[j] by {
        let f = |i: int| descrambled_bit(s, i);
        let g = |i: int| bit_at(x, i);
        assert forall|i: int| 8 * j <= i < 8 * j + 8 implies #[trigger] f(i) == g(i) by {
            assert(i < x.len() * 8) by (nonlinear_arith)
                requires
                    i < 8 * j + 8,
                    j < x.len(),
            ;
            let k = i as nat;
            lemma_sync(x, k);
            let t = tx_state(x, k + 5);
            lemma_bit_at_bit(x, i);
            lemma_bit_at_bit(x, i + 1);
            lemma_bit_at_bit(x, i + 2);
            lemma_bit_at_bit(x, i + 3);
            lemma_bit_at_bit(x, i + 4);
            lemma_bit_at_bit(x, i + 5);
            lemma_sync_step(t, bit_at(x, i), bit_at(x, i + 1), bit_at(x, i + 2), bit_at(x, i + 3), bit_at(x, i + 4), bit_at(x, i + 5));
            lemma_scrambled_bits(x, i);
        }
        lemma_pack_ext(f, g, 8 * j, 8);
        lemma_unpack_byte(x, j);
    }
    assert(d =~= x);
}

proof fn lemma_rx_state_prefix(x: Seq<u8>, y: Seq<u8>, n: nat)
    requires
        n <= 8 * x.len(),
    ensures
        rx_state(x + y, n) == rx_state(x, n),
    decreases n,
{
    if n > 0 {
        let i = n - 1;
        lemma_rx_state_prefix(x, y, (n - 1) as nat);
        assert(i / 8 < x.len()) by (nonlinear_arith)
            requires
                0 <= i < 8 * x.len(),
        ;
        assert((x + y)[i / 8] == x[i / 8]);
    }
}

/// Descrambling is causal: each descrambled byte depends only on the received bytes up to
/// and including it, so bytes appended to the input leave the output before them unchanged.
pub proof fn lemma_descramble_prefix(x: Seq<u8>, y: Seq<u8>)
    ensures
        spec_descramble(x + y).take(x.len() as int) == spec_descramble(x),
{
    let xy = x + y;
    let a = spec_descramble(xy).take(x.len() as int);
    let b = spec_descramble(x);
    assert forall|j: int| 0 <= j < x.len() implies a[j] == b[j] by {
        let f = |i: int| descrambled_bit(xy, i);
        let g = |i: int| descrambled_bit(x, i);
        assert forall|i: int| 8 * j <= i < 8 * j + 8 implies #[trigger] f(i) == g(i) by {
            assert(i < x.len() * 8 && i / 8 < x.len()) by (nonlinear_arith)
                requires
                    8 * j <= i < 8 * j + 8,
                    j < x.len(),
            ;
            assert(xy[i / 8] == x[i / 8]);
            lemma_rx_state_prefix(x, y, i as nat);
        }
        lemma_pack_ext(f, g, 8 * j, 8);
    }
    assert(a =~= b);
}

/// The received bit is recovered from the descrambled one and the register.
proof fn lemma_rx_out_cancel(a: u16, b: u16, st: u16)
    requires
        a <= 1,
        b <= 1,
        rx_out(a, st) == rx_out(b, st),
    ensures
        a == b,
{
    assert(a == b) by (bit_vector)
        requires
            a <= 1,
            b <= 1,
            (a ^ st) & 1u16 == (b ^ st) & 1u16,
    ;
}

proof fn lemma_rx_agree(y: Seq<u8>, z: Seq<u8>, i: nat)
    requires
        y.len() == z.len(),
        i <= 8 * y.len(),
        forall|k: int| 0 <= k < 8 * y.len() ==> #[trigger] descrambled_bit(y, k) == descrambled_bit(z, k),
    ensures
        rx_state(y, i) == rx_state(z, i),
        forall|k: int| 0 <= k < i ==> #[trigger] bit_at(y, k) == bit_at(z, k),
    decreases i,
{
    if i > 0 {
        let k = i - 1;
        lemma_rx_agree(y, z, (i - 1) as nat);
        assert(descrambled_bit(y, k) == descrambled_bit(z, k));
        lemma_bit_at_bit(y, k);
        lemma_bit_at_bit(z, k);
        lemma_rx_out_cancel(bit_at(y, k), bit_at(z, k), rx_state(y, k as nat));
    }
}

/// Descrambling loses nothing: byte sequences of one length that descramble alike are equal.
proof fn lemma_descramble_injective(y: Seq<u8>, z: Seq<u8>)
    requires
        y.len() == z.len(),
        spec_descramble(y) == spec_descramble(z),
    ensures
        y == z,
{
    let n = y.len();
    let fy = |i: int| descrambled_bit(y, i);
    let fz = |i: int| descrambled_bit(z, i);
    assert forall|k: int| 0 <= k < 8 * n implies #[trigger] descrambled_bit(y, k) == descrambled_bit(z, k) by {
        let j = k / 8;
        let t = k % 8;
        assert(k == 8 * j + t && 0 <= t < 8 && 0 <= j < n) by (nonlinear_arith)
            requires
                0 <= k < 8 * n,
                j == k / 8,
                t == k % 8,
        ;
        assert forall|i: int| 8 * j <= i < 8 * j + 8 implies #[trigger] fy(i) <= 1 by {
            lemma_out_bits(rx_state(y, i as nat), bit_at(y, i));
        }
        assert forall|i: int| 8 * j <= i < 8 * j + 8 implies #[trigger] fz(i) <= 1 by {
            lemma_out_bits(rx_state(z, i as nat), bit_at(z, i));
        }
        lemma_pack_byte(fy, 8 * j);
        lemma_pack_byte(fz, 8 * j);
        assert(spec_descramble(y)[j] == spec_descramble(z)[j]);
        assert(byte_bit(spec_descramble(y)[j], t) == fy(8 * j + t));
        assert(byte_bit(spec_descramble(z)[j], t) == fz(8 * j + t));
    }
    lemma_rx_agree(y, z, 8 * n);
    assert forall|j: int| 0 <= j < n implies y[j] == z[j] by {
        lemma_unpack_byte(y, j);
        lemma_unpack_byte(z, j);
        assert(8 * j + 8 <= 8 * n) by (nonlinear_arith)
            requires
                j < n,
        ;
        lemma_pack_ext(|i: int| bit_at(y, i), |i: int| bit_at(z, i), 8 * j, 8);
    }
    assert(y =~= z);
}

/// Scrambling undoes descrambling: every byte sequence is the scrambled form of its own
/// descrambling, so the two are inverse to each other.
pub proof fn lemma_scramble_descramble(y: Seq<u8>)
    ensures
        spec_scramble(spec_descramble(y)) == y,
{
    let x = spec_descramble(y);
    lemma_descramble_scramble(x);
    lemma_descramble_injective(spec_scramble(x), y);
}

} // verus!
