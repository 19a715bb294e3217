//! What the bit-serial receiver makes of the bits of an encoded packet.
use vstd::prelude::*;
use crate::ax25;
use crate::error::Error;
use crate::frame::{
    coded_payload, decode_outcome, header_codeword, header_count, header_invalid, idle,
    lemma_parse_steps, correctable, ones32, packet_len_for, push_outcome, spec_encode, spec_frame_crc,
    spec_packet, stream_header, sync_match, transparent_header, Crc, Decoded, ReceiverView, SYNC,
    SYNC_WORD,
};
use crate::packet::FrameView;
use crate::roundtrip::lemma_encode_decode;
use crate::rs;
use crate::scramble;

verus! {

/// The bits of a byte sequence, most significant bit of each byte first.
pub open spec fn bits_msb(s: Seq<u8>) -> Seq<bool> {
    Seq::new(s.len() * 8, |i: int| scramble::bit_at(s, i) == 1u16)
}

/// `states` and `results` are a run of a receiver fed `bits`: `states[i + 1]` and
/// `results[i]` are what pushing `bits[i]` into a receiver in state `states[i]` gives.
pub open spec fn receiver_run(
    states: Seq<ReceiverView>,
    results: Seq<Option<Result<Decoded, Error>>>,
    bits: Seq<bool>,
) -> bool {
    &&& states.len() == bits.len() + 1
    &&& results.len() == bits.len()
    &&& forall|i: int|
        0 <= i < bits.len() ==> #[trigger] push_outcome(states[i], bits[i], states[i + 1], results[i])
}

/// The top `t` bits of `v`.
spec fn top_bits(v: u8, t: nat) -> u8 {
    ((v as u16) >> ((8 - t) as u16)) as u8
}

/// The first three bytes of `s` as a 24-bit word.
pub open spec fn word24(s: Seq<u8>) -> u32 {
    ((s[0] as u32) << 16u32) | ((s[1] as u32) << 8u32) | (s[2] as u32)
}

/// The low `m` bits of a 24-bit register.
spec fn low_mask(m: u32) -> u32 {
    if m >= 24 {
        0x00ff_ffffu32
    } else {
        ((1u32 << m) - 1u32) as u32
    }
}

/// The shift register after the first `p` of `pre` preamble bits, which alternate and end
/// with a one.
spec fn preamble_shift(pre: nat, p: nat) -> u32 {
    let m = if p >= 24 {
        24u32
    } else {
        p as u32
    };
    (if (pre - p) % 2 == 0 {
        0x55_5555u32
    } else {
        0xaa_aaaau32
    }) & low_mask(m)
}

/// The shift register holding `x` after the first `d` bits of the 24-bit word `w`.
spec fn entering(x: u32, w: u32, d: nat) -> u32 {
    ((x << (d as u32)) | (w >> ((24 - d) as u32))) & 0x00ff_ffffu32
}

/// The receiver's count of bits seen after `p` bits.
spec fn seen_after(p: nat) -> u8 {
    if p < 255 {
        p as u8
    } else {
        255u8
    }
}

/// The receiver that synchronised on `w` with `seen` bits counted, after `j` whole bytes
/// and `t` bits of `stream`.
spec fn collecting(mode: Crc, w: u32, seen: u8, stream: Seq<u8>, j: nat, t: nat) -> ReceiverView {
    ReceiverView {
        mode,
        shift: w,
        seen,
        collecting: true,
        byte: top_bits(stream[j as int], t),
        bits: t as u8,
        need: if j < 15 {
            0
        } else {
            stream.len()
        },
        data: stream.take(j as int),
    }
}

/// A new receiver after `p` bits of `pre` preamble bits, the sync word `w` and `stream`.
spec fn expected(mode: Crc, pre: nat, w: u32, stream: Seq<u8>, p: nat) -> ReceiverView {
    if p <= pre {
        ReceiverView { shift: preamble_shift(pre, p), seen: seen_after(p), ..idle(mode) }
    } else if p < pre + 24 {
        ReceiverView {
            shift: entering(preamble_shift(pre, pre), w, (p - pre) as nat),
            seen: seen_after(p),
            ..idle(mode)
        }
    } else if p < pre + 24 + 8 * stream.len() {
        collecting(
            mode,
            w,
            seen_after(pre + 24),
            stream,
            ((p - pre - 24) / 8) as nat,
            ((p - pre - 24) % 8) as nat,
        )
    } else {
        idle(mode)
    }
}

/// What the receiver needs of the stream after the sync word: its codewords within correction
/// reach, with `fixed` the stream without the errors, whose header is valid and announces
/// the stream's length.
spec fn receivable(stream: Seq<u8>, fixed: Seq<u8>, mode: Crc) -> bool {
    &&& correctable(stream, fixed, mode)
    &&& !header_invalid(stream_header(fixed))
    &&& stream.len() == packet_len_for(header_count(stream_header(fixed)), mode)
}

proof fn lemma_top_bits(v: u8, t: nat)
    requires
        t < 8,
    ensures
        ({
            let b = (v >> ((7 - t) as u8)) & 1u8;
            &&& ((top_bits(v, t) << 1u8) | b) == top_bits(v, t + 1)
            &&& b <= 1
            &&& top_bits(v, 0) == 0
            &&& top_bits(v, 8) == v
        }),
{
    let sh = (7 - t) as u8;
    let s0 = (8 - t) as u16;
    let s1 = (8 - (t + 1)) as u16;
    assert({
        let b = (v >> sh) & 1u8;
        let p = ((v as u16) >> s0) as u8;
        let q = ((v as u16) >> s1) as u8;
        &&& ((p << 1u8) | b) == q
        &&& b <= 1
        &&& ((v as u16) >> 8u16) as u8 == 0
        &&& ((v as u16) >> 0u16) as u8 == v
    }) by (bit_vector)
        requires
            sh < 8,
            s0 == sh + 1,
            s1 == sh,
    ;
}

/// Bit `i` of a byte sequence is bit `23 - i` of the word its first three bytes make.
proof fn lemma_word_bits(s: Seq<u8>, i: nat)
    requires
        s.len() >= 3,
        i < 24,
    ensures
        scramble::bit_at(s, i as int) as u32 == (word24(s) >> ((23 - i) as u32)) & 1u32,
        word24(s) < 0x100_0000,
{
    let k = i / 8;
    let t = i % 8;
    let sh = (7 - t) as u8;
    let s0 = (23 - t) as u32;
    let s1 = (15 - t) as u32;
    let s2 = (7 - t) as u32;
    let (p0, p1, p2) = (s[0], s[1], s[2]);
    let w = word24(s);
    assert({
        &&& ((p0 >> sh) & 1u8) as u32 == (w >> s0) & 1u32
        &&& ((p1 >> sh) & 1u8) as u32 == (w >> s1) & 1u32
        &&& ((p2 >> sh) & 1u8) as u32 == (w >> s2) & 1u32
        &&& w < 0x100_0000
    }) by (bit_vector)
        requires
            w == ((p0 as u32) << 16u32) | ((p1 as u32) << 8u32) | (p2 as u32),
            sh < 8,
            s0 == 16 + sh,
            s1 == 8 + sh,
            s2 == sh,
    ;
    assert(i == 8 * k + t && k < 3);
}

/// A register with at most one bit set has no bit left once its lowest one is cleared.
proof fn lemma_few_ones(x: u32)
    ensures
        ones32(x) <= 1 ==> x & ((x - 1u32) as u32) == 0u32,
    decreases x,
{
    let y = x / 2;
    assert({
        &&& x <= 1u32 ==> x & ((x - 1u32) as u32) == 0u32
        &&& x % 2 == 0 && y & ((y - 1u32) as u32) == 0u32 ==> x & ((x - 1u32) as u32) == 0u32
    }) by (bit_vector)
        requires
            y == x / 2,
    ;
    if x != 0 {
        lemma_few_ones(y);
        lemma_no_ones(y);
        if x % 2 == 1 {
            assert(ones32(x) <= 1 ==> y == 0);
        }
    }
}

/// Only the empty register has no bit set.
proof fn lemma_no_ones(x: u32)
    ensures
        ones32(x) == 0 ==> x == 0,
    decreases x,
{
    if x != 0 && x % 2 == 0 {
        lemma_no_ones(x / 2);
    }
}

/// A register differing from the sync word in two bits or more does not match it.
proof fn lemma_no_match(x: u32)
    requires
        (x ^ SYNC_WORD) & (((x ^ SYNC_WORD) - 1u32) as u32) != 0u32,
    ensures
        !sync_match(x),
{
    lemma_few_ones(x ^ SYNC_WORD);
}

/// One more preamble bit, a one when an odd number of preamble bits are left, shifts the
/// alternating pattern on; once 24 bits are in, the register holds the pattern and misses the
/// sync word.
proof fn lemma_preamble_step(pre: nat, p: nat)
    requires
        p <= pre,
    ensures
        preamble_shift(pre, p) < 0x100_0000,
        p < pre ==> preamble_shift(pre, p + 1) == ((preamble_shift(pre, p) << 1u32) | (((pre - p) % 2) as u32))
            & 0x00ff_ffffu32,
        p >= 24 ==> !sync_match(preamble_shift(pre, p)),
        p == 0 ==> preamble_shift(pre, p) == 0,
{
    let m = if p >= 24 {
        24u32
    } else {
        p as u32
    };
    let m1 = if p + 1 >= 24 {
        24u32
    } else {
        (p + 1) as u32
    };
    let q = ((pre - p) % 2) as u32;
    let (a, b) = (0x55_5555u32, 0xaa_aaaau32);
    assert({
        &&& q == 0 ==> (((0x55_5555u32 & low_mask(m)) << 1u32) | q) & 0x00ff_ffffu32 == 0xaa_aaaau32
            & low_mask(m1)
        &&& q == 1 ==> (((0xaa_aaaau32 & low_mask(m)) << 1u32) | q) & 0x00ff_ffffu32 == 0x55_5555u32
            & low_mask(m1)
        &&& 0x55_5555u32 & low_mask(m) < 0x100_0000
        &&& 0xaa_aaaau32 & low_mask(m) < 0x100_0000
        &&& m == 24 ==> 0x55_5555u32 & low_mask(m) == 0x55_5555u32
        &&& m == 24 ==> 0xaa_aaaau32 & low_mask(m) == 0xaa_aaaau32
        &&& m == 0 ==> 0x55_5555u32 & low_mask(m) == 0u32
        &&& m == 0 ==> 0xaa_aaaau32 & low_mask(m) == 0u32
        &&& (a ^ 0xf1_5e48u32) & (((a ^ 0xf1_5e48u32) - 1u32) as u32) != 0u32
        &&& (b ^ 0xf1_5e48u32) & (((b ^ 0xf1_5e48u32) - 1u32) as u32) != 0u32
    }) by (bit_vector)
        requires
            a == 0x55_5555u32,
            b == 0xaa_aaaau32,
            m <= 24,
            m1 == (if m < 24 {
                m + 1
            } else {
                24
            }),
            q <= 1,
    ;
    if p >= 24 {
        lemma_no_match(preamble_shift(pre, p));
    }
}

/// One more bit of the word `w` entering a register that held `x`.
proof fn lemma_entering(x: u32, w: u32, d: nat)
    requires
        x < 0x100_0000,
        w < 0x100_0000,
        d < 24,
    ensures
        entering(x, w, 0) == x,
        entering(x, w, d + 1) == ((entering(x, w, d) << 1u32) | ((w >> ((23 - d) as u32)) & 1u32))
            & 0x00ff_ffffu32,
        (w >> ((23 - d) as u32)) & 1u32 <= 1,
        entering(x, w, 24) == w,
{
    let a = d as u32;
    let b = (24 - d) as u32;
    let c = (23 - d) as u32;
    assert({
        &&& ((x << 0u32) | (w >> 24u32)) & 0x00ff_ffffu32 == x
        &&& ((x << (a + 1) as u32) | (w >> c)) & 0x00ff_ffffu32 == ((((x << a) | (w >> b))
            & 0x00ff_ffffu32) << 1u32 | ((w >> c) & 1u32)) & 0x00ff_ffffu32
        &&& (w >> c) & 1u32 <= 1
        &&& ((x << 24u32) | (w >> 0u32)) & 0x00ff_ffffu32 == w
    }) by (bit_vector)
        requires
            x < 0x100_0000,
            w < 0x100_0000,
            a < 24,
            b == 24 - a,
            c == 23 - a,
    ;
}

/// After a preamble, a sync word `w` with at most one bit in error does not match early:
/// every register that holds preamble bits and the first `d` bits of `w` differs from the
/// sync word in two bits or more.
proof fn lemma_no_early_sync(pre: nat, w: u32, d: nat)
    requires
        pre >= 1,
        pre + d >= 24,
        d < 24,
        w < 0x100_0000,
        sync_match(w),
    ensures
        !sync_match(entering(preamble_shift(pre, pre), w, d)),
{
    let m = if pre >= 24 {
        24u32
    } else {
        pre as u32
    };
    let a = d as u32;
    let b = (24 - d) as u32;
    let x = w ^ SYNC_WORD;
    lemma_few_ones(x);
    let v = entering(preamble_shift(pre, pre), w, d);
    assert({
        let v = (((0x55_5555u32 & low_mask(m)) << a) | (w >> b)) & 0x00ff_ffffu32;
        (v ^ 0xf1_5e48u32) & (((v ^ 0xf1_5e48u32) - 1u32) as u32) != 0u32
    }) by (bit_vector)
        requires
            1 <= m <= 24,
            a < 24,
            m + a >= 24,
            b == 24 - a,
            w < 0x100_0000,
            x == w ^ 0xf1_5e48u32,
            x & ((x - 1u32) as u32) == 0u32,
    ;
    lemma_no_match(v);
}

/// Bit `t` of a preamble byte is the parity of `t`.
proof fn lemma_preamble_bit(t: int)
    requires
        0 <= t < 8,
    ensures
        scramble::byte_bit(0x55u8, t) == (t % 2) as u16,
{
    let t8 = t as u8;
    let sh = (7 - t) as u8;
    assert(((0x55u8 >> sh) & 1u8) as u16 == (t8 % 2) as u16) by (bit_vector)
        requires
            t8 < 8,
            sh == 7 - t8,
    ;
}

/// Where a bit of a burst of `n` preamble bytes and a packet comes from.
proof fn lemma_burst_bit(n: nat, packet: Seq<u8>, p: nat)
    requires
        p < 8 * (n + packet.len()),
    ensures
        p < 8 * n ==> scramble::bit_at(crate::frame::preamble(n) + packet, p as int) == (p % 2) as u16,
        p >= 8 * n ==> scramble::bit_at(crate::frame::preamble(n) + packet, p as int)
            == scramble::bit_at(packet, p - 8 * n),
{
    let burst = crate::frame::preamble(n) + packet;
    let q = p / 8;
    let t = p % 8;
    assert(p == 8 * q + t && 0 <= t < 8) by (nonlinear_arith)
        requires
            q == p / 8,
            t == p % 8,
    ;
    assert(t % 2 == p % 2);
    if p < 8 * n {
        assert(q < n);
        lemma_preamble_bit(t as int);
    } else {
        let r = (p - 8 * n) as nat;
        assert(r / 8 == q - n && r % 8 == t) by (nonlinear_arith)
            requires
                p == 8 * q + t,
                0 <= t < 8,
                r == p - 8 * n,
                r >= 0,
        ;
    }
}

/// One bit of the stream after the sync word, pushed into a receiver that has seen the
/// bits before it.
proof fn lemma_collect_step(
    mode: Crc,
    w: u32,
    seen: u8,
    stream: Seq<u8>,
    fixed: Seq<u8>,
    j: nat,
    t: nat,
    next: ReceiverView,
    r: Option<Result<Decoded, Error>>,
)
    requires
        receivable(stream, fixed, mode),
        j < stream.len(),
        t < 8,
        push_outcome(
            collecting(mode, w, seen, stream, j, t),
            scramble::byte_bit(stream[j as int], t as int) == 1u16,
            next,
            r,
        ),
    ensures
        t < 7 ==> r is None && next == collecting(mode, w, seen, stream, j, t + 1),
        t == 7 && j + 1 < stream.len() ==> r is None && next == collecting(mode, w, seen, stream, j + 1, 0),
        t == 7 && j + 1 == stream.len() ==> next == idle(mode) && (r matches Some(res)
            && decode_outcome(stream, mode, res)),
{
    let v = collecting(mode, w, seen, stream, j, t);
    let x = stream[j as int];
    lemma_top_bits(x, t);
    if j + 1 < stream.len() {
        lemma_top_bits(stream[j + 1int], 0);
    }
    if t == 7 {
        let data = v.data.push(x);
        assert(data =~= stream.take(j + 1int));
        if j + 1 == 15 {
            let c = fixed.take(15);
            assert(data =~= stream.take(15));
            assert(c.take(13) =~= fixed.take(13));
            assert(rs::is_codeword(c, 2));
            assert(rs::diff_count(data, c) <= 1);
            let count = choose|count: nat|
                #[trigger] crate::frame::header_announces(data, count)
                    && crate::frame::continue_with(v, data, packet_len_for(count, v.mode), next, r);
            assert(count == header_count(stream_header(fixed)));
            if j + 1 == stream.len() {
                assert(data =~= stream);
            }
        } else if j + 1 == stream.len() {
            assert(data =~= stream);
        }
    }
}

/// Where bit `i` of a packet falls once the three sync bytes are behind it.
proof fn lemma_bit_position(i: nat, len: nat)
    requires
        24 <= i < 8 * len,
    ensures
        ({
            let j = ((i - 24) / 8) as nat;
            let t = ((i - 24) % 8) as nat;
            &&& i / 8 == j + 3
            &&& i % 8 == t
            &&& j + 3 < len
            &&& t < 7 ==> ((i + 1 - 24) / 8) as nat == j && ((i + 1 - 24) % 8) as nat == t + 1
            &&& t == 7 ==> ((i + 1 - 24) / 8) as nat == j + 1 && ((i + 1 - 24) % 8) as nat == 0
        }),
{
    let j = (i - 24) / 8;
    let t = (i - 24) % 8;
    assert(i - 24 == 8 * j + t && 0 <= t < 8) by (nonlinear_arith)
        requires
            i >= 24,
            j == (i - 24) / 8,
            t == (i - 24) % 8,
    ;
    assert(i / 8 == j + 3 && i % 8 == t && j + 3 < len) by (nonlinear_arith)
        requires
            i == 8 * j + t + 24,
            0 <= t < 8,
            i < 8 * len,
    ;
    if t < 7 {
        assert((i + 1 - 24) / 8 == j && (i + 1 - 24) % 8 == t + 1) by (nonlinear_arith)
            requires
                i + 1 - 24 == 8 * j + t + 1,
                0 <= t < 7,
        ;
    } else {
        assert((i + 1 - 24) / 8 == j + 1 && (i + 1 - 24) % 8 == 0) by (nonlinear_arith)
            requires
                i + 1 - 24 == 8 * (j + 1),
                j >= 0,
        ;
    }
}

/// `m` alternating bits that end with a one, as a receiver joining a preamble of alternating
/// bits at any bit sees them.
pub open spec fn alternating(m: nat) -> Seq<bool> {
    Seq::new(m, |k: int| (m - k) % 2 == 1)
}

/// The bits of `pre` alternating preamble bits followed by `packet`.
spec fn burst_bits(pre: nat, packet: Seq<u8>) -> Seq<bool> {
    alternating(pre) + bits_msb(packet)
}

/// Where a bit of a burst of `pre` preamble bits and a packet comes from.
proof fn lemma_stream_bit(pre: nat, packet: Seq<u8>, p: nat)
    requires
        p < pre + 8 * packet.len(),
    ensures
        p < pre ==> burst_bits(pre, packet)[p as int] == ((pre - p) % 2 == 1),
        p >= pre ==> burst_bits(pre, packet)[p as int] == (scramble::bit_at(packet, p - pre) == 1u16),
{
}

/// What the burst of `pre` preamble bits and `packet` needs for the receiver to take it in:
/// a packet with a receivable stream, whose sync word matches.
spec fn burst_ok(mode: Crc, packet: Seq<u8>, fixed: Seq<u8>) -> bool {
    &&& packet.len() > 3
    &&& sync_match(word24(packet))
    &&& receivable(packet.skip(3), fixed, mode)
}

/// A preamble bit pushed into the receiver.
proof fn lemma_preamble_push(
    mode: Crc,
    pre: nat,
    packet: Seq<u8>,
    fixed: Seq<u8>,
    i: nat,
    next: ReceiverView,
    r: Option<Result<Decoded, Error>>,
)
    requires
        burst_ok(mode, packet, fixed),
        i < pre,
        push_outcome(
            expected(mode, pre, word24(packet), packet.skip(3), i),
            burst_bits(pre, packet)[i as int],
            next,
            r,
        ),
    ensures
        r is None,
        next == expected(mode, pre, word24(packet), packet.skip(3), i + 1),
{
    lemma_stream_bit(pre, packet, i);
    lemma_preamble_step(pre, i);
    lemma_preamble_step(pre, i + 1);
}

/// A bit of the sync word pushed into the receiver.
proof fn lemma_sync_push(
    mode: Crc,
    pre: nat,
    packet: Seq<u8>,
    fixed: Seq<u8>,
    i: nat,
    next: ReceiverView,
    r: Option<Result<Decoded, Error>>,
)
    requires
        burst_ok(mode, packet, fixed),
        pre <= i < pre + 24,
        push_outcome(
            expected(mode, pre, word24(packet), packet.skip(3), i),
            burst_bits(pre, packet)[i as int],
            next,
            r,
        ),
    ensures
        r is None,
        next == expected(mode, pre, word24(packet), packet.skip(3), i + 1),
{
    let w = word24(packet);
    let stream = packet.skip(3);
    let d = (i - pre) as nat;
    lemma_stream_bit(pre, packet, i);
    lemma_word_bits(packet, d);
    scramble::lemma_bit_at_bit(packet, d as int);
    lemma_preamble_step(pre, pre);
    lemma_entering(preamble_shift(pre, pre), w, d);
    if i + 1 < pre + 24 && i + 1 >= 24 {
        lemma_no_early_sync(pre, w, d + 1);
    }
    if i + 1 == pre + 24 {
        lemma_top_bits(stream[0], 0);
        assert(stream.take(0) =~= Seq::<u8>::empty());
    }
}

/// A bit of the stream after the sync word pushed into the receiver.
proof fn lemma_stream_push(
    mode: Crc,
    pre: nat,
    packet: Seq<u8>,
    fixed: Seq<u8>,
    i: nat,
    next: ReceiverView,
    r: Option<Result<Decoded, Error>>,
)
    requires
        burst_ok(mode, packet, fixed),
        pre + 24 <= i < pre + 8 * packet.len(),
        push_outcome(
            expected(mode, pre, word24(packet), packet.skip(3), i),
            burst_bits(pre, packet)[i as int],
            next,
            r,
        ),
    ensures
        i + 1 < pre + 8 * packet.len() ==> r is None,
        next == expected(mode, pre, word24(packet), packet.skip(3), i + 1),
        i + 1 == pre + 8 * packet.len() ==> (r matches Some(res) && decode_outcome(
            packet.skip(3),
            mode,
            res,
        )),
{
    let stream = packet.skip(3);
    let q = (i - pre) as nat;
    lemma_stream_bit(pre, packet, i);
    lemma_bit_position(q, packet.len());
    let j = ((q - 24) / 8) as nat;
    let t = ((q - 24) % 8) as nat;
    assert(stream[j as int] == packet[(j + 3) as int]);
    lemma_collect_step(mode, word24(packet), seen_after(pre + 24), stream, fixed, j, t, next, r);
}

/// The first `k` steps of a run of a new receiver over `pre` preamble bits and the bits of
/// a packet.
proof fn lemma_run(
    mode: Crc,
    pre: nat,
    packet: Seq<u8>,
    fixed: Seq<u8>,
    states: Seq<ReceiverView>,
    results: Seq<Option<Result<Decoded, Error>>>,
    k: nat,
)
    requires
        burst_ok(mode, packet, fixed),
        states[0] == idle(mode),
        receiver_run(states, results, burst_bits(pre, packet)),
        k <= pre + 8 * packet.len(),
    ensures
        states[k as int] == expected(mode, pre, word24(packet), packet.skip(3), k),
        forall|i: int|
            0 <= i < k && i + 1 < pre + 8 * packet.len() ==> #[trigger] results[i] is None,
        k == pre + 8 * packet.len() ==> (results[k - 1] matches Some(res) && decode_outcome(
            packet.skip(3),
            mode,
            res,
        )),
    decreases k,
{
    let bits = burst_bits(pre, packet);
    if k == 0 {
        lemma_preamble_step(pre, 0);
    } else {
        let i = (k - 1) as nat;
        lemma_run(mode, pre, packet, fixed, states, results, i);
        assert(push_outcome(states[i as int], bits[i as int], states[i as int + 1], results[i as int]));
        if i < pre {
            lemma_preamble_push(mode, pre, packet, fixed, i, states[k as int], results[i as int]);
        } else if i < pre + 24 {
            lemma_sync_push(mode, pre, packet, fixed, i, states[k as int], results[i as int]);
        } else {
            lemma_stream_push(mode, pre, packet, fixed, i, states[k as int], results[i as int]);
        }
    }
}

/// What the receiver needs of the stream of a packet `encode` produced holds of the same
/// stream with at most one symbol error in the header codeword and eight in each payload
/// block, and what decoding it gives is the
/// frame, with the errors counted as corrected.
proof fn lemma_encoded_receivable(f: FrameView, mode: Crc, stream: Seq<u8>)
    requires
        ax25::frame_valid(f),
        spec_encode(f, mode) is Ok,
        correctable(stream, spec_encode(f, mode)->Ok_0.skip(3), mode),
    ensures
        receivable(stream, spec_encode(f, mode)->Ok_0.skip(3), mode),
        forall|res: Result<Decoded, Error>|
            decode_outcome(stream, mode, res) ==> (res matches Ok(d) && d.frame@ == f && d.corrected
                == rs::diff_count(stream, spec_encode(f, mode)->Ok_0.skip(3))),
{
    let packet = spec_encode(f, mode)->Ok_0;
    lemma_encode_decode(f, mode, 0);
    assert(crate::frame::preamble(0) + packet =~= packet);
    lemma_parse_steps(packet.skip(3), mode);
}

/// Feeding the bits of a burst that `encode_burst` produced, with any number of preamble
/// bytes, most significant bit of each byte first, into a new receiver gives nothing until
/// the burst's last bit, and then gives the frame back; the receiver is hunting for the next
/// sync word afterwards. This holds too when the `received` packet after the preamble
/// differs from the encoded one in at most one bit of the sync word, at most one symbol of
/// the header codeword and at most eight symbols of each payload block; those symbols are
/// reported as corrected.
pub proof fn lemma_receive_burst(
    f: FrameView,
    mode: Crc,
    n: nat,
    received: Seq<u8>,
    states: Seq<ReceiverView>,
    results: Seq<Option<Result<Decoded, Error>>>,
)
    requires
        ax25::frame_valid(f),
        spec_encode(f, mode) is Ok,
        received.len() == spec_encode(f, mode)->Ok_0.len(),
        sync_match(word24(received)),
        correctable(received.skip(3), spec_encode(f, mode)->Ok_0.skip(3), mode),
        states[0] == idle(mode),
        receiver_run(states, results, bits_msb(crate::frame::preamble(n) + received)),
    ensures
        results.len() > 0,
        forall|i: int| 0 <= i < results.len() - 1 ==> #[trigger] results[i] is None,
        results.last() matches Some(Ok(d)) && d.frame@ == f && d.corrected == rs::diff_count(
            received.skip(3),
            spec_encode(f, mode)->Ok_0.skip(3),
        ),
        states.last() == idle(mode),
{
    let burst = crate::frame::preamble(n) + received;
    assert forall|p: int| 0 <= p < 8 * (n + received.len()) implies #[trigger] bits_msb(burst)[p]
        == (alternating(8 * n) + bits_msb(received))[p] by {
        lemma_burst_bit(n, received, p as nat);
        assert((8 * n - p) % 2 == 1 <==> p % 2 == 1);
    }
    assert(bits_msb(burst) =~= alternating(8 * n) + bits_msb(received));
    lemma_receive_aligned(f, mode, 8 * n, received, states, results);
}

/// Sync acquisition at any bit alignment: a new receiver that joins an alternating preamble
/// at any bit, so that it sees `pre` alternating bits ending in a one, followed by the bits
/// of a packet that `encode` produced, gives nothing until the packet's last bit and then
/// gives the frame back, hunting again afterwards. As above, the received packet may differ
/// from the encoded one in one bit of the sync word, one symbol of the header codeword and
/// eight symbols of each payload block.
pub proof fn lemma_receive_aligned(
    f: FrameView,
    mode: Crc,
    pre: nat,
    received: Seq<u8>,
    states: Seq<ReceiverView>,
    results: Seq<Option<Result<Decoded, Error>>>,
)
    requires
        ax25::frame_valid(f),
        spec_encode(f, mode) is Ok,
        received.len() == spec_encode(f, mode)->Ok_0.len(),
        sync_match(word24(received)),
        correctable(received.skip(3), spec_encode(f, mode)->Ok_0.skip(3), mode),
        states[0] == idle(mode),
        receiver_run(states, results, alternating(pre) + bits_msb(received)),
    ensures
        results.len() == pre + 8 * received.len(),
        forall|i: int| 0 <= i < results.len() - 1 ==> #[trigger] results[i] is None,
        results.last() matches Some(Ok(d)) && d.frame@ == f && d.corrected == rs::diff_count(
            received.skip(3),
            spec_encode(f, mode)->Ok_0.skip(3),
        ),
        states.last() == idle(mode),
{
    let fixed = spec_encode(f, mode)->Ok_0.skip(3);
    lemma_encoded_receivable(f, mode, received.skip(3));
    lemma_sync_word_matches(f, mode);
    lemma_run(mode, pre, received, fixed, states, results, pre + 8 * received.len());
}

/// The same law without a preamble: feeding the bits of a packet that `encode` produced, or
/// of bytes that differ from it as above, into a new receiver gives the frame back at the
/// last bit and nothing before.
pub proof fn lemma_receive_encoded(
    f: FrameView,
    mode: Crc,
    received: Seq<u8>,
    states: Seq<ReceiverView>,
    results: Seq<Option<Result<Decoded, Error>>>,
)
    requires
        ax25::frame_valid(f),
        spec_encode(f, mode) is Ok,
        received.len() == spec_encode(f, mode)->Ok_0.len(),
        sync_match(word24(received)),
        correctable(received.skip(3), spec_encode(f, mode)->Ok_0.skip(3), mode),
        states[0] == idle(mode),
        receiver_run(states, results, bits_msb(received)),
    ensures
        results.len() > 0,
        forall|i: int| 0 <= i < results.len() - 1 ==> #[trigger] results[i] is None,
        results.last() matches Some(Ok(d)) && d.frame@ == f && d.corrected == rs::diff_count(
            received.skip(3),
            spec_encode(f, mode)->Ok_0.skip(3),
        ),
        states.last() == idle(mode),
{
    assert(crate::frame::preamble(0) + received =~= received);
    lemma_receive_burst(f, mode, 0, received, states, results);
}

/// The sync word as `encode` writes it is accepted by the receiver: what holds of received
/// bytes whose sync word matches holds of the packet itself.
pub proof fn lemma_sync_matches(f: FrameView, mode: Crc)
    requires
        spec_encode(f, mode) is Ok,
    ensures
        sync_match(word24(spec_encode(f, mode)->Ok_0)),
{
    lemma_sync_word_matches(f, mode);
}

/// Every packet starts with the sync word.
proof fn lemma_packet_sync(h: Seq<u8>, payload: Seq<u8>, checksum: Option<u16>)
    ensures
        spec_packet(h, payload, checksum).len() > 3,
        spec_packet(h, payload, checksum)[0] == 0xf1u8,
        spec_packet(h, payload, checksum)[1] == 0x5eu8,
        spec_packet(h, payload, checksum)[2] == 0x48u8,
{
    rs::lemma_parity_codeword(scramble::spec_scramble(h), 2);
    let p = spec_packet(h, payload, checksum);
    let rest = header_codeword(h) + coded_payload(payload) + match checksum {
        Some(c) => crate::crc::spec_encode(c),
        None => Seq::<u8>::empty(),
    };
    assert(p =~= SYNC@ + rest);
}

/// A packet `encode` produced starts with the sync word.
proof fn lemma_sync_word_matches(f: FrameView, mode: Crc)
    requires
        spec_encode(f, mode) is Ok,
    ensures
        spec_encode(f, mode)->Ok_0.len() > 3,
        word24(spec_encode(f, mode)->Ok_0) == SYNC_WORD,
        sync_match(word24(spec_encode(f, mode)->Ok_0)),
{
    let packet = spec_encode(f, mode)->Ok_0;
    let header = match f {
        FrameView::Transparent(data) => transparent_header(data.len() as u16),
        FrameView::Translated { .. } => ax25::spec_encode(f)->Ok_0,
    };
    let payload = match f {
        FrameView::Transparent(data) => data,
        FrameView::Translated { data, .. } => data,
    };
    let checksum = match mode {
        Crc::Omitted => None,
        Crc::Hamming => Some(spec_frame_crc(f)->Ok_0),
    };
    assert(packet == spec_packet(header, payload, checksum));
    lemma_packet_sync(header, payload, checksum);
    let (p0, p1, p2) = (packet[0], packet[1], packet[2]);
    let w = word24(packet);
    assert(w == 0xf15e48u32 && w ^ 0xf15e48u32 == 0u32) by (bit_vector)
        requires
            p0 == 0xf1u8,
            p1 == 0x5eu8,
            p2 == 0x48u8,
            w == ((p0 as u32) << 16u32) | ((p1 as u32) << 8u32) | (p2 as u32),
    ;
    assert(ones32(0u32) == 0);
}

/// After `i` bits from a fresh start a receiver has seen no more than `i` bits while
/// hunting, and holds no more than the bits that followed a 24-bit sync word while
/// collecting.
spec fn early(v: ReceiverView, i: nat) -> bool {
    if !v.collecting {
        v.seen <= i
    } else {
        24 + 8 * v.data.len() + v.bits <= i
    }
}

proof fn lemma_early_step(v: ReceiverView, i: nat, bit: bool, next: ReceiverView, r: Option<Result<Decoded, Error>>)
    requires
        early(v, i),
        push_outcome(v, bit, next, r),
    ensures
        early(next, i + 1),
        r is Some ==> i + 1 >= 144,
{
    if v.collecting {
        let byte = (v.byte << 1u8) | (if bit { 1u8 } else { 0u8 });
        if v.bits + 1 == 8 {
            let data = v.data.push(byte);
            if data.len() == 15 {
                if !(r is None && next == idle(v.mode)) {
                    let count = choose|count: nat|
                        #[trigger] crate::frame::header_announces(data, count) && crate::frame::continue_with(
                            v,
                            data,
                            packet_len_for(count, v.mode),
                            next,
                            r,
                        );
                }
            }
        }
    }
}

/// A fresh receiver, and so one just reset or one that has just handed out a result, gives
/// nothing for its first 143 bits, whatever they are: the sync word takes 24 of them and the
/// header codeword another 120.
pub proof fn lemma_quiet_start(
    mode: Crc,
    bits: Seq<bool>,
    states: Seq<ReceiverView>,
    results: Seq<Option<Result<Decoded, Error>>>,
)
    requires
        states[0] == idle(mode),
        receiver_run(states, results, bits),
    ensures
        forall|i: int| 0 <= i < results.len() && i < 143 ==> #[trigger] results[i] is None,
{
    assert forall|i: int| 0 <= i <= bits.len() implies early(#[trigger] states[i], i as nat) by {
        lemma_early_prefix(mode, bits, states, results, i as nat);
    }
    assert forall|i: int| 0 <= i < results.len() && i < 143 implies #[trigger] results[i] is None by {
        assert(early(states[i], i as nat));
        assert(push_outcome(states[i], bits[i], states[i + 1], results[i]));
        lemma_early_step(states[i], i as nat, bits[i], states[i + 1], results[i]);
    }
}

proof fn lemma_early_prefix(
    mode: Crc,
    bits: Seq<bool>,
    states: Seq<ReceiverView>,
    results: Seq<Option<Result<Decoded, Error>>>,
    k: nat,
)
    requires
        states[0] == idle(mode),
        receiver_run(states, results, bits),
        k <= bits.len(),
    ensures
        early(states[k as int], k),
    decreases k,
{
    if k > 0 {
        let i = (k - 1) as nat;
        lemma_early_prefix(mode, bits, states, results, i);
        assert(push_outcome(states[i as int], bits[i as int], states[i as int + 1], results[i as int]));
        lemma_early_step(states[i as int], i, bits[i as int], states[k as int], results[i as int]);
    }
}

} // verus!
