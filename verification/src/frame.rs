//! IL2P packets: header and payload Reed-Solomon blocks, optional trailing CRC, and sync.
use vstd::prelude::*;
use crate::ax25;
use crate::crc;
use crate::error::Error;
use crate::packet::{Frame, FrameView};
use crate::rs;
use crate::scramble;

verus! {

pub const PREAMBLE: u8 = 0x55;
pub const SYNC_WORD: u32 = 0xf15e48;
pub const SYNC: [u8; 3] = [0xf1, 0x5e, 0x48];
pub const MAX_PAYLOAD: usize = 1023;
pub const MAX_PACKET: usize = 3 + 15 + MAX_PAYLOAD + 5 * 16 + 4;
pub const HEADER_LEN: usize = 13;
pub const HEADER_CODED: usize = 15;
pub const PARITY: usize = 16;

/// Trailing CRC mode.
#[derive(Clone, Copy, Debug, PartialEq, Eq, Structural)]
pub enum Crc {
    /// Plain IL2P framing, without the four trailing CRC codewords.
    Omitted,
    /// CRC-16/X-25 as four Hamming (7,4) codewords.
    Hamming,
}

impl Default for Crc {
    fn default() -> (r: Self)
        ensures
            r == Crc::Omitted,
    {
        Crc::Omitted
    }
}

/// Number of trailing CRC bytes in a mode.
pub open spec fn crc_len(mode: Crc) -> nat {
    match mode {
        Crc::Omitted => 0,
        Crc::Hamming => 4,
    }
}

impl Crc {
    fn len(self) -> (r: usize)
        ensures
            r == crc_len(self),
    {
        match self {
            Crc::Omitted => 0,
            Crc::Hamming => 4,
        }
    }
}

/// A recovered IL2P frame.
#[derive(Clone, Debug, PartialEq, Eq)]
pub struct Decoded {
    pub frame: Frame,
    /// Number of Reed-Solomon symbols repaired across all blocks.
    pub corrected: usize,
}

#[derive(Clone, Copy)]
enum Kind {
    Transparent,
    Translated,
}

/// Number of Reed-Solomon blocks for a payload of `size` bytes (at most 239 data bytes each).
pub open spec fn num_blocks(size: nat) -> nat {
    if size == 0 {
        0
    } else {
        ((size + 238) / 239) as nat
    }
}

/// Size of the smaller blocks.
pub open spec fn small_len(size: nat) -> nat {
    if size == 0 {
        0
    } else {
        size / num_blocks(size)
    }
}

/// Number of blocks one byte longer than the small ones; they come first.
pub open spec fn large_count(size: nat) -> nat {
    if size == 0 {
        0
    } else {
        (size - num_blocks(size) * small_len(size)) as nat
    }
}

/// Data length of block `k`.
pub open spec fn block_len(size: nat, k: nat) -> nat {
    small_len(size) + if k < large_count(size) {
        1nat
    } else {
        0nat
    }
}

/// Offset in the payload of block `k`.
pub open spec fn block_start(size: nat, k: nat) -> nat {
    k * small_len(size) + if k < large_count(size) {
        k
    } else {
        large_count(size)
    }
}

/// Length of the coded payload: data plus sixteen parity bytes per block.
pub open spec fn coded_len(size: nat) -> nat {
    size + num_blocks(size) * 16
}

/// Offset in the coded payload of block `k`.
pub open spec fn coded_start(size: nat, k: nat) -> nat {
    block_start(size, k) + 16 * k
}

pub(crate) proof fn lemma_plan(size: nat)
    requires
        size <= 1023,
    ensures
        num_blocks(size) <= 5,
        size > 0 ==> num_blocks(size) >= 1 && small_len(size) >= 1,
        size > 0 ==> large_count(size) < num_blocks(size),
        num_blocks(size) * small_len(size) + large_count(size) == size,
        small_len(size) <= 239,
        large_count(size) > 0 ==> small_len(size) < 239,
        size == 0 ==> large_count(size) == 0 && small_len(size) == 0,
{
    if size > 0 {
        let nb = num_blocks(size);
        assert(1 <= nb <= 5);
        assert(239 * (nb - 1) < size <= 239 * nb) by (nonlinear_arith)
            requires
                nb == (size + 238) / 239,
                size >= 1,
        ;
        let q = size / nb;
        let r = size % nb;
        assert(nb * q + r == size && r < nb && 1 <= q <= 239 && (r > 0 ==> q < 239)) by (nonlinear_arith)
            requires
                1 <= nb <= 5,
                239 * (nb - 1) < size <= 239 * nb,
                q == size / nb,
                r == size % nb,
        ;
    }
}

pub(crate) proof fn lemma_block_starts(size: nat, k: nat)
    requires
        size <= 1023,
        k <= num_blocks(size),
    ensures
        block_start(size, 0) == 0,
        k < num_blocks(size) ==> block_start(size, k + 1) == block_start(size, k) + block_len(size, k),
        k < num_blocks(size) ==> 1 <= block_len(size, k) <= 239,
        block_start(size, k) <= size,
        block_start(size, num_blocks(size)) == size,
        coded_start(size, num_blocks(size)) == coded_len(size),
        k < num_blocks(size) ==> coded_start(size, k + 1) == coded_start(size, k) + block_len(size, k) + 16,
        coded_start(size, k) <= coded_len(size),
{
    lemma_plan(size);
    let nb = num_blocks(size);
    let s = small_len(size);
    let l = large_count(size);
    assert(k * s <= nb * s) by (nonlinear_arith)
        requires
            k <= nb,
    ;
    assert((k + 1) * s == k * s + s) by (nonlinear_arith);
    assert(0 * s == 0) by (nonlinear_arith);
}

pub(crate) proof fn lemma_coded_start_mono(size: nat, i: nat, k: nat)
    requires
        i <= k,
    ensures
        coded_start(size, i) <= coded_start(size, k),
        block_start(size, i) <= block_start(size, k),
{
    let s = small_len(size);
    assert(i * s <= k * s) by (nonlinear_arith)
        requires
            i <= k,
    ;
}

fn plan(size: usize) -> (r: (usize, usize, usize))
    requires
        size <= 1023,
    ensures
        r.0 == num_blocks(size as nat),
        r.1 == small_len(size as nat),
        r.2 == large_count(size as nat),
{
    proof {
        lemma_plan(size as nat);
    }
    if size == 0 {
        return (0, 0, 0);
    }
    let blocks = (size + 238) / 239;
    let small = size / blocks;
    let large = size - blocks * small;
    (blocks, small, large)
}

fn coded_payload_len(size: usize) -> (r: usize)
    requires
        size <= 1023,
    ensures
        r == coded_len(size as nat),
        r <= 1023 + 80,
{
    proof {
        lemma_plan(size as nat);
    }
    if size == 0 {
        0
    } else {
        size + ((size + 238) / 239) * PARITY
    }
}

fn zeros(n: usize) -> (v: Vec<u8>)
    ensures
        v@ == Seq::new(n as nat, |i: int| 0u8),
{
    let mut v: Vec<u8> = Vec::new();
    let mut i: usize = 0;
    while i < n
        invariant
            i <= n,
            v@ == Seq::new(i as nat, |t: int| 0u8),
        decreases n - i,
    {
        v.push(0);
        i += 1;
        assert(v@ =~= Seq::new(i as nat, |t: int| 0u8));
    }
    v
}

fn extend(out: &mut Vec<u8>, s: &[u8])
    ensures
        final(out)@ == old(out)@ + s@,
{
    let mut i: usize = 0;
    while i < s.len()
        invariant
            i <= s@.len(),
            out@ == old(out)@ + s@.take(i as int),
        decreases s@.len() - i,
    {
        out.push(s[i]);
        i += 1;
        assert(out@ =~= old(out)@ + s@.take(i as int));
    }
    assert(s@.take(s@.len() as int) =~= s@);
}

/// The number carried by the 0x80 lane of header bytes `start .. start + n`, MSB first.
pub open spec fn lane_value(h: Seq<u8>, bit: u8, start: int, n: nat) -> nat
    decreases n,
{
    if n == 0 {
        0
    } else {
        lane_value(h, bit, start, (n - 1) as nat) * 2 + if h[start + n - 1] & bit != 0 {
            1nat
        } else {
            0nat
        }
    }
}

/// The payload byte count carried by a header.
pub open spec fn header_count(h: Seq<u8>) -> nat {
    lane_value(h, 0x80, 2, 10)
}

proof fn lemma_lane_shift(g: u16, b: u16)
    requires
        g < 1024,
        b <= 1,
    ensures
        ((g << 1u16) | b) as int == g * 2 + b,
{
    assert(((g << 1u16) | b) as int == g * 2 + b) by (bit_vector)
        requires
            g < 1024,
            b <= 1,
    ;
}

pub(crate) proof fn lemma_lane_value(h: Seq<u8>, bit: u8, start: int, n: nat)
    requires
        n <= 10,
        0 <= start,
        start + n <= h.len(),
    ensures
        lane_value(h, bit, start, n) == ax25::get_lane_spec(h, bit, start, n) as nat,
        lane_value(h, bit, start, n) < scramble::two_pow(n),
    decreases n,
{
    if n > 0 {
        lemma_lane_value(h, bit, start, (n - 1) as nat);
        reveal_with_fuel(scramble::two_pow, 11);
        assert(scramble::two_pow((n - 1) as nat) <= 512);
        let b: u16 = if h[start + n - 1] & bit != 0 {
            1
        } else {
            0
        };
        lemma_lane_shift(ax25::get_lane_spec(h, bit, start, (n - 1) as nat), b);
    }
}

proof fn lemma_top_bit(b: u8)
    ensures
        (b >> 7u8) as nat == (if b & 0x80u8 != 0 { 1nat } else { 0nat }),
{
    assert((b >> 7u8) as nat == (if b & 0x80u8 != 0 { 1nat } else { 0nat })) by (bit_vector);
}

fn payload_count(header: &[u8; 13]) -> (count: usize)
    ensures
        count == header_count(header@),
        count < 1024,
{
    let mut count: usize = 0;
    let mut i: usize = 0;
    while i < 10
        invariant
            i <= 10,
            count == lane_value(header@, 0x80, 2, i as nat),
            count < scramble::two_pow(i as nat),
        decreases 10 - i,
    {
        proof {
            lemma_lane_value(header@, 0x80, 2, (i + 1) as nat);
            lemma_top_bit(header@[2 + i]);
            reveal_with_fuel(scramble::two_pow, 11);
        }
        count = count * 2 + (header[2 + i] >> 7) as usize;
        i += 1;
    }
    proof {
        reveal_with_fuel(scramble::two_pow, 11);
    }
    count
}

/// The transparent (Type 0) header for a payload of `count` bytes.
pub open spec fn transparent_header(count: u16) -> Seq<u8> {
    Seq::new(13, |k: int| 0u8 | (if ax25::lane(count, 11, 10, k) { 0x80u8 } else { 0u8 }))
}

fn set_payload_count(header: &mut [u8; 13], count: usize)
    requires
        count <= 1023,
        forall|k: int| 0 <= k < 13 ==> old(header)@[k] == 0u8,
    ensures
        final(header)@ == transparent_header(count as u16),
{
    ax25::set_lane(header, 0x80, 11, 10, count as u16);
    assert(header@ =~= transparent_header(count as u16));
}

/// Scrambled data followed by its sixteen Reed-Solomon parity bytes.
pub open spec fn coded_block(data: Seq<u8>) -> Seq<u8> {
    scramble::spec_scramble(data) + rs::rs_parity(scramble::spec_scramble(data), 16)
}

/// The first `k` coded blocks of a payload.
pub open spec fn coded_blocks(payload: Seq<u8>, k: nat) -> Seq<u8>
    decreases k,
{
    if k == 0 {
        Seq::empty()
    } else {
        let size = payload.len();
        coded_blocks(payload, (k - 1) as nat) + coded_block(
            payload.subrange(
                block_start(size, (k - 1) as nat) as int,
                block_start(size, k) as int,
            ),
        )
    }
}

/// The coded payload: every block of the payload, coded.
pub open spec fn coded_payload(payload: Seq<u8>) -> Seq<u8> {
    coded_blocks(payload, num_blocks(payload.len()))
}

/// The header codeword: the scrambled header and its two parity bytes.
pub open spec fn header_codeword(header: Seq<u8>) -> Seq<u8> {
    scramble::spec_scramble(header) + rs::rs_parity(scramble::spec_scramble(header), 2)
}

/// A whole packet: sync word, header codeword, coded payload and the optional CRC codewords.
pub open spec fn spec_packet(header: Seq<u8>, payload: Seq<u8>, checksum: Option<u16>) -> Seq<u8> {
    SYNC@ + header_codeword(header) + coded_payload(payload) + match checksum {
        Some(c) => crc::spec_encode(c),
        None => Seq::empty(),
    }
}

fn append_block(data: &[u8], output: &mut Vec<u8>)
    requires
        1 <= data@.len() <= 239,
    ensures
        final(output)@ == old(output)@ + coded_block(data@),
{
    let mut scrambled = zeros(data.len());
    scramble::scramble(data, scrambled.as_mut_slice());
    assert(scrambled@ =~= scramble::spec_scramble(data@));
    extend(output, &scrambled);
    let mut parity = zeros(PARITY);
    rs::encode(&scrambled, parity.as_mut_slice());
    extend(output, &parity);
    assert(output@ =~= old(output)@ + coded_block(data@));
}

fn append_payload(payload: &[u8], output: &mut Vec<u8>)
    requires
        payload@.len() <= 1023,
    ensures
        final(output)@ == old(output)@ + coded_payload(payload@),
{
    let size = payload.len();
    let (blocks, small, large) = plan(size);
    let ghost sz = size as nat;
    proof {
        lemma_block_starts(sz, 0);
    }
    let mut offset: usize = 0;
    let mut block: usize = 0;
    while block < blocks
        invariant
            block <= blocks == num_blocks(sz),
            sz == payload@.len() <= 1023,
            small == small_len(sz),
            large == large_count(sz),
            offset == block_start(sz, block as nat),
            output@ == old(output)@ + coded_blocks(payload@, block as nat),
        decreases blocks - block,
    {
        proof {
            lemma_block_starts(sz, block as nat);
            lemma_block_starts(sz, (block + 1) as nat);
        }
        let size = small + if block < large { 1 } else { 0 };
        assert(size == block_len(sz, block as nat));
        let part = vstd::slice::slice_subrange(payload, offset, offset + size);
        append_block(part, output);
        offset += size;
        block += 1;
        assert(output@ =~= old(output)@ + coded_blocks(payload@, block as nat));
    }
}

/// CRC of a frame: of the payload for a transparent frame, of the equivalent AX.25 frame
/// for a translated one.
pub open spec fn spec_frame_crc(f: FrameView) -> Result<u16, Error> {
    match f {
        FrameView::Transparent(data) => Ok(crc::spec_crc16(data)),
        FrameView::Translated { .. } => match ax25::spec_ax25_bytes(f) {
            Ok(bytes) => Ok(crc::spec_crc16(bytes)),
            Err(e) => Err(e),
        },
    }
}

fn frame_crc(frame: &Frame) -> (r: Result<u16, Error>)
    ensures
        r == spec_frame_crc(frame@),
{
    match frame {
        Frame::Transparent(data) => Ok(crc::crc16(data)),
        Frame::Translated { .. } => {
            let bytes = ax25::gen_frame(frame)?;
            Ok(crc::crc16(&bytes))
        },
    }
}

fn encode_parts(header: &[u8; 13], payload: &[u8], checksum: Option<u16>) -> (r: Vec<u8>)
    requires
        payload@.len() <= 1023,
    ensures
        r@ == spec_packet(header@, payload@, checksum),
{
    let mut output: Vec<u8> = Vec::new();
    extend(&mut output, &SYNC);
    let mut scrambled = zeros(HEADER_LEN);
    scramble::scramble(header, scrambled.as_mut_slice());
    assert(scrambled@ =~= scramble::spec_scramble(header@));
    extend(&mut output, &scrambled);
    let mut parity = zeros(2);
    rs::encode(&scrambled, parity.as_mut_slice());
    extend(&mut output, &parity);
    append_payload(payload, &mut output);
    match checksum {
        Some(c) => {
            let code = crc::encode(c);
            extend(&mut output, &code);
        },
        None => {},
    }
    assert(output@ =~= spec_packet(header@, payload@, checksum));
    output
}

/// The packet encoding a frame, or the error with which encoding fails.
pub open spec fn spec_encode(f: FrameView, mode: Crc) -> Result<Seq<u8>, Error> {
    let header = match f {
        FrameView::Transparent(data) => if data.len() < 14 {
            Err(Error::Frame)
        } else if data.len() > 1023 {
            Err(Error::TooLong)
        } else {
            Ok(transparent_header(data.len() as u16))
        },
        FrameView::Translated { .. } => ax25::spec_encode(f),
    };
    let payload = match f {
        FrameView::Transparent(data) => data,
        FrameView::Translated { data, .. } => data,
    };
    match header {
        Err(e) => Err(e),
        Ok(h) => match mode {
            Crc::Omitted => Ok(spec_packet(h, payload, None)),
            Crc::Hamming => match spec_frame_crc(f) {
                Ok(c) => Ok(spec_packet(h, payload, Some(c))),
                Err(e) => Err(e),
            },
        },
    }
}

/// Encode a IL2P frame.
///
/// The result starts with the three-byte sync word and has no preamble.
pub fn encode(frame: &Frame, mode: Crc) -> (r: Result<Vec<u8>, Error>)
    ensures
        match spec_encode(frame@, mode) {
            Ok(p) => r is Ok && r->Ok_0@ == p,
            Err(e) => r == Err::<Vec<u8>, Error>(e),
        },
{
    let mut header = [0u8; 13];
    let payload: &[u8] = match frame {
        Frame::Transparent(data) => {
            if data.len() < 14 {
                return Err(Error::Frame);
            }
            if data.len() > MAX_PAYLOAD {
                return Err(Error::TooLong);
            }
            set_payload_count(&mut header, data.len());
            data.as_slice()
        },
        Frame::Translated { data, .. } => {
            ax25::encode(frame, &mut header)?;
            data.as_slice()
        },
    };
    let checksum = match mode {
        Crc::Omitted => None,
        Crc::Hamming => Some(frame_crc(frame)?),
    };
    Ok(encode_parts(&header, payload, checksum))
}

/// `n` preamble bytes.
pub open spec fn preamble(n: nat) -> Seq<u8> {
    Seq::new(n, |i: int| PREAMBLE)
}

/// Encode a transmit burst with `preamble` alternating-bit bytes.
pub fn encode_burst(frame: &Frame, mode: Crc, preamble: usize) -> (r: Result<Vec<u8>, Error>)
    ensures
        match spec_encode(frame@, mode) {
            Ok(p) => r is Ok && r->Ok_0@ == self::preamble(preamble as nat) + p,
            Err(e) => r == Err::<Vec<u8>, Error>(e),
        },
{
    let packet = encode(frame, mode)?;
    let mut burst: Vec<u8> = Vec::new();
    let mut i: usize = 0;
    while i < preamble
        invariant
            i <= preamble,
            burst@ == self::preamble(i as nat),
        decreases preamble - i,
    {
        burst.push(PREAMBLE);
        i += 1;
        assert(burst@ =~= self::preamble(i as nat));
    }
    extend(&mut burst, &packet);
    Ok(burst)
}

/// Whether any header byte has one of its low seven bits set.
pub open spec fn low_bits_set(h: Seq<u8>) -> bool {
    exists|k: int| 0 <= k < 13 && #[trigger] h[k] & 0x7fu8 != 0
}

/// The header checks after error correction: reserved bits clear, and a transparent header
/// carries nothing but a payload count of at least 14.
pub open spec fn header_invalid(h: Seq<u8>) -> bool {
    ||| h[0] & 0x80u8 != 0
    ||| (h[1] & 0x80u8 == 0 && (low_bits_set(h) || h[12] & 0x80u8 != 0 || header_count(h) < 14))
}

/// Block `k` of a coded payload.
pub open spec fn coded_block_at(coded: Seq<u8>, size: nat, k: nat) -> Seq<u8> {
    coded.subrange(coded_start(size, k) as int, coded_start(size, k + 1) as int)
}

/// Every coded block of `a` is at most eight symbols from the same block of `b`: within the
/// correction capacity of its sixteen parity symbols.
pub open spec fn blocks_near(a: Seq<u8>, b: Seq<u8>, size: nat) -> bool {
    forall|j: nat|
        j < num_blocks(size) ==> rs::diff_count(
            #[trigger] coded_block_at(a, size, j),
            coded_block_at(b, size, j),
        ) <= 8
}

/// A coded block lies within eight symbols of a codeword of sixteen parity symbols.
pub open spec fn block_reachable(b: Seq<u8>) -> bool {
    exists|c: Seq<u8>| rs::is_codeword(c, 16) && c.len() == b.len() && #[trigger] rs::diff_count(b, c) <= 8
}

/// The first `k` blocks of a coded payload are Reed-Solomon codewords.
pub open spec fn blocks_clean(coded: Seq<u8>, size: nat, k: nat) -> bool {
    forall|j: nat| j < k ==> rs::is_codeword(#[trigger] coded_block_at(coded, size, j), 16)
}

/// The descrambled data of the first `k` blocks of a coded payload.
pub open spec fn decoded_blocks(coded: Seq<u8>, size: nat, k: nat) -> Seq<u8>
    decreases k,
{
    if k == 0 {
        Seq::empty()
    } else {
        let j = (k - 1) as nat;
        decoded_blocks(coded, size, j) + scramble::spec_descramble(
            coded.subrange(
                coded_start(size, j) as int,
                (coded_start(size, j) + block_len(size, j)) as int,
            ),
        )
    }
}

/// The decoded header of a stream that starts after the sync word.
pub open spec fn stream_header(stream: Seq<u8>) -> Seq<u8> {
    scramble::spec_descramble(stream.take(13))
}

/// The frame carried by a decoded header and payload, checked against the trailing CRC
/// codewords in `trailer`, or the error with which that fails.
pub open spec fn parse_body(h: Seq<u8>, payload: Seq<u8>, trailer: Seq<u8>, mode: Crc) -> Result<
    FrameView,
    Error,
> {
    let frame = if h[1] & 0x80u8 != 0 {
        ax25::spec_decode(h, payload)
    } else {
        Some(FrameView::Transparent(payload))
    };
    match frame {
        None => Err(Error::Header),
        Some(f) => match mode {
            Crc::Omitted => Ok(f),
            Crc::Hamming => match crc::spec_decode(trailer) {
                Err(e) => Err(e),
                Ok(received) => match spec_frame_crc(f) {
                    Err(e) => Err(e),
                    Ok(c) => if received != c {
                        Err(Error::Crc)
                    } else {
                        Ok(f)
                    },
                },
            },
        },
    }
}

/// The frame a stream (after the sync word) carries when it holds no symbol errors, or
/// the error with which decoding it fails.
#[verifier::opaque]
pub open spec fn spec_parse(stream: Seq<u8>, mode: Crc) -> Result<FrameView, Error> {
    if stream.len() < 15 {
        Err(Error::Truncated)
    } else {
        let h = stream_header(stream);
        let count = header_count(h);
        let plen = coded_len(count);
        let packet_len = 15 + plen + crc_len(mode);
        if header_invalid(h) || count > 1023 {
            Err(Error::Header)
        } else if stream.len() < packet_len {
            Err(Error::Truncated)
        } else {
            parse_body(
                h,
                decoded_blocks(stream.subrange(15, (15 + plen) as int), count, num_blocks(count)),
                stream.subrange((15 + plen) as int, packet_len as int),
                mode,
            )
        }
    }
}

/// How `spec_parse` proceeds, step by step.
pub proof fn lemma_parse_steps(stream: Seq<u8>, mode: Crc)
    ensures
        stream.len() < 15 ==> spec_parse(stream, mode) == Err::<FrameView, Error>(Error::Truncated),
        stream.len() >= 15 ==> {
            let h = stream_header(stream);
            let count = header_count(h);
            let plen = coded_len(count);
            let packet_len = 15 + plen + crc_len(mode);
            &&& (header_invalid(h) || count > 1023) ==> spec_parse(stream, mode) == Err::<
                FrameView,
                Error,
            >(Error::Header)
            &&& (!header_invalid(h) && count <= 1023 && stream.len() < packet_len) ==> spec_parse(
                stream,
                mode,
            ) == Err::<FrameView, Error>(Error::Truncated)
            &&& (!header_invalid(h) && count <= 1023 && stream.len() >= packet_len) ==> spec_parse(
                stream,
                mode,
            ) == parse_body(
                h,
                decoded_blocks(stream.subrange(15, (15 + plen) as int), count, num_blocks(count)),
                stream.subrange((15 + plen) as int, packet_len as int),
                mode,
            )
        },
{
    reveal(spec_parse);
}

/// Bytes after a complete packet change nothing: a stream that holds the whole packet its
/// header announces parses, and is error free, exactly as it does with more bytes appended.
pub proof fn lemma_trailing_bytes(stream: Seq<u8>, extra: Seq<u8>, mode: Crc)
    requires
        spec_parse(stream, mode) != Err::<FrameView, Error>(Error::Truncated),
    ensures
        spec_parse(stream + extra, mode) == spec_parse(stream, mode),
        clean(stream + extra, mode) == clean(stream, mode),
{
    let s = stream + extra;
    lemma_parse_steps(stream, mode);
    lemma_parse_steps(s, mode);
    assert(s.take(15) =~= stream.take(15));
    assert(s.take(13) =~= stream.take(13));
    let h = stream_header(stream);
    let count = header_count(h);
    let plen = coded_len(count);
    let packet_len = 15 + plen + crc_len(mode);
    if !header_invalid(h) && count <= 1023 {
        assert(s.subrange(15, (15 + plen) as int) =~= stream.subrange(15, (15 + plen) as int));
        assert(s.subrange((15 + plen) as int, packet_len as int) =~= stream.subrange(
            (15 + plen) as int,
            packet_len as int,
        ));
    }
}

/// Every Reed-Solomon codeword of the stream, as laid out by its own header, is error free.
pub open spec fn clean(stream: Seq<u8>, mode: Crc) -> bool {
    stream.len() >= 15 ==> {
        &&& rs::is_codeword(stream.take(15), 2)
        &&& {
            let h = stream_header(stream);
            let count = header_count(h);
            let plen = coded_len(count);
            (!header_invalid(h) && count <= 1023 && stream.len() >= 15 + plen + crc_len(mode))
                ==> blocks_clean(stream.subrange(15, (15 + plen) as int), count, num_blocks(count))
        }
    }
}

/// `w` is an error-free stream within `n` symbol changes of `stream` that carries `f`.
pub open spec fn corrects_to(stream: Seq<u8>, w: Seq<u8>, mode: Crc, f: FrameView, n: nat) -> bool {
    &&& w.len() == stream.len()
    &&& clean(w, mode)
    &&& spec_parse(w, mode) == Ok::<FrameView, Error>(f)
    &&& rs::diff_count(stream, w) <= n
}

/// The errors that decoding a stream after its sync word can end in.
pub open spec fn stream_error(e: Error) -> bool {
    e == Error::Truncated || e == Error::Header || e == Error::Payload || e == Error::Crc
}

/// The stream ends before the packet it announces: it is shorter than a header, or shorter
/// than the packet of a valid header codeword within one symbol of its first 15 bytes.
pub open spec fn short_stream(stream: Seq<u8>, mode: Crc) -> bool {
    stream.len() < 15 || exists|c: Seq<u8>|
        #[trigger] header_read(stream.take(15), c, header_count(stream_header(c)))
            && stream.len() < packet_len_for(header_count(stream_header(c)), mode)
}

/// No codeword within one symbol of the stream's header carries a valid header.
pub open spec fn header_unreadable(stream: Seq<u8>) -> bool {
    &&& stream.len() >= 15
    &&& forall|c: Seq<u8>|
        rs::is_codeword(c, 2) && c.len() == 15 && #[trigger] rs::diff_count(stream.take(15), c) <= 1
            ==> header_invalid(stream_header(c))
}

/// The header is read and the whole packet is there, but some payload block lies beyond
/// eight symbols of every codeword.
pub open spec fn payload_unreachable(stream: Seq<u8>, mode: Crc) -> bool {
    exists|c: Seq<u8>|
        #[trigger] header_read(stream.take(15), c, header_count(stream_header(c))) && stream.len()
            >= packet_len_for(header_count(stream_header(c)), mode) && exists|j: nat|
            j < num_blocks(header_count(stream_header(c))) && !block_reachable(
                #[trigger] coded_block_at(
                    stream.subrange(15, (15 + coded_len(header_count(stream_header(c)))) as int),
                    header_count(stream_header(c)),
                    j,
                ),
            )
}

/// Which outcome a stream's shape forces: truncation for a stream shorter than its packet, a
/// header error for an unreadable header, a payload error exactly for an unreachable
/// payload block; and a frame, a CRC error or a header error from a readable header only
/// when the stream is within correction reach.
#[verifier::opaque]
pub open spec fn outcome_kinds(stream: Seq<u8>, mode: Crc, r: Result<Decoded, Error>) -> bool {
    &&& short_stream(stream, mode) ==> r == Err::<Decoded, Error>(Error::Truncated)
    &&& header_unreadable(stream) ==> r == Err::<Decoded, Error>(Error::Header)
    &&& (r == Err::<Decoded, Error>(Error::Payload)) == payload_unreachable(stream, mode)
    &&& (r is Ok || r == Err::<Decoded, Error>(Error::Crc) || (r == Err::<Decoded, Error>(Error::Header)
        && !header_unreadable(stream))) ==> exists|w: Seq<u8>| #[trigger] correctable(stream, w, mode)
}

/// The header codeword `hw`, the only one within one symbol of the stream's first 15 bytes,
/// is valid and announces `count` bytes.
pub open spec fn header_fixed(stream: Seq<u8>, hw: Seq<u8>, count: nat) -> bool {
    &&& stream.len() >= 15
    &&& header_read(stream.take(15), hw, count)
    &&& count <= 1023
    &&& forall|c: Seq<u8>|
        rs::is_codeword(c, 2) && c.len() == 15 && #[trigger] rs::diff_count(stream.take(15), c) <= 1
            ==> c == hw
}

proof fn lemma_kinds_header_error(stream: Seq<u8>, mode: Crc, r: Result<Decoded, Error>)
    requires
        (stream.len() < 15 && r == Err::<Decoded, Error>(Error::Truncated)) || (stream.len() >= 15 && r
            == Err::<Decoded, Error>(Error::Header) && forall|c: Seq<u8>|
            rs::is_codeword(c, 2) && c.len() == 15 && #[trigger] rs::diff_count(stream.take(15), c) <= 1
                ==> header_invalid(stream_header(c))),
    ensures
        outcome_kinds(stream, mode, r),
{
    reveal(outcome_kinds);
    if payload_unreachable(stream, mode) {
        let c = choose|c: Seq<u8>|
            #[trigger] header_read(stream.take(15), c, header_count(stream_header(c))) && stream.len()
                >= packet_len_for(header_count(stream_header(c)), mode) && exists|j: nat|
                j < num_blocks(header_count(stream_header(c))) && !block_reachable(
                    #[trigger] coded_block_at(
                        stream.subrange(15, (15 + coded_len(header_count(stream_header(c)))) as int),
                        header_count(stream_header(c)),
                        j,
                    ),
                );
        assert(rs::diff_count(stream.take(15), c) <= 1);
    }
    if short_stream(stream, mode) && stream.len() >= 15 {
        let c = choose|c: Seq<u8>|
            #[trigger] header_read(stream.take(15), c, header_count(stream_header(c)))
                && stream.len() < packet_len_for(header_count(stream_header(c)), mode);
        assert(rs::diff_count(stream.take(15), c) <= 1);
    }
}

proof fn lemma_kinds_fixed(stream: Seq<u8>, mode: Crc, hw: Seq<u8>, count: nat)
    requires
        header_fixed(stream, hw, count),
    ensures
        !header_unreadable(stream),
        short_stream(stream, mode) == (stream.len() < packet_len_for(count, mode)),
        payload_unreachable(stream, mode) == (stream.len() >= packet_len_for(count, mode) && exists|j: nat|
            j < num_blocks(count) && !block_reachable(
                #[trigger] coded_block_at(stream.subrange(15, (15 + coded_len(count)) as int), count, j),
            )),
{
    assert(rs::diff_count(stream.take(15), hw) <= 1);
    if short_stream(stream, mode) {
        let c = choose|c: Seq<u8>|
            #[trigger] header_read(stream.take(15), c, header_count(stream_header(c)))
                && stream.len() < packet_len_for(header_count(stream_header(c)), mode);
        assert(rs::diff_count(stream.take(15), c) <= 1);
    }
    if stream.len() < packet_len_for(count, mode) {
        assert(header_read(stream.take(15), hw, header_count(stream_header(hw))));
    }
    if payload_unreachable(stream, mode) {
        let c = choose|c: Seq<u8>|
            #[trigger] header_read(stream.take(15), c, header_count(stream_header(c))) && stream.len()
                >= packet_len_for(header_count(stream_header(c)), mode) && exists|j: nat|
                j < num_blocks(header_count(stream_header(c))) && !block_reachable(
                    #[trigger] coded_block_at(
                        stream.subrange(15, (15 + coded_len(header_count(stream_header(c)))) as int),
                        header_count(stream_header(c)),
                        j,
                    ),
                );
        assert(rs::diff_count(stream.take(15), c) <= 1);
        assert(c == hw);
    }
    if stream.len() >= packet_len_for(count, mode) && exists|j: nat|
        j < num_blocks(count) && !block_reachable(
            #[trigger] coded_block_at(stream.subrange(15, (15 + coded_len(count)) as int), count, j),
        ) {
        assert(header_read(stream.take(15), hw, header_count(stream_header(hw))));
    }
}

proof fn lemma_kinds_short(stream: Seq<u8>, mode: Crc, hw: Seq<u8>, count: nat)
    requires
        header_fixed(stream, hw, count),
        stream.len() < packet_len_for(count, mode),
    ensures
        outcome_kinds(stream, mode, Err::<Decoded, Error>(Error::Truncated)),
{
    reveal(outcome_kinds);
    lemma_kinds_fixed(stream, mode, hw, count);
}

proof fn lemma_kinds_payload(stream: Seq<u8>, mode: Crc, hw: Seq<u8>, count: nat)
    requires
        header_fixed(stream, hw, count),
        stream.len() >= packet_len_for(count, mode),
        exists|j: nat|
            j < num_blocks(count) && !block_reachable(
                #[trigger] coded_block_at(stream.subrange(15, (15 + coded_len(count)) as int), count, j),
            ),
    ensures
        outcome_kinds(stream, mode, Err::<Decoded, Error>(Error::Payload)),
{
    reveal(outcome_kinds);
    lemma_kinds_fixed(stream, mode, hw, count);
}

proof fn lemma_kinds_reach(
    stream: Seq<u8>,
    mode: Crc,
    hw: Seq<u8>,
    count: nat,
    pw: Seq<u8>,
    r: Result<Decoded, Error>,
)
    requires
        header_fixed(stream, hw, count),
        stream.len() >= packet_len_for(count, mode),
        pw.len() == coded_len(count),
        blocks_clean(pw, count, num_blocks(count)),
        blocks_near(stream.subrange(15, (15 + coded_len(count)) as int), pw, count),
        r != Err::<Decoded, Error>(Error::Truncated),
        r != Err::<Decoded, Error>(Error::Payload),
    ensures
        outcome_kinds(stream, mode, r),
{
    reveal(outcome_kinds);
    lemma_kinds_fixed(stream, mode, hw, count);
    let coded = stream.subrange(15, (15 + coded_len(count)) as int);
    assert forall|j: nat| j < num_blocks(count) implies block_reachable(
        #[trigger] coded_block_at(coded, count, j),
    ) by {
        lemma_block_starts(count, j);
        lemma_block_starts(count, j + 1);
        let c = coded_block_at(pw, count, j);
        assert(rs::diff_count(coded_block_at(coded, count, j), c) <= 8);
        assert(rs::is_codeword(c, 16));
    }
    lemma_reach_witness(stream, hw, pw, mode, scramble::spec_descramble(hw.take(13)));
    assert(correctable(stream, hw + pw + stream.skip((15 + pw.len()) as int), mode));
}

/// `w` is `stream` with each of its Reed-Solomon codewords, as laid out by `w`'s header,
/// replaced by a codeword within its correction reach (one symbol for the header codeword,
/// eight for each payload block), and nothing else changed; every codeword of `w` is error
/// free.
pub open spec fn correctable(stream: Seq<u8>, w: Seq<u8>, mode: Crc) -> bool {
    &&& stream.len() >= 15
    &&& w.len() == stream.len()
    &&& clean(w, mode)
    &&& rs::diff_count(stream.take(15), w.take(15)) <= 1
    &&& {
        let count = header_count(stream_header(w));
        let plen = coded_len(count);
        if !header_invalid(stream_header(w)) && count <= 1023 && stream.len() >= 15 + plen
            + crc_len(mode) {
            &&& blocks_near(stream.subrange(15, (15 + plen) as int), w.subrange(15, (15 + plen) as int), count)
            &&& w.skip((15 + plen) as int) == stream.skip((15 + plen) as int)
        } else {
            w.skip(15) == stream.skip(15)
        }
    }
}

/// What decoding a stream (after the sync word) gives: the truncation error for a stream
/// shorter than its packet; a header error for an unreadable header; a payload error for a
/// payload block beyond repair; exactly the parsed frame (or error) for an error-free stream,
/// and for one with at most one symbol error in the header codeword and eight in each payload
/// block, that of the corrected stream, with the corrected symbols counted. These cases cover
/// every stream, so the outcome is determined by the stream.
pub open spec fn decode_outcome(stream: Seq<u8>, mode: Crc, r: Result<Decoded, Error>) -> bool {
    &&& r is Err ==> stream_error(r->Err_0)
    &&& stream.len() < 15 ==> r == Err::<Decoded, Error>(Error::Truncated)
    &&& r == Err::<Decoded, Error>(Error::Truncated) ==> short_stream(stream, mode)
    &&& outcome_kinds(stream, mode, r)
    &&& clean(stream, mode) ==> match spec_parse(stream, mode) {
        Ok(f) => r is Ok && r->Ok_0.frame@ == f && r->Ok_0.corrected == 0,
        Err(e) => r == Err::<Decoded, Error>(e),
    }
    &&& forall|w: Seq<u8>|
        #[trigger] correctable(stream, w, mode) ==> match spec_parse(w, mode) {
            Ok(f) => r is Ok && r->Ok_0.frame@ == f && r->Ok_0.corrected == rs::diff_count(stream, w),
            Err(e) => r == Err::<Decoded, Error>(e),
        }
    &&& r is Ok ==> exists|w: Seq<u8>|
        #[trigger] corrects_to(stream, w, mode, r->Ok_0.frame@, r->Ok_0.corrected as nat)
}

/// Two decoding results that carry the same frame and count, or the same error.
pub open spec fn same_outcome(a: Result<Decoded, Error>, b: Result<Decoded, Error>) -> bool {
    match (a, b) {
        (Ok(x), Ok(y)) => x.frame@ == y.frame@ && x.corrected == y.corrected,
        (Err(e1), Err(e2)) => e1 == e2,
        _ => false,
    }
}

/// What decoding a stream gives is determined by the stream: any two results that the
/// decoding contract admits for it are the same, so `decode` and a `Receiver` fed the same
/// packet agree, whatever errors it carries.
pub proof fn lemma_outcome_determined(
    stream: Seq<u8>,
    mode: Crc,
    a: Result<Decoded, Error>,
    b: Result<Decoded, Error>,
)
    requires
        decode_outcome(stream, mode, a),
        decode_outcome(stream, mode, b),
    ensures
        same_outcome(a, b),
{
    reveal(outcome_kinds);
    if exists|w: Seq<u8>| #[trigger] correctable(stream, w, mode) {
        let w = choose|w: Seq<u8>| #[trigger] correctable(stream, w, mode);
        assert(correctable(stream, w, mode));
    } else if a == Err::<Decoded, Error>(Error::Truncated) {
        assert(short_stream(stream, mode));
    } else if a == Err::<Decoded, Error>(Error::Header) {
        assert(header_unreadable(stream));
    }
}

/// The CRC check only takes frames away: a stream that decodes to a frame with the CRC
/// codewords checked decodes to the same frame, with the same corrections, without them.
pub proof fn lemma_crc_optional(stream: Seq<u8>, a: Result<Decoded, Error>, b: Result<Decoded, Error>)
    requires
        decode_outcome(stream, Crc::Hamming, a),
        a is Ok,
        decode_outcome(stream, Crc::Omitted, b),
    ensures
        same_outcome(a, b),
{
    reveal(outcome_kinds);
    let w = choose|w: Seq<u8>| #[trigger] correctable(stream, w, Crc::Hamming);
    assert(correctable(stream, w, Crc::Hamming));
    lemma_parse_steps(w, Crc::Hamming);
    lemma_parse_steps(w, Crc::Omitted);
    assert(correctable(stream, w, Crc::Omitted));
}

/// Bytes after a complete packet change nothing: decoding a stream that holds the whole
/// packet its header announces gives what decoding it with any bytes appended gives.
pub proof fn lemma_appended(
    stream: Seq<u8>,
    extra: Seq<u8>,
    mode: Crc,
    a: Result<Decoded, Error>,
    b: Result<Decoded, Error>,
)
    requires
        stream.len() >= 15,
        !short_stream(stream, mode),
        decode_outcome(stream, mode, a),
        decode_outcome(stream + extra, mode, b),
    ensures
        same_outcome(a, b),
{
    reveal(outcome_kinds);
    let t = stream + extra;
    assert(t.take(15) =~= stream.take(15));
    if exists|w: Seq<u8>| #[trigger] correctable(stream, w, mode) {
        let w = choose|w: Seq<u8>| #[trigger] correctable(stream, w, mode);
        assert(correctable(stream, w, mode));
        let ww = w + extra;
        assert(ww.take(15) =~= w.take(15));
        assert(ww.take(13) =~= w.take(13));
        let h = stream_header(w);
        let count = header_count(h);
        let plen = coded_len(count);
        assert(w.take(15).take(13) =~= w.take(13));
        if !header_invalid(h) && count <= 1023 {
            assert(header_read(stream.take(15), w.take(15), count));
            assert(stream.len() >= packet_len_for(count, mode));
            assert(ww.subrange(15, (15 + plen) as int) =~= w.subrange(15, (15 + plen) as int));
            assert(t.subrange(15, (15 + plen) as int) =~= stream.subrange(15, (15 + plen) as int));
            assert(ww.skip((15 + plen) as int) =~= w.skip((15 + plen) as int) + extra);
            assert(t.skip((15 + plen) as int) =~= stream.skip((15 + plen) as int) + extra);
        } else {
            assert(ww.skip(15) =~= w.skip(15) + extra);
            assert(t.skip(15) =~= stream.skip(15) + extra);
        }
        assert(correctable(t, ww, mode));
        lemma_parse_steps(w, mode);
        lemma_trailing_bytes(w, extra, mode);
        rs::lemma_diff_count_concat(stream, extra, w, extra);
        rs::lemma_diff_count_same(extra);
    } else if a == Err::<Decoded, Error>(Error::Header) {
        assert(header_unreadable(stream));
        assert forall|c: Seq<u8>|
            rs::is_codeword(c, 2) && c.len() == 15 && #[trigger] rs::diff_count(t.take(15), c) <= 1
                implies header_invalid(stream_header(c)) by {
            assert(rs::diff_count(stream.take(15), c) <= 1);
        }
        assert(header_unreadable(t));
    } else if a == Err::<Decoded, Error>(Error::Payload) {
        assert(payload_unreachable(stream, mode));
        let c = choose|c: Seq<u8>|
            #[trigger] header_read(stream.take(15), c, header_count(stream_header(c))) && stream.len()
                >= packet_len_for(header_count(stream_header(c)), mode) && exists|j: nat|
                j < num_blocks(header_count(stream_header(c))) && !block_reachable(
                    #[trigger] coded_block_at(
                        stream.subrange(15, (15 + coded_len(header_count(stream_header(c)))) as int),
                        header_count(stream_header(c)),
                        j,
                    ),
                );
        let count = header_count(stream_header(c));
        assert(t.subrange(15, (15 + coded_len(count)) as int) =~= stream.subrange(
            15,
            (15 + coded_len(count)) as int,
        ));
        assert(header_read(t.take(15), c, count));
        assert(payload_unreachable(t, mode));
    }
}

fn copy_prefix(input: &[u8], start: usize, n: usize) -> (v: Vec<u8>)
    requires
        start + n <= input@.len(),
    ensures
        v@ == input@.subrange(start as int, start + n),
{
    let mut v: Vec<u8> = Vec::new();
    let mut i: usize = 0;
    while i < n
        invariant
            i <= n,
            start + n <= input.len(),
            v@ == input@.subrange(start as int, start + i),
        decreases n - i,
    {
        v.push(input[start + i]);
        i += 1;
        assert(v@ =~= input@.subrange(start as int, start + i));
    }
    v
}

fn read_header(input: &[u8]) -> (res: (Result<([u8; 13], usize, Kind, usize), Error>, Ghost<Seq<u8>>))
    ensures
        input@.len() < 15 ==> res.0 == Err::<([u8; 13], usize, Kind, usize), Error>(Error::Truncated),
        input@.len() >= 15 ==> {
            let w = res.1@;
            let cw = input@.take(15);
            &&& w.len() == 15
            &&& res.0 is Err ==> res.0 == Err::<([u8; 13], usize, Kind, usize), Error>(Error::Header)
            &&& res.0 matches Ok((h, n, kind, count)) ==> {
                &&& rs::is_codeword(w, 2)
                &&& rs::diff_count(cw, w) <= n
                &&& n <= 1
                &&& h@ == scramble::spec_descramble(w.take(13))
                &&& !header_invalid(h@)
                &&& count == header_count(h@)
                &&& count < 1024
                &&& (kind is Translated) == (h@[1] & 0x80u8 != 0)
            }
            &&& rs::is_codeword(cw, 2) ==> {
                &&& w == cw
                &&& (res.0 is Ok) == !header_invalid(stream_header(input@))
                &&& res.0 matches Ok((h, n, kind, count)) ==> n == 0
            }
            &&& forall|c: Seq<u8>|
                rs::is_codeword(c, 2) && c.len() == 15 && #[trigger] rs::diff_count(cw, c) <= 1 ==> {
                    &&& w == c
                    &&& (res.0 is Ok) == !header_invalid(stream_header(c))
                    &&& res.0 matches Ok((h, n, kind, count)) ==> n == rs::diff_count(cw, c)
                }
        },
{
    if input.len() < HEADER_CODED {
        return (Err(Error::Truncated), Ghost(Seq::empty()));
    }
    let mut coded = copy_prefix(input, 0, HEADER_CODED);
    let ghost before = coded@;
    assert(before =~= input@.take(15));
    let corrected = match rs::decode(coded.as_mut_slice(), HEADER_LEN, 2) {
        Some(n) => n,
        None => {
            proof {
                assert forall|c: Seq<u8>|
                    rs::is_codeword(c, 2) && c.len() == 15 && #[trigger] rs::diff_count(before, c)
                        <= 1 implies false by {
                    if rs::diff_count(before, c) == 0 {
                        rs::lemma_diff_zero(before, c);
                    }
                }
            }
            return (Err(Error::Header), Ghost(coded@));
        },
    };
    proof {
        if rs::is_codeword(before, 2) {
            assert(coded@.take(13) =~= input@.take(13));
        }
        assert forall|c: Seq<u8>|
            rs::is_codeword(c, 2) && c.len() == 15 && #[trigger] rs::diff_count(before, c) <= 1
                implies coded@ == c && corrected == rs::diff_count(before, c) by {
            if rs::diff_count(before, c) == 0 {
                rs::lemma_diff_zero(before, c);
            }
        }
    }
    let data = copy_prefix(&coded, 0, HEADER_LEN);
    let mut buffer = zeros(HEADER_LEN);
    scramble::descramble(&data, buffer.as_mut_slice());
    assert(buffer@ =~= scramble::spec_descramble(coded@.take(13)));
    let mut header = [0u8; 13];
    let mut i: usize = 0;
    while i < HEADER_LEN
        invariant
            i <= 13,
            buffer@.len() == 13,
            header@.len() == 13,
            forall|t: int| 0 <= t < i ==> header@[t] == buffer@[t],
        decreases 13 - i,
    {
        header[i] = buffer[i];
        i += 1;
    }
    assert(header@ =~= buffer@);
    if header[0] & 0x80 != 0 {
        return (Err(Error::Header), Ghost(coded@));
    }

    let count = payload_count(&header);
    let kind = if header[1] & 0x80 != 0 {
        Kind::Translated
    } else {
        let mut any = false;
        let mut k: usize = 0;
        while k < HEADER_LEN
            invariant
                k <= 13,
                header@.len() == 13,
                any == exists|t: int| 0 <= t < k && #[trigger] header@[t] & 0x7fu8 != 0,
            decreases 13 - k,
        {
            if header[k] & 0x7f != 0 {
                any = true;
            }
            k += 1;
        }
        if any || header[12] & 0x80 != 0 || count < 14 {
            return (Err(Error::Header), Ghost(coded@));
        }
        Kind::Transparent
    };
    (Ok((header, corrected, kind, count)), Ghost(coded@))
}

/// The descrambled blocks of a coded payload depend only on its first `k` blocks.
proof fn lemma_decoded_blocks_prefix(a: Seq<u8>, b: Seq<u8>, size: nat, k: nat)
    requires
        size <= 1023,
        k <= num_blocks(size),
        coded_start(size, k) <= a.len(),
        coded_start(size, k) <= b.len(),
        a.take(coded_start(size, k) as int) == b.take(coded_start(size, k) as int),
    ensures
        decoded_blocks(a, size, k) == decoded_blocks(b, size, k),
    decreases k,
{
    if k > 0 {
        let j = (k - 1) as nat;
        lemma_block_starts(size, j);
        let lo = coded_start(size, j) as int;
        let hi = (coded_start(size, j) + block_len(size, j)) as int;
        assert(a.take(coded_start(size, j) as int) =~= a.take(coded_start(size, k) as int).take(lo));
        assert(b.take(coded_start(size, j) as int) =~= b.take(coded_start(size, k) as int).take(lo));
        lemma_decoded_blocks_prefix(a, b, size, j);
        assert(a.subrange(lo, hi) =~= a.take(coded_start(size, k) as int).subrange(lo, hi));
        assert(b.subrange(lo, hi) =~= b.take(coded_start(size, k) as int).subrange(lo, hi));
    }
}

#[verifier::spinoff_prover]
#[verifier::rlimit(30)]
fn decode_payload(input: &[u8], size: usize, corrected: &mut usize) -> (res: (
    Result<Vec<u8>, Error>,
    Ghost<Seq<u8>>,
))
    requires
        size <= 1023,
        input@.len() == coded_len(size as nat),
        *old(corrected) <= usize::MAX - 40,
    ensures
        ({
            let w = res.1@;
            let nb = num_blocks(size as nat);
            &&& w.len() == input@.len()
            &&& res.0 is Err ==> res.0 == Err::<Vec<u8>, Error>(Error::Payload)
            &&& res.0 is Err ==> exists|j: nat|
                j < nb && !block_reachable(#[trigger] coded_block_at(input@, size as nat, j))
            &&& res.0 is Ok ==> {
                &&& blocks_clean(w, size as nat, nb)
                &&& blocks_near(input@, w, size as nat)
                &&& rs::diff_count(input@, w) + *old(corrected) <= *final(corrected)
                &&& res.0->Ok_0@ == decoded_blocks(w, size as nat, nb)
                &&& *final(corrected) <= *old(corrected) + 8 * nb
            }
            &&& blocks_clean(input@, size as nat, nb) ==> {
                &&& w == input@
                &&& res.0 is Ok
                &&& *final(corrected) == *old(corrected)
            }
            &&& forall|c: Seq<u8>|
                c.len() == input@.len() && blocks_clean(c, size as nat, nb) && #[trigger] blocks_near(
                    input@,
                    c,
                    size as nat,
                ) ==> {
                    &&& w == c
                    &&& res.0 is Ok
                    &&& *final(corrected) == *old(corrected) + rs::diff_count(input@, c)
                }
        }),
{
    let ghost sz = size as nat;
    let (blocks, small, large) = plan(size);
    proof {
        lemma_plan(sz);
        lemma_block_starts(sz, 0);
        lemma_block_starts(sz, blocks as nat);
        rs::lemma_diff_count_same(Seq::<u8>::empty());
    }
    let mut payload: Vec<u8> = Vec::new();
    let mut offset: usize = 0;
    let ghost mut w: Seq<u8> = Seq::empty();
    let ghost start_corrected = *corrected;
    let mut block: usize = 0;
    assert(input@.take(0) =~= Seq::<u8>::empty());
    while block < blocks
        invariant
            block <= blocks == num_blocks(sz),
            blocks <= 5,
            sz == size as nat,
            size <= 1023,
            small == small_len(sz),
            large == large_count(sz),
            input@.len() == coded_len(sz),
            offset == coded_start(sz, block as nat),
            w.len() == offset,
            start_corrected <= usize::MAX - 40,
            rs::diff_count(input@.take(offset as int), w) + start_corrected <= *corrected,
            *corrected <= start_corrected + 8 * block,
            blocks_clean(w, sz, block as nat),
            forall|j: nat|
                j < block ==> rs::diff_count(
                    #[trigger] coded_block_at(input@, sz, j),
                    coded_block_at(w, sz, j),
                ) <= 8,
            payload@ == decoded_blocks(w, sz, block as nat),
            blocks_clean(input@, sz, blocks as nat) ==> w == input@.take(offset as int)
                && *corrected == start_corrected,
            forall|c: Seq<u8>|
                c.len() == input@.len() && blocks_clean(c, sz, blocks as nat) && #[trigger] blocks_near(
                    input@,
                    c,
                    sz,
                ) ==> w == c.take(offset as int) && *corrected == start_corrected + rs::diff_count(
                    input@.take(offset as int),
                    c.take(offset as int),
                ),
        decreases blocks - block,
    {
        proof {
            lemma_block_starts(sz, block as nat);
        }
        let data_len = small + if block < large { 1 } else { 0 };
        let coded_len = data_len + PARITY;
        proof {
            lemma_block_starts(sz, (block + 1) as nat);
        }
        let end = offset + coded_len;
        let mut coded = copy_prefix(input, offset, coded_len);
        let ghost received = coded@;
        let n = match rs::decode(coded.as_mut_slice(), data_len, PARITY) {
            Some(n) => n,
            None => {
                proof {
                    if blocks_clean(input@, sz, blocks as nat) {
                        assert(received =~= coded_block_at(input@, sz, block as nat));
                        assert(rs::is_codeword(coded_block_at(input@, sz, block as nat), 16));
                    }
                    assert forall|c: Seq<u8>|
                        c.len() == input@.len() && blocks_clean(c, sz, blocks as nat)
                            && #[trigger] blocks_near(input@, c, sz) implies false by {
                        let cb = coded_block_at(c, sz, block as nat);
                        assert(received =~= coded_block_at(input@, sz, block as nat));
                        assert(rs::diff_count(received, cb) <= 8);
                        assert(rs::is_codeword(cb, 16));
                        if rs::diff_count(received, cb) == 0 {
                            rs::lemma_diff_zero(received, cb);
                        }
                    }
                    assert((w + received + input@.skip(end as int)).len() == input@.len());
                    assert(received =~= coded_block_at(input@, sz, block as nat));
                    assert(!block_reachable(coded_block_at(input@, sz, block as nat))) by {
                        if block_reachable(received) {
                            let c = choose|c: Seq<u8>|
                                rs::is_codeword(c, 16) && c.len() == received.len() && #[trigger] rs::diff_count(
                                    received,
                                    c,
                                ) <= 8;
                            assert(rs::is_codeword(c, 16) && c.len() == received.len());
                        }
                    }
                }
                return (Err(Error::Payload), Ghost(w + received + input@.skip(end as int)));
            },
        };
        let ghost w_old = w;
        proof {
            w = w + coded@;
            assert(input@.take(end as int) =~= input@.take(offset as int) + received);
            rs::lemma_diff_count_concat(input@.take(offset as int), received, w_old, coded@);
            assert(coded_block_at(w, sz, block as nat) =~= coded@);
            assert forall|j: nat| j < block + 1 implies rs::is_codeword(
                #[trigger] coded_block_at(w, sz, j),
                16,
            ) by {
                if j < block {
                    lemma_block_starts(sz, j);
                    lemma_coded_start_mono(sz, j + 1, block as nat);
                    assert(coded_block_at(w, sz, j) =~= coded_block_at(w_old, sz, j));
                }
            }
            assert forall|j: nat| j < block + 1 implies rs::diff_count(
                #[trigger] coded_block_at(input@, sz, j),
                coded_block_at(w, sz, j),
            ) <= 8 by {
                if j < block {
                    lemma_block_starts(sz, j);
                    lemma_coded_start_mono(sz, j + 1, block as nat);
                    assert(coded_block_at(w, sz, j) =~= coded_block_at(w_old, sz, j));
                } else {
                    assert(received =~= coded_block_at(input@, sz, block as nat));
                }
            }
            if blocks_clean(input@, sz, blocks as nat) {
                assert(received =~= coded_block_at(input@, sz, block as nat));
                assert(rs::is_codeword(coded_block_at(input@, sz, block as nat), 16));
                assert(w =~= input@.take(end as int));
            }
            assert forall|c: Seq<u8>|
                c.len() == input@.len() && blocks_clean(c, sz, blocks as nat) && #[trigger] blocks_near(
                    input@,
                    c,
                    sz,
                ) implies w == c.take(end as int) && *corrected + n == start_corrected + rs::diff_count(
                    input@.take(end as int),
                    c.take(end as int),
                ) by {
                let cb = coded_block_at(c, sz, block as nat);
                assert(received =~= coded_block_at(input@, sz, block as nat));
                assert(rs::diff_count(received, cb) <= 8);
                assert(rs::is_codeword(cb, 16));
                if rs::diff_count(received, cb) == 0 {
                    rs::lemma_diff_zero(received, cb);
                }
                assert(coded@ == cb);
                assert(c.take(end as int) =~= c.take(offset as int) + cb);
                rs::lemma_diff_count_concat(input@.take(offset as int), received, c.take(offset as int), cb);
            }
        }
        *corrected += n;
        let data = copy_prefix(&coded, 0, data_len);
        let mut part = zeros(data_len);
        scramble::descramble(&data, part.as_mut_slice());
        assert(part@ =~= scramble::spec_descramble(coded@.take(data_len as int)));
        let ghost payload_old = payload@;
        extend(&mut payload, &part);
        proof {
            assert(w.take(offset as int) =~= w_old);
            assert(w_old.take(offset as int) =~= w_old);
            lemma_block_starts(sz, (block + 1) as nat);
            lemma_decoded_blocks_prefix(w, w_old, sz, block as nat);
            assert(w.subrange(offset as int, offset + data_len) =~= coded@.take(data_len as int));
        }
        offset = end;
        block += 1;
    }
    proof {
        assert(input@.take(offset as int) =~= input@);
        assert forall|c: Seq<u8>|
            c.len() == input@.len() && blocks_clean(c, sz, blocks as nat) && #[trigger] blocks_near(
                input@,
                c,
                sz,
            ) implies c.take(offset as int) == c by {
            assert(c.take(offset as int) =~= c);
        }
    }
    (Ok(payload), Ghost(w))
}

/// The repaired header and payload with the rest of the input are within correction reach
/// of the input.
proof fn lemma_reach_witness(input: Seq<u8>, hw: Seq<u8>, pw: Seq<u8>, mode: Crc, h: Seq<u8>)
    requires
        input.len() >= 15,
        hw.len() == 15,
        rs::is_codeword(hw, 2),
        rs::diff_count(input.take(15), hw) <= 1,
        h == scramble::spec_descramble(hw.take(13)),
        !header_invalid(h),
        header_count(h) <= 1023,
        input.len() >= 15 + coded_len(header_count(h)) + crc_len(mode),
        pw.len() == coded_len(header_count(h)),
        blocks_clean(pw, header_count(h), num_blocks(header_count(h))),
        blocks_near(input.subrange(15, (15 + pw.len()) as int), pw, header_count(h)),
    ensures
        correctable(input, hw + pw + input.skip((15 + pw.len()) as int), mode),
{
    let tail = input.skip((15 + pw.len()) as int);
    let w = hw + pw + tail;
    let plen = pw.len() as int;
    assert(w.take(15) =~= hw);
    assert(w.take(13) =~= hw.take(13));
    assert(w.subrange(15, (15 + plen) as int) =~= pw);
    assert(w.skip(15 + plen) =~= tail);
}

/// An error-free stream within `n` changes of `input` carries the frame that `cdecode` found.
proof fn lemma_witness(
    input: Seq<u8>,
    hw: Seq<u8>,
    pw: Seq<u8>,
    mode: Crc,
    h: Seq<u8>,
    f: FrameView,
    n_header: nat,
    n: nat,
)
    requires
        input.len() >= 15,
        hw.len() == 15,
        rs::is_codeword(hw, 2),
        rs::diff_count(input.take(15), hw) <= n_header,
        h == scramble::spec_descramble(hw.take(13)),
        !header_invalid(h),
        header_count(h) <= 1023,
        input.len() >= 15 + coded_len(header_count(h)) + crc_len(mode),
        pw.len() == coded_len(header_count(h)),
        blocks_clean(pw, header_count(h), num_blocks(header_count(h))),
        rs::diff_count(input.subrange(15, (15 + pw.len()) as int), pw) + n_header <= n,
        parse_body(
            h,
            decoded_blocks(pw, header_count(h), num_blocks(header_count(h))),
            input.subrange((15 + pw.len()) as int, ((15 + pw.len()) as int + crc_len(mode)) as int),
            mode,
        ) == Ok::<FrameView, Error>(f),
    ensures
        corrects_to(input, hw + pw + input.skip((15 + pw.len()) as int), mode, f, n),
{
    let tail = input.skip((15 + pw.len()) as int);
    let w = hw + pw + tail;
    let plen = pw.len() as int;
    assert(w.take(15) =~= hw);
    assert(w.take(13) =~= hw.take(13));
    assert(w.subrange(15, (15 + plen) as int) =~= pw);
    assert(w.subrange(15 + plen, 15 + plen + crc_len(mode) as int) =~= input.subrange(
        15 + plen,
        15 + plen + crc_len(mode) as int,
    ));
    lemma_parse_steps(w, mode);
    assert(input =~= input.take(15) + input.subrange(15, (15 + plen) as int) + tail);
    rs::lemma_diff_count_concat(input.take(15), input.subrange(15, (15 + plen) as int), hw, pw);
    rs::lemma_diff_count_concat(input.take(15) + input.subrange(15, (15 + plen) as int), tail, hw + pw, tail);
    rs::lemma_diff_count_same(tail);
}

/// For an error-free stream whose header passes its checks, parsing comes down to the body.
proof fn lemma_clean_body(input: Seq<u8>, mode: Crc)
    requires
        clean(input, mode),
        input.len() >= 15,
        !header_invalid(stream_header(input)),
        header_count(stream_header(input)) <= 1023,
        input.len() >= 15 + coded_len(header_count(stream_header(input))) + crc_len(mode),
    ensures
        ({
            let h = stream_header(input);
            let count = header_count(h);
            let plen = coded_len(count);
            let coded = input.subrange(15, (15 + plen) as int);
            &&& blocks_clean(coded, count, num_blocks(count))
            &&& spec_parse(input, mode) == parse_body(
                h,
                decoded_blocks(coded, count, num_blocks(count)),
                input.subrange((15 + plen) as int, (15 + plen + crc_len(mode)) as int),
                mode,
            )
        }),
{
    lemma_parse_steps(input, mode);
}

#[verifier::spinoff_prover]
#[verifier::rlimit(100)]
fn cdecode(input: &[u8], mode: Crc) -> (r: Result<Decoded, Error>)
    ensures
        decode_outcome(input@, mode, r),
{
    proof {
        lemma_parse_steps(input@, mode);
    }
    let (hr, Ghost(hw)) = read_header(input);
    proof {
        assert forall|w: Seq<u8>| #[trigger] correctable(input@, w, mode) implies {
            &&& w.take(15) == hw
            &&& stream_header(w) == scramble::spec_descramble(hw.take(13))
            &&& (hr is Ok) == !header_invalid(stream_header(w))
        } by {
            let c = w.take(15);
            assert(rs::diff_count(input@.take(15), c) <= 1);
            assert(c.take(13) =~= w.take(13));
            lemma_parse_steps(w, mode);
        }
    }
    let (header, mut corrected, kind, count) = match hr {
        Ok(parts) => parts,
        Err(e) => {
            proof {
                assert forall|w: Seq<u8>| #[trigger] correctable(input@, w, mode) implies spec_parse(
                    w,
                    mode,
                ) == Err::<FrameView, Error>(Error::Header) by {
                    lemma_parse_steps(w, mode);
                }
            }
            proof {
                lemma_kinds_header_error(input@, mode, Err::<Decoded, Error>(e));
            }
            return Err(e);
        },
    };
    let ghost h = header@;
    proof {
        assert(hw.take(13) =~= hw.take(13));
        assert(header_fixed(input@, hw, count as nat));
    }
    let ghost is_clean = clean(input@, mode);
    proof {
        if is_clean {
            assert(hw.take(13) =~= input@.take(13));
            assert(h == stream_header(input@));
        }
    }
    if count > MAX_PAYLOAD {
        proof {
            assert forall|w: Seq<u8>| #[trigger] correctable(input@, w, mode) implies spec_parse(
                w,
                mode,
            ) == Err::<FrameView, Error>(Error::Header) by {
                lemma_parse_steps(w, mode);
            }
        }
        return Err(Error::Header);
    }
    let payload_len = coded_payload_len(count);
    let packet_len = HEADER_CODED + payload_len + mode.len();
    if input.len() < packet_len {
        proof {
            assert(hw.take(13) =~= hw.take(13));
            assert(header_read(input@.take(15), hw, header_count(stream_header(hw))));
            assert(input@.len() < packet_len_for(header_count(stream_header(hw)), mode));
            assert forall|w: Seq<u8>| #[trigger] correctable(input@, w, mode) implies spec_parse(
                w,
                mode,
            ) == Err::<FrameView, Error>(Error::Truncated) by {
                lemma_parse_steps(w, mode);
            }
        }
        proof {
            lemma_kinds_short(input@, mode, hw, count as nat);
        }
        return Err(Error::Truncated);
    }
    let coded = vstd::slice::slice_subrange(input, HEADER_CODED, HEADER_CODED + payload_len);
    proof {
        if is_clean {
            lemma_clean_body(input@, mode);
        }
        assert forall|w: Seq<u8>| #[trigger] correctable(input@, w, mode) implies {
            let c = w.subrange(15, 15 + payload_len);
            &&& c.len() == coded@.len()
            &&& blocks_clean(c, count as nat, num_blocks(count as nat))
            &&& blocks_near(coded@, c, count as nat)
        } by {
            lemma_clean_body(w, mode);
            assert(input@.subrange(15, 15 + payload_len) =~= coded@);
        }
    }
    let ghost header_n = corrected;
    let (pr, Ghost(pw)) = decode_payload(coded, count, &mut corrected);
    let payload = match pr {
        Ok(payload) => payload,
        Err(e) => {
            proof {
                assert forall|w: Seq<u8>| #[trigger] correctable(input@, w, mode) implies false by {
                    assert(blocks_near(coded@, w.subrange(15, 15 + payload_len), count as nat));
                }
                lemma_kinds_payload(input@, mode, hw, count as nat);
            }
            return Err(e);
        },
    };
    let ghost pv = payload@;
    let ghost trailer = input@.subrange(15 + payload_len, packet_len as int);
    let ghost body = parse_body(h, pv, trailer, mode);
    proof {
        if is_clean {
            assert(spec_parse(input@, mode) == body);
            assert(corrected == 0);
        }
        assert forall|w: Seq<u8>| #[trigger] correctable(input@, w, mode) implies {
            &&& spec_parse(w, mode) == body
            &&& corrected == rs::diff_count(input@, w)
        } by {
            let c = w.subrange(15, 15 + payload_len);
            assert(blocks_near(coded@, c, count as nat));
            assert(pw == c);
            lemma_clean_body(w, mode);
            assert(w.subrange(15 + payload_len, packet_len as int) =~= trailer);
            assert(input@ =~= input@.take(15) + coded@ + input@.skip(15 + payload_len));
            assert(w =~= w.take(15) + c + w.skip(15 + payload_len));
            rs::lemma_diff_count_concat(input@.take(15), coded@, w.take(15), c);
            rs::lemma_diff_count_same(input@.skip(15 + payload_len));
            rs::lemma_diff_count_concat(
                input@.take(15) + coded@,
                input@.skip(15 + payload_len),
                w.take(15) + c,
                w.skip(15 + payload_len),
            );
        }
    }
    let frame = match kind {
        Kind::Transparent => Frame::Transparent(payload),
        Kind::Translated => match ax25::decode(&header, payload) {
            Some(frame) => frame,
            None => {
                assert(body == Err::<FrameView, Error>(Error::Header));
                proof {
                    lemma_kinds_reach(input@, mode, hw, count as nat, pw, Err::<Decoded, Error>(Error::Header));
                }
                return Err(Error::Header);
            },
        },
    };
    if mode == Crc::Hamming {
        let trailer_bytes = vstd::slice::slice_subrange(input, HEADER_CODED + payload_len, packet_len);
        let received = match crc::decode(trailer_bytes) {
            Ok(c) => c,
            Err(e) => {
                assert(body == Err::<FrameView, Error>(e));
                proof {
                    lemma_kinds_reach(input@, mode, hw, count as nat, pw, Err::<Decoded, Error>(e));
                }
                return Err(e);
            },
        };
        let expected = match frame_crc(&frame) {
            Ok(c) => c,
            Err(e) => {
                assert(body == Err::<FrameView, Error>(e));
                proof {
                    lemma_kinds_reach(input@, mode, hw, count as nat, pw, Err::<Decoded, Error>(e));
                }
                return Err(e);
            },
        };
        if received != expected {
            assert(body == Err::<FrameView, Error>(Error::Crc));
            proof {
                lemma_kinds_reach(input@, mode, hw, count as nat, pw, Err::<Decoded, Error>(Error::Crc));
            }
            return Err(Error::Crc);
        }
    }
    assert(body == Ok::<FrameView, Error>(frame@));
    let r = Decoded { frame, corrected };
    proof {
        lemma_witness(input@, hw, pw, mode, h, frame@, header_n as nat, corrected as nat);
        lemma_kinds_reach(input@, mode, hw, count as nat, pw, Ok::<Decoded, Error>(r));
        let w = hw + pw + input@.skip((15 + pw.len()) as int);
        assert(corrects_to(input@, w, mode, r.frame@, r.corrected as nat));
    }
    Ok(r)
}

/// The sync word starts at byte `i`.
pub open spec fn sync_at(s: Seq<u8>, i: int) -> bool {
    0 <= i && i + 3 <= s.len() && s[i] == 0xf1u8 && s[i + 1] == 0x5eu8 && s[i + 2] == 0x48u8
}

/// `start` is the first position of the sync word.
pub open spec fn first_sync(s: Seq<u8>, start: int) -> bool {
    sync_at(s, start) && forall|j: int| 0 <= j < start ==> !#[trigger] sync_at(s, j)
}

/// Decode the first byte-aligned IL2P packet in `input`.
///
/// Leading preamble bytes are accepted. For arbitrary bit alignment and a sync word
/// received with one bit in error, use [`Receiver`].
pub fn decode(input: &[u8], mode: Crc) -> (r: Result<Decoded, Error>)
    ensures
        (r == Err::<Decoded, Error>(Error::Sync)) == (forall|i: int| !#[trigger] sync_at(input@, i)),
        forall|start: int|
            #[trigger] first_sync(input@, start) ==> decode_outcome(
                input@.skip(start + 3),
                mode,
                r,
            ),
{
    let mut start: usize = 0;
    while input.len() >= 3 && start <= input.len() - 3
        invariant
            start <= input@.len(),
            forall|j: int| 0 <= j < start ==> !#[trigger] sync_at(input@, j),
        decreases input@.len() - start,
    {
        if input[start] == SYNC[0] && input[start + 1] == SYNC[1] && input[start + 2] == SYNC[2] {
            assert(sync_at(input@, start as int));
            let rest = vstd::slice::slice_subrange(input, start + 3, input.len());
            let r = cdecode(rest, mode);
            proof {
                assert(rest@ =~= input@.skip(start + 3));
                assert forall|s: int| #[trigger] first_sync(input@, s) implies s == start by {
                    if s < start {
                        assert(!sync_at(input@, s));
                    } else if s > start {
                        assert(!sync_at(input@, start as int));
                    }
                }
            }
            return r;
        }
        start += 1;
    }
    assert forall|i: int| !#[trigger] sync_at(input@, i) by {
        if 0 <= i < start {
        }
    }
    Err(Error::Sync)
}

/// Number of set bits of `x`.
pub open spec fn ones32(x: u32) -> nat
    decreases x,
{
    if x == 0 {
        0
    } else {
        (x % 2) as nat + ones32(x / 2)
    }
}

proof fn lemma_ones32_bound(x: u32)
    ensures
        ones32(x) <= x,
    decreases x,
{
    if x != 0 {
        lemma_ones32_bound((x / 2) as u32);
    }
}

fn count_ones32(x: u32) -> (r: u32)
    ensures
        r == ones32(x),
{
    proof {
        lemma_ones32_bound(x);
    }
    let mut rest = x;
    let mut total: u32 = 0;
    while rest != 0
        invariant
            total + ones32(rest) == ones32(x),
            ones32(x) <= x,
        decreases rest,
    {
        total = total + rest % 2;
        rest = rest / 2;
    }
    total
}

/// The state of a receiver.
pub struct ReceiverView {
    pub mode: Crc,
    pub shift: u32,
    pub seen: u8,
    pub collecting: bool,
    pub byte: u8,
    pub bits: u8,
    pub need: nat,
    pub data: Seq<u8>,
}

/// A receiver hunting for the sync word with nothing seen yet.
pub open spec fn idle(mode: Crc) -> ReceiverView {
    ReceiverView {
        mode,
        shift: 0,
        seen: 0,
        collecting: false,
        byte: 0,
        bits: 0,
        need: 0,
        data: Seq::empty(),
    }
}

/// The last 24 bits match the sync word in all but at most one bit.
pub open spec fn sync_match(shift: u32) -> bool {
    ones32(shift ^ SYNC_WORD) <= 1
}

/// The hunting receiver after one more bit.
pub open spec fn hunt_step(v: ReceiverView, bit: bool) -> ReceiverView {
    let shift = ((v.shift << 1u32) | (if bit { 1u32 } else { 0u32 })) & 0x00ff_ffffu32;
    let seen = if v.seen < 255 {
        (v.seen + 1) as u8
    } else {
        255u8
    };
    if seen >= 24 && sync_match(shift) {
        ReceiverView { shift, seen, collecting: true, byte: 0, bits: 0, need: 0, data: Seq::empty(), ..v }
    } else {
        ReceiverView { shift, seen, ..v }
    }
}

/// Packet length for a header announcing `count` payload bytes.
pub open spec fn packet_len_for(count: nat, mode: Crc) -> nat {
    15 + coded_len(count) + crc_len(mode)
}

/// A receiver holding `data` of a packet of `need` bytes: the packet is decoded and the
/// receiver goes back to hunting once all of it has arrived.
pub open spec fn continue_with(
    v: ReceiverView,
    data: Seq<u8>,
    need: nat,
    next: ReceiverView,
    r: Option<Result<Decoded, Error>>,
) -> bool {
    if data.len() == need {
        &&& next == idle(v.mode)
        &&& r matches Some(res) && decode_outcome(data, v.mode, res)
    } else {
        &&& r is None
        &&& next == ReceiverView { byte: 0, bits: 0, need, data, ..v }
    }
}

/// `w` is a valid header codeword within one symbol of the received `data`, announcing a
/// `count`-byte payload.
pub open spec fn header_read(data: Seq<u8>, w: Seq<u8>, count: nat) -> bool {
    &&& w.len() == 15
    &&& rs::is_codeword(w, 2)
    &&& rs::diff_count(data, w) <= 1
    &&& !header_invalid(stream_header(w))
    &&& count == header_count(stream_header(w))
}

/// The header just completed announces a `count`-byte payload: the count of a valid header
/// codeword within one symbol of it, and for a header with at most one symbol error exactly
/// the count its codeword carries.
pub open spec fn header_announces(data: Seq<u8>, count: nat) -> bool {
    &&& count < 1024
    &&& exists|w: Seq<u8>| #[trigger] header_read(data, w, count)
    &&& rs::is_codeword(data, 2) ==> !header_invalid(stream_header(data)) && count == header_count(
        stream_header(data),
    )
    &&& forall|c: Seq<u8>|
        rs::is_codeword(c, 2) && c.len() == 15 && #[trigger] rs::diff_count(data, c) <= 1 ==> !header_invalid(
            stream_header(c),
        ) && count == header_count(stream_header(c))
}

/// A receiver in state `v` that has just completed a byte, making its packet `data`.
pub open spec fn byte_outcome(
    v: ReceiverView,
    data: Seq<u8>,
    next: ReceiverView,
    r: Option<Result<Decoded, Error>>,
) -> bool {
    if data.len() < 15 {
        r is None && next == ReceiverView { byte: 0, bits: 0, data, ..v }
    } else if data.len() == 15 {
        ||| (r is None && next == idle(v.mode) && (rs::is_codeword(data, 2) ==> header_invalid(
            stream_header(data),
        )) && forall|c: Seq<u8>|
            rs::is_codeword(c, 2) && c.len() == 15 && #[trigger] rs::diff_count(data, c) <= 1
                ==> header_invalid(stream_header(c)))
        ||| exists|count: nat|
            #[trigger] header_announces(data, count) && continue_with(
                v,
                data,
                packet_len_for(count, v.mode),
                next,
                r,
            )
    } else {
        continue_with(v, data, v.need, next, r)
    }
}

/// What one pushed bit does to a receiver in state `v`, with the result `r`.
pub open spec fn push_outcome(
    v: ReceiverView,
    bit: bool,
    next: ReceiverView,
    r: Option<Result<Decoded, Error>>,
) -> bool {
    if !v.collecting {
        r is None && next == hunt_step(v, bit)
    } else {
        let byte = (v.byte << 1u8) | (if bit { 1u8 } else { 0u8 });
        if v.bits + 1 != 8 {
            r is None && next == ReceiverView { byte, bits: (v.bits + 1) as u8, ..v }
        } else {
            byte_outcome(v, v.data.push(byte), next, r)
        }
    }
}

/// Streaming MSB-first packet receiver with one-bit sync-word tolerance.
pub struct Receiver {
    mode: Crc,
    shift: u32,
    seen: u8,
    collecting: bool,
    byte: u8,
    bits: u8,
    need: usize,
    data: Vec<u8>,
}

impl View for Receiver {
    type V = ReceiverView;

    closed spec fn view(&self) -> ReceiverView {
        ReceiverView {
            mode: self.mode,
            shift: self.shift,
            seen: self.seen,
            collecting: self.collecting,
            byte: self.byte,
            bits: self.bits,
            need: self.need as nat,
            data: self.data@,
        }
    }
}

/// Consistency of a receiver state: a partial byte, and a packet shorter than its announced
/// length.
pub open spec fn receiver_wf(v: ReceiverView) -> bool {
    &&& v.bits < 8
    &&& !v.collecting ==> v.data.len() == 0 && v.need == 0 && v.bits == 0 && v.byte == 0
    &&& v.need == 0 ==> v.data.len() < 15
    &&& v.need != 0 ==> 15 <= v.data.len() < v.need <= MAX_PACKET
    &&& v.need != 0 ==> exists|count: nat|
        #[trigger] header_announces(v.data.take(15), count) && v.need == packet_len_for(count, v.mode)
}

/// The receiver agrees with `decode`: for a packet of the length its header announces, as the
/// receiver collects it, the result the receiver hands out is the one decoding the packet,
/// with any bytes after it, gives.
pub proof fn lemma_receiver_agrees(
    data: Seq<u8>,
    extra: Seq<u8>,
    count: nat,
    mode: Crc,
    a: Result<Decoded, Error>,
    b: Result<Decoded, Error>,
)
    requires
        header_announces(data.take(15), count),
        data.len() == packet_len_for(count, mode),
        decode_outcome(data, mode, a),
        decode_outcome(data + extra, mode, b),
    ensures
        same_outcome(a, b),
{
    if short_stream(data, mode) {
        let c = choose|c: Seq<u8>|
            #[trigger] header_read(data.take(15), c, header_count(stream_header(c)))
                && data.len() < packet_len_for(header_count(stream_header(c)), mode);
        assert(rs::diff_count(data.take(15), c) <= 1);
    }
    lemma_appended(data, extra, mode, a, b);
}

/// A packet of the length its header announces never decodes to a truncation error: what the
/// receiver hands out is a frame or a header, payload or CRC error.
pub proof fn lemma_announced_not_short(data: Seq<u8>, count: nat, mode: Crc, res: Result<Decoded, Error>)
    requires
        header_announces(data.take(15), count),
        data.len() == packet_len_for(count, mode),
        decode_outcome(data, mode, res),
    ensures
        res matches Err(e) ==> e == Error::Header || e == Error::Payload || e == Error::Crc,
{
    if res == Err::<Decoded, Error>(Error::Truncated) {
        assert(short_stream(data, mode));
        let c = choose|c: Seq<u8>|
            #[trigger] header_read(data.take(15), c, header_count(stream_header(c)))
                && data.len() < packet_len_for(header_count(stream_header(c)), mode);
        assert(rs::diff_count(data.take(15), c) <= 1);
    }
}

impl Receiver {
    /// Every receiver is consistent.
    #[verifier::type_invariant]
    spec fn consistent(self) -> bool {
        receiver_wf(self@)
    }

    pub fn new(mode: Crc) -> (r: Self)
        ensures
            r@ == idle(mode),
    {
        let data: Vec<u8> = Vec::new();
        assert(data@ =~= Seq::<u8>::empty());
        Self { mode, shift: 0, seen: 0, collecting: false, byte: 0, bits: 0, need: 0, data }
    }

    pub fn reset(&mut self)
        ensures
            final(self)@ == idle(old(self)@.mode),
    {
        let mode = self.mode;
        *self = Self::new(mode);
    }

    /// Supply one demodulated bit. A result is returned at packet completion.
    #[verifier::spinoff_prover]
    pub fn push(&mut self, bit: bool) -> (r: Option<Result<Decoded, Error>>)
        ensures
            push_outcome(old(self)@, bit, final(self)@, r),
            r matches Some(Err(e)) ==> e == Error::Header || e == Error::Payload || e == Error::Crc,
    {
        proof {
            use_type_invariant(&*self);
        }
        let ghost v = self@;
        if !self.collecting {
            assert(self.data@ =~= Seq::<u8>::empty());
            self.shift = ((self.shift << 1) | (if bit { 1u32 } else { 0u32 })) & 0x00ff_ffff;
            self.seen = self.seen.saturating_add(1);
            if self.seen >= 24 && count_ones32(self.shift ^ SYNC_WORD) <= 1 {
                self.collecting = true;
                self.byte = 0;
                self.bits = 0;
                self.need = 0;
            }
            assert(self@ == hunt_step(v, bit));
            return None;
        }

        let byte = (self.byte << 1) | (if bit { 1u8 } else { 0u8 });
        if self.bits + 1 != 8 {
            self.byte = byte;
            self.bits = self.bits + 1;
            return None;
        }

        // the byte is complete: take the packet out, leaving the receiver hunting
        let mode = self.mode;
        let mut taken = Self::new(mode);
        std::mem::swap(self, &mut taken);
        proof {
            use_type_invariant(&taken);
        }
        let Receiver { mode, shift, seen, collecting: _, byte: _, bits: _, mut need, mut data } = taken;
        data.push(byte);
        let ghost packet = data@;
        let ghost mut announced: nat = 0;
        assert(packet == v.data.push((v.byte << 1u8) | (if bit { 1u8 } else { 0u8 })));

        if data.len() == HEADER_CODED {
            assert(data@.take(15) =~= data@);
            let (hr, gw) = read_header(&data);
            let count = match hr {
                Ok((_, _, _, count)) => count,
                Err(_) => {
                    return None;
                },
            };
            proof {
                lemma_plan(count as nat);
            }
            need = HEADER_CODED + coded_payload_len(count) + mode.len();
            proof {
                announced = count as nat;
                assert(header_read(data@, gw@, announced));
            }
            assert(header_announces(data@, announced));
        }

        if need != 0 && data.len() == need {
            let result = cdecode(&data, mode);
            proof {
                if packet.len() == 15 {
                    lemma_announced_not_short(packet, announced, v.mode, result);
                    assert(continue_with(v, packet, packet_len_for(announced, v.mode), self@, Some(result)));
                } else {
                    assert(packet.take(15) =~= v.data.take(15));
                    let count = choose|count: nat|
                        #[trigger] header_announces(v.data.take(15), count) && v.need == packet_len_for(
                            count,
                            v.mode,
                        );
                    lemma_announced_not_short(packet, count, v.mode, result);
                    assert(continue_with(v, packet, v.need as nat, self@, Some(result)));
                }
            }
            return Some(result);
        }
        proof {
            if packet.len() == 15 {
                assert(need == packet_len_for(announced, mode));
                assert(header_announces(packet.take(15), announced));
            } else if packet.len() > 15 {
                assert(packet.take(15) =~= v.data.take(15));
                let count = choose|count: nat|
                    #[trigger] header_announces(v.data.take(15), count) && v.need == packet_len_for(
                        count,
                        v.mode,
                    );
                assert(header_announces(packet.take(15), count));
            }
        }
        let ghost nv = ReceiverView {
            mode,
            shift,
            seen,
            collecting: true,
            byte: 0,
            bits: 0,
            need: need as nat,
            data: data@,
        };
        assert(need == 0 ==> nv.data.len() < 15);
        assert(need != 0 ==> 15 <= nv.data.len() < nv.need <= MAX_PACKET);
        assert(need != 0 ==> exists|count: nat|
            #[trigger] header_announces(nv.data.take(15), count) && nv.need == packet_len_for(count, nv.mode));
        assert(receiver_wf(nv));
        *self = Receiver { mode, shift, seen, collecting: true, byte: 0, bits: 0, need, data };
        proof {
            if packet.len() == 15 {
                assert(continue_with(v, packet, packet_len_for(announced, v.mode), self@, None));
                assert(exists|count: nat|
                    #[trigger] header_announces(packet, count) && continue_with(
                        v,
                        packet,
                        packet_len_for(count, v.mode),
                        self@,
                        None,
                    ));
            } else if packet.len() > 15 {
                assert(continue_with(v, packet, v.need as nat, self@, None));
            }
            assert(byte_outcome(v, packet, self@, None));
        }
        None
    }
}

impl Default for Receiver {
    fn default() -> (r: Self)
        ensures
            r@ == idle(Crc::Omitted),
    {
        Self::new(Crc::Omitted)
    }
}

} // verus!
