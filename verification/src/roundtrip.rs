//! What decoding gives back of what encoding wrote.
use vstd::prelude::*;
use crate::ax25;
use crate::crc;
use crate::error::Error;
use crate::frame::{
    blocks_clean, clean, coded_block, coded_block_at, coded_blocks, coded_len, coded_payload,
    coded_start, block_len, block_start, crc_len, decoded_blocks, first_sync, header_codeword,
    header_count, header_invalid, lemma_block_starts, correctable, lemma_coded_start_mono, lemma_lane_value,
    lemma_parse_steps, lemma_plan, low_bits_set, num_blocks, parse_body, preamble, spec_encode,
    spec_frame_crc, spec_packet, spec_parse, stream_header, sync_at, transparent_header, Crc, SYNC,
};
use crate::packet::FrameView;
use crate::poly::lemma_xor;
use crate::rs;
use crate::scramble;

verus! {

proof fn lemma_coded_blocks(payload: Seq<u8>, k: nat)
    requires
        payload.len() <= 1023,
        k <= num_blocks(payload.len()),
    ensures
        coded_blocks(payload, k).len() == coded_start(payload.len(), k),
        forall|j: nat|
            j < k ==> #[trigger] coded_block_at(coded_blocks(payload, k), payload.len(), j)
                == coded_block(
                payload.subrange(
                    block_start(payload.len(), j) as int,
                    block_start(payload.len(), j + 1) as int,
                ),
            ),
    decreases k,
{
    let size = payload.len();
    lemma_block_starts(size, 0);
    if k > 0 {
        let j0 = (k - 1) as nat;
        lemma_coded_blocks(payload, j0);
        lemma_block_starts(size, j0);
        lemma_block_starts(size, k);
        assert(j0 + 1 == k);
        let sub = payload.subrange(block_start(size, j0) as int, block_start(size, k) as int);
        rs::lemma_parity_codeword(scramble::spec_scramble(sub), 16);
        assert(sub.len() == block_len(size, j0));
        assert(coded_block(sub).len() == block_len(size, j0) + 16);
        let prev = coded_blocks(payload, j0);
        let all = coded_blocks(payload, k);
        assert(all == prev + coded_block(sub));
        assert(coded_start(size, k) == coded_start(size, j0) + block_len(size, j0) + 16);
        assert(all.len() == coded_start(size, k));
        assert forall|j: nat| j < k implies #[trigger] coded_block_at(all, size, j) == coded_block(
            payload.subrange(block_start(size, j) as int, block_start(size, j + 1) as int),
        ) by {
            if j < j0 {
                lemma_block_starts(size, j);
                lemma_coded_start_mono(size, j + 1, j0);
                assert(coded_block_at(all, size, j) =~= coded_block_at(prev, size, j));
            } else {
                assert(coded_block_at(all, size, j) =~= coded_block(sub));
            }
        }
    }
}

/// Payload coding round trip: the coded payload (what payload encoding appends) has the
/// coded length, is made of error-free Reed-Solomon codewords, and its descrambled data is
/// the payload again (what payload decoding returns for error-free blocks, correcting
/// nothing).
pub proof fn lemma_payload_roundtrip(payload: Seq<u8>)
    requires
        payload.len() <= 1023,
    ensures
        coded_payload(payload).len() == coded_len(payload.len()),
        blocks_clean(coded_payload(payload), payload.len(), num_blocks(payload.len())),
        decoded_blocks(coded_payload(payload), payload.len(), num_blocks(payload.len())) == payload,
{
    let size = payload.len();
    let nb = num_blocks(size);
    let c = coded_payload(payload);
    lemma_coded_blocks(payload, nb);
    lemma_block_starts(size, nb);
    assert forall|j: nat| j < nb implies rs::is_codeword(#[trigger] coded_block_at(c, size, j), 16) by {
        lemma_block_at(payload, j);
    }
    lemma_decoded_prefix(payload, nb);
    assert(payload.take(size as int) =~= payload);
}

/// Block `j` of the coded payload is the coded block of payload block `j`, and its data
/// part is the scrambled payload block.
proof fn lemma_block_at(payload: Seq<u8>, j: nat)
    requires
        payload.len() <= 1023,
        j < num_blocks(payload.len()),
    ensures
        ({
            let size = payload.len();
            let sub = payload.subrange(
                block_start(size, j) as int,
                block_start(size, j + 1) as int,
            );
            let c = coded_payload(payload);
            &&& sub.len() == block_len(size, j)
            &&& rs::is_codeword(coded_block_at(c, size, j), 16)
            &&& c.subrange(
                coded_start(size, j) as int,
                (coded_start(size, j) + block_len(size, j)) as int,
            ) == scramble::spec_scramble(sub)
        }),
{
    let size = payload.len();
    let nb = num_blocks(size);
    let c = coded_payload(payload);
    lemma_coded_blocks(payload, nb);
    lemma_block_starts(size, j);
    lemma_block_starts(size, j + 1);
    lemma_block_starts(size, nb);
    lemma_coded_start_mono(size, j + 1, nb);
    let sub = payload.subrange(block_start(size, j) as int, block_start(size, j + 1) as int);
    rs::lemma_parity_codeword(scramble::spec_scramble(sub), 16);
    assert(coded_block_at(c, size, j) == coded_block(sub));
    assert(c.subrange(
        coded_start(size, j) as int,
        (coded_start(size, j) + block_len(size, j)) as int,
    ) =~= coded_block_at(c, size, j).take(block_len(size, j) as int));
    assert(coded_block(sub).take(block_len(size, j) as int) =~= scramble::spec_scramble(sub));
}

/// Decoding block `j` of the coded payload gives back payload block `j`.
proof fn lemma_decoded_step(payload: Seq<u8>, j: nat)
    requires
        payload.len() <= 1023,
        j < num_blocks(payload.len()),
    ensures
        decoded_blocks(coded_payload(payload), payload.len(), j + 1) == decoded_blocks(
            coded_payload(payload),
            payload.len(),
            j,
        ) + payload.subrange(
            block_start(payload.len(), j) as int,
            block_start(payload.len(), j + 1) as int,
        ),
{
    let size = payload.len();
    let c = coded_payload(payload);
    let sub = payload.subrange(block_start(size, j) as int, block_start(size, j + 1) as int);
    let cj = c.subrange(
        coded_start(size, j) as int,
        (coded_start(size, j) + block_len(size, j)) as int,
    );
    assert(cj == scramble::spec_scramble(sub)) by {
        lemma_block_at(payload, j);
    }
    scramble::lemma_descramble_scramble(sub);
}

proof fn lemma_decoded_prefix(payload: Seq<u8>, k: nat)
    requires
        payload.len() <= 1023,
        k <= num_blocks(payload.len()),
    ensures
        decoded_blocks(coded_payload(payload), payload.len(), k) == payload.take(
            block_start(payload.len(), k) as int,
        ),
    decreases k,
{
    let size = payload.len();
    lemma_block_starts(size, 0);
    if k == 0 {
        assert(payload.take(0) =~= Seq::<u8>::empty());
    } else {
        let j = (k - 1) as nat;
        lemma_decoded_prefix(payload, j);
        lemma_decoded_step(payload, j);
        let bj = block_start(size, j);
        let bk = block_start(size, k);
        assert(bj <= bk <= size) by {
            lemma_block_starts(size, j);
            lemma_block_starts(size, k);
        }
        assert(payload.take(bk as int) =~= payload.take(bj as int) + payload.subrange(
            bj as int,
            bk as int,
        ));
    }
}

proof fn lemma_transparent_byte(b: bool)
    ensures
        ({
            let v = 0u8 | (if b { 0x80u8 } else { 0u8 });
            &&& v & 0x7fu8 == 0
            &&& (v & 0x80u8 != 0) == b
            &&& !b ==> v & 0xc0u8 == 0
        }),
{
    assert({
        let v = 0u8 | (if b { 0x80u8 } else { 0u8 });
        &&& v & 0x7fu8 == 0
        &&& (v & 0x80u8 != 0) == b
        &&& !b ==> v & 0xc0u8 == 0
    }) by (bit_vector);
}

proof fn lemma_transparent_header(count: nat)
    requires
        14 <= count <= 1023,
    ensures
        transparent_header(count as u16).len() == 13,
        !header_invalid(transparent_header(count as u16)),
        header_count(transparent_header(count as u16)) == count,
        transparent_header(count as u16)[1] & 0x80u8 == 0,
{
    let c = count as u16;
    let h = transparent_header(c);
    ax25::lemma_small_lanes(0, 0, c, 0, 0);
    assert forall|k: int| 0 <= k < 13 implies {
        &&& #[trigger] h[k] & 0x7fu8 == 0
        &&& (h[k] & 0x80u8 != 0) == ax25::lane(c, 11, 10, k)
        &&& !ax25::lane(c, 11, 10, k) ==> h[k] & 0xc0u8 == 0
    } by {
        lemma_transparent_byte(ax25::lane(c, 11, 10, k));
    }
    assert(!low_bits_set(h));
    ax25::lemma_get_lane(h, 0x80, 2, 10, c);
    lemma_lane_value(h, 0x80, 2, 10);
}

proof fn lemma_translated_header(f: FrameView)
    requires
        ax25::frame_valid(f),
        ax25::spec_encode(f) is Ok,
    ensures
        ({
            let h = ax25::spec_encode(f)->Ok_0;
            &&& h.len() == 13
            &&& !header_invalid(h)
            &&& header_count(h) == f->Translated_data.len()
            &&& h[1] & 0x80u8 != 0
        }),
{
    match f {
        FrameView::Transparent(_) => {},
        FrameView::Translated { dst, src, control, data } => {
            let (ui, pid, compact) = ax25::control_fields(control)->Ok_0;
            let count = data.len() as u16;
            let h = ax25::spec_header(dst, src, ui, pid, compact, count);
            match control {
                crate::packet::Control::I { nr, ns, poll, pid: p } => {
                    ax25::lemma_compact(poll, false, nr, ns, 0, 0);
                },
                crate::packet::Control::S { nr, poll, command, kind } => {
                    ax25::lemma_compact(poll, command, nr, 0, ax25::s_code_spec(kind), 0);
                },
                crate::packet::Control::U { poll, command, kind } => {
                    ax25::lemma_compact(poll, command, 0, 0, 0, ax25::u_code_spec(kind));
                },
            }
            ax25::lemma_header_fields(dst, src, ui, pid, compact, count);
            ax25::lemma_small_lanes(pid, compact, count, dst.spec_ssid(), src.spec_ssid());
            lemma_lane_value(h, 0x80, 2, 10);
        },
    }
}

/// The header codeword at the start of a packet's stream is a clean Reed-Solomon codeword
/// holding the scrambled header.
proof fn lemma_stream_header(h: Seq<u8>, rest: Seq<u8>)
    requires
        h.len() == 13,
    ensures
        ({
            let stream = header_codeword(h) + rest;
            &&& rs::is_codeword(stream.take(15), 2)
            &&& stream_header(stream) == h
        }),
{
    let sh = scramble::spec_scramble(h);
    rs::lemma_parity_codeword(sh, 2);
    let hc = header_codeword(h);
    let stream = hc + rest;
    assert(stream.take(15) =~= hc);
    assert(stream.take(13) =~= sh);
    scramble::lemma_descramble_scramble(h);
}

/// The coded payload and the trailer of that stream, where its header says they are.
proof fn lemma_stream_body(h: Seq<u8>, payload: Seq<u8>, tr: Seq<u8>, mode: Crc)
    requires
        h.len() == 13,
        payload.len() <= 1023,
        tr.len() == crc_len(mode),
    ensures
        ({
            let stream = header_codeword(h) + coded_payload(payload) + tr;
            let plen = coded_len(payload.len());
            &&& stream.len() == 15 + plen + crc_len(mode)
            &&& stream.subrange(15, (15 + plen) as int) == coded_payload(payload)
            &&& stream.subrange((15 + plen) as int, (15 + plen + crc_len(mode)) as int) == tr
        }),
{
    let size = payload.len();
    lemma_plan(size);
    rs::lemma_parity_codeword(scramble::spec_scramble(h), 2);
    lemma_payload_roundtrip(payload);
    let cp = coded_payload(payload);
    let stream = header_codeword(h) + cp + tr;
    let plen = coded_len(size);
    assert(stream.subrange(15, (15 + plen) as int) =~= cp);
    assert(stream.subrange((15 + plen) as int, (15 + plen + crc_len(mode)) as int) =~= tr);
}

/// The stream after the sync word of a packet whose error-free header announces its
/// payload: every codeword in it is clean, and it parses into that header, payload and
/// trailer.
proof fn lemma_stream_parse(h: Seq<u8>, payload: Seq<u8>, tr: Seq<u8>, mode: Crc)
    requires
        h.len() == 13,
        !header_invalid(h),
        header_count(h) == payload.len(),
        payload.len() <= 1023,
        tr.len() == crc_len(mode),
    ensures
        ({
            let stream = header_codeword(h) + coded_payload(payload) + tr;
            &&& clean(stream, mode)
            &&& stream_header(stream) == h
            &&& stream.len() == 15 + coded_len(payload.len()) + crc_len(mode)
            &&& spec_parse(stream, mode) == parse_body(h, payload, tr, mode)
        }),
{
    let stream = header_codeword(h) + coded_payload(payload) + tr;
    assert(stream == header_codeword(h) + (coded_payload(payload) + tr));
    lemma_stream_header(h, coded_payload(payload) + tr);
    lemma_stream_body(h, payload, tr, mode);
    lemma_payload_roundtrip(payload);
    lemma_parse_steps(stream, mode);
}

/// The header `encode` writes for a frame.
spec fn frame_header(f: FrameView) -> Seq<u8> {
    match f {
        FrameView::Transparent(data) => transparent_header(data.len() as u16),
        FrameView::Translated { .. } => ax25::spec_encode(f)->Ok_0,
    }
}

/// The payload a frame carries.
spec fn frame_payload(f: FrameView) -> Seq<u8> {
    match f {
        FrameView::Transparent(data) => data,
        FrameView::Translated { data, .. } => data,
    }
}

/// The CRC codewords `encode` appends for a frame.
spec fn frame_trailer(f: FrameView, mode: Crc) -> Seq<u8> {
    match mode {
        Crc::Omitted => Seq::empty(),
        Crc::Hamming => crc::spec_encode(spec_frame_crc(f)->Ok_0),
    }
}

/// What `encode` writes after the sync word is a header codeword, the coded payload and the
/// trailer; the header is error free and announces the payload; and reading the header,
/// payload and trailer back gives the frame.
proof fn lemma_encoded_parts(f: FrameView, mode: Crc)
    requires
        ax25::frame_valid(f),
        spec_encode(f, mode) is Ok,
    ensures
        ({
            let h = frame_header(f);
            let payload = frame_payload(f);
            let tr = frame_trailer(f, mode);
            &&& spec_encode(f, mode)->Ok_0 == SYNC@ + (header_codeword(h) + coded_payload(payload) + tr)
            &&& h.len() == 13
            &&& !header_invalid(h)
            &&& header_count(h) == payload.len()
            &&& payload.len() <= 1023
            &&& tr.len() == crc_len(mode)
            &&& parse_body(h, payload, tr, mode) == Ok::<FrameView, Error>(f)
        }),
{
    let h = frame_header(f);
    let payload = frame_payload(f);
    let tr = frame_trailer(f, mode);
    let cs = match mode {
        Crc::Omitted => None,
        Crc::Hamming => Some(spec_frame_crc(f)->Ok_0),
    };
    assert(spec_encode(f, mode)->Ok_0 == spec_packet(h, payload, cs));
    match f {
        FrameView::Transparent(data) => {
            lemma_transparent_header(payload.len());
        },
        FrameView::Translated { .. } => {
            lemma_translated_header(f);
            ax25::lemma_header_roundtrip(f);
        },
    }
    match cs {
        Some(c) => {
            crc::lemma_decode_encode(c);
        },
        None => {},
    }
    assert(SYNC@ + header_codeword(h) + coded_payload(payload) + tr =~= SYNC@ + (header_codeword(h)
        + coded_payload(payload) + tr));
}

/// In a burst of `n` preamble bytes and a packet, the sync word first stands after the
/// preamble.
proof fn lemma_burst_sync(packet: Seq<u8>, n: nat)
    requires
        packet.len() >= 3,
        packet.take(3) == SYNC@,
    ensures
        first_sync(preamble(n) + packet, n as int),
{
    let burst = preamble(n) + packet;
    assert(packet[0] == SYNC@[0] && packet[1] == SYNC@[1] && packet[2] == SYNC@[2]);
    assert(sync_at(burst, n as int));
    assert forall|j: int| 0 <= j < n implies !#[trigger] sync_at(burst, j) by {
        assert(burst[j] == 0x55u8);
    }
}

/// Decoding what `encode` (or `encode_burst`, with any number of preamble bytes) produced
/// finds the sync word where the packet starts, sees an error-free stream, and gives back
/// the frame.
#[verifier::rlimit(30)]
pub proof fn lemma_encode_decode(f: FrameView, mode: Crc, n: nat)
    requires
        ax25::frame_valid(f),
        spec_encode(f, mode) is Ok,
    ensures
        ({
            let burst = preamble(n) + spec_encode(f, mode)->Ok_0;
            &&& first_sync(burst, n as int)
            &&& clean(burst.skip(n + 3int), mode)
            &&& spec_parse(burst.skip(n + 3int), mode) == Ok::<FrameView, Error>(f)
            &&& burst.skip(n + 3int).len() == 15 + coded_len(
                header_count(stream_header(burst.skip(n + 3int))),
            ) + crc_len(mode)
        }),
{
    let h = frame_header(f);
    let payload = frame_payload(f);
    let tr = frame_trailer(f, mode);
    lemma_encoded_parts(f, mode);
    lemma_stream_parse(h, payload, tr, mode);
    let stream = header_codeword(h) + coded_payload(payload) + tr;
    let packet = spec_encode(f, mode)->Ok_0;
    assert(packet.take(3) =~= SYNC@);
    lemma_burst_sync(packet, n);
    assert((preamble(n) + packet).skip(n + 3int) =~= stream);
}

/// The stream after the sync word of a packet `encode` produced is within correction reach
/// of itself, at distance zero: what holds of received packets with such errors
/// holds of the packet itself.
pub proof fn lemma_encoded_exact(f: FrameView, mode: Crc)
    requires
        ax25::frame_valid(f),
        spec_encode(f, mode) is Ok,
    ensures
        correctable(spec_encode(f, mode)->Ok_0.skip(3), spec_encode(f, mode)->Ok_0.skip(3), mode),
        rs::diff_count(spec_encode(f, mode)->Ok_0.skip(3), spec_encode(f, mode)->Ok_0.skip(3)) == 0,
{
    lemma_encode_decode(f, mode, 0);
    let packet = spec_encode(f, mode)->Ok_0;
    assert(preamble(0) + packet =~= packet);
    let stream = packet.skip(3);
    lemma_parse_steps(stream, mode);
    rs::lemma_diff_count_same(stream);
    rs::lemma_diff_count_same(stream.take(15));
    let count = header_count(stream_header(stream));
    let plen = coded_len(count);
    assert forall|j: nat| j < num_blocks(count) implies rs::diff_count(
        #[trigger] coded_block_at(stream.subrange(15, (15 + plen) as int), count, j),
        coded_block_at(stream.subrange(15, (15 + plen) as int), count, j),
    ) <= 1 by {
        rs::lemma_diff_count_same(coded_block_at(stream.subrange(15, (15 + plen) as int), count, j));
    }
}

/// In a burst of `n` preamble bytes and a packet that `encode` produced, received with at
/// most one symbol error in the header codeword and eight in each payload block after an
/// intact sync word, the sync word first
/// stands after the preamble, and the stream after it is one that decoding corrects to the
/// encoded stream, which carries the frame.
pub proof fn lemma_decode_received(f: FrameView, mode: Crc, n: nat, received: Seq<u8>)
    requires
        ax25::frame_valid(f),
        spec_encode(f, mode) is Ok,
        received.len() == spec_encode(f, mode)->Ok_0.len(),
        received.take(3) == spec_encode(f, mode)->Ok_0.take(3),
        correctable(received.skip(3), spec_encode(f, mode)->Ok_0.skip(3), mode),
    ensures
        ({
            let burst = preamble(n) + received;
            &&& first_sync(burst, n as int)
            &&& burst.skip(n + 3int) == received.skip(3)
            &&& spec_parse(spec_encode(f, mode)->Ok_0.skip(3), mode) == Ok::<FrameView, Error>(f)
        }),
{
    lemma_encode_decode(f, mode, n);
    let packet = spec_encode(f, mode)->Ok_0;
    assert(received.len() >= 3);
    assert(packet.take(3) =~= SYNC@) by {
        assert(sync_at(preamble(n) + packet, n as int));
    }
    lemma_burst_sync(received, n);
    assert((preamble(n) + received).skip(n + 3int) =~= received.skip(3));
    assert((preamble(n) + packet).skip(n + 3int) =~= packet.skip(3));
}

/// A burst that `encode_burst` produced, with one symbol of the packet's header codeword
/// changed, still has its sync word after the preamble, and the stream after it is one
/// symbol from the encoded stream, whose every codeword is error free and which carries the
/// frame: decoding corrects that symbol and gives the frame back.
pub proof fn lemma_header_error(f: FrameView, mode: Crc, n: nat, k: int, e: u8)
    requires
        ax25::frame_valid(f),
        spec_encode(f, mode) is Ok,
        0 <= k < 15,
        e != 0,
    ensures
        ({
            let burst = preamble(n) + spec_encode(f, mode)->Ok_0;
            let bad = burst.update(n + 3 + k, burst[n + 3 + k] ^ e);
            &&& first_sync(bad, n as int)
            &&& correctable(bad.skip(n + 3int), burst.skip(n + 3int), mode)
            &&& rs::diff_count(bad.skip(n + 3int), burst.skip(n + 3int)) == 1
            &&& spec_parse(burst.skip(n + 3int), mode) == Ok::<FrameView, Error>(f)
        }),
{
    lemma_encode_decode(f, mode, n);
    let burst = preamble(n) + spec_encode(f, mode)->Ok_0;
    let i = n + 3 + k;
    let bad = burst.update(i, burst[i] ^ e);
    let stream = burst.skip(n + 3int);
    let bstream = bad.skip(n + 3int);
    assert(bstream =~= stream.update(k, stream[k] ^ e));
    assert(bstream.take(15) =~= stream.take(15).update(k, stream[k] ^ e));
    let x = stream[k];
    lemma_xor(x ^ e, x, 0u8);
    lemma_xor(x, e, x);
    lemma_xor(e, x, 0u8);
    lemma_xor(x, x, e);
    lemma_xor(e, 0u8, 0u8);
    assert(x ^ e != x);
    rs::lemma_diff_count_single(stream.take(15), k, stream[k] ^ e);
    rs::lemma_diff_count_single(stream, k, stream[k] ^ e);
    rs::lemma_diff_symmetric(bstream.take(15), stream.take(15));
    // the payload and trailer are untouched
    lemma_parse_steps(stream, mode);
    let count = header_count(stream_header(stream));
    let plen = coded_len(count);
    assert(bstream.subrange(15, (15 + plen) as int) =~= stream.subrange(15, (15 + plen) as int));
    assert(bstream.skip((15 + plen) as int) =~= stream.skip((15 + plen) as int));
    assert forall|j: nat| j < num_blocks(count) implies rs::diff_count(
        #[trigger] coded_block_at(bstream.subrange(15, (15 + plen) as int), count, j),
        coded_block_at(stream.subrange(15, (15 + plen) as int), count, j),
    ) <= 1 by {
        rs::lemma_diff_count_same(coded_block_at(stream.subrange(15, (15 + plen) as int), count, j));
    }
    assert forall|j: int| 0 <= j < n implies !#[trigger] sync_at(bad, j) by {
        assert(!sync_at(burst, j));
        assert(bad[j] == burst[j]);
    }
    assert(sync_at(bad, n as int)) by {
        assert(sync_at(burst, n as int));
    }
}

} // verus!
