use il2p::crc::{crc16, decode, encode, update};
use il2p::Error;

#[test]
fn check_value() {
    assert_eq!(crc16(b"123456789"), 0x906e);
}

#[test]
fn hamming_fix() {
    let raw = b"packet";
    let mut encoded = encode(crc16(raw));
    encoded[0] ^= 0x20;
    encoded[1] ^= 0x01;
    encoded[2] ^= 0x40;
    encoded[3] ^= 0x08;
    assert_eq!(decode(&encoded), Ok(crc16(raw)));
}

#[test]
fn crc_empty_input() {
    assert_eq!(crc16(b""), 0x0000);
}

#[test]
fn crc_update_matches_crc16() {
    let data = b"IL2P frame";
    let mut register = 0xffffu16;
    for &byte in data.iter() {
        update(&mut register, byte);
    }
    assert_eq!(!register, crc16(data));
}

#[test]
fn hamming_codewords_of_nibbles() {
    assert_eq!(encode(0x0123), [0x00, 0x71, 0x62, 0x13]);
    assert_eq!(encode(0xcdef), [0x6c, 0x1d, 0x0e, 0x7f]);
}

#[test]
fn hamming_round_trip_all_nibbles() {
    for value in [0x0000u16, 0xffff, 0x1234, 0x906e, 0xa5c3] {
        assert_eq!(decode(&encode(value)), Ok(value));
    }
}

#[test]
fn hamming_every_single_bit_error() {
    let value = 0x5a3c;
    let clean = encode(value);
    for position in 0..4 {
        for bit in 0..7 {
            let mut damaged = clean;
            damaged[position] ^= 1 << bit;
            assert_eq!(decode(&damaged), Ok(value));
        }
    }
}

#[test]
fn hamming_short_input() {
    assert_eq!(decode(&[0x00, 0x71, 0x62]), Err(Error::Truncated));
}

#[test]
fn hamming_high_bit_rejected() {
    assert_eq!(decode(&[0x00, 0x71, 0x80, 0x13]), Err(Error::Crc));
}

#[test]
fn frame_with_its_crc_leaves_the_good_residue() {
    for data in [&b""[..], &b"123456789"[..], &b"packet radio"[..]] {
        let fcs = crc16(data);
        let mut reg: u16 = 0xffff;
        for &b in data.iter().chain([fcs as u8, (fcs >> 8) as u8].iter()) {
            update(&mut reg, b);
        }
        assert_eq!(reg, 0xf0b8);
    }
}

#[test]
fn update_is_linear() {
    let (r1, r2, b1, b2) = (0x1234u16, 0xbeefu16, 0x5au8, 0xc3u8);
    let mut sum = r1 ^ r2;
    update(&mut sum, b1 ^ b2);
    let mut a = r1;
    update(&mut a, b1);
    let mut b = r2;
    update(&mut b, b2);
    assert_eq!(sum, a ^ b);
}

#[test]
fn every_seven_bit_byte_decodes_to_its_one_nearby_codeword() {
    const CODEWORDS: [u8; 16] = [
        0x00, 0x71, 0x62, 0x13, 0x54, 0x25, 0x36, 0x47, 0x38, 0x49, 0x5a, 0x2b, 0x6c, 0x1d, 0x0e, 0x7f,
    ];
    for b in 0u8..0x80 {
        let near: Vec<u16> = (0..16u16)
            .filter(|&n| (b ^ CODEWORDS[n as usize]).count_ones() <= 1)
            .collect();
        assert_eq!(near.len(), 1);
        let expected = near[0];
        let data = [b, CODEWORDS[0], CODEWORDS[0], CODEWORDS[0]];
        assert_eq!(decode(&data), Ok(expected << 12));
    }
}
