use il2p::{decode, encode, encode_burst, Call, Control, Crc, Error, Frame, Pid, Receiver, SKind, UKind};

fn call(name: &str, ssid: u8) -> Call {
    Call::new(name, ssid).unwrap()
}

fn ui_frame(data: Vec<u8>) -> Frame {
    Frame::Translated {
        dst: call("CQ", 0),
        src: call("N0CALL", 9),
        control: Control::U {
            poll: false,
            command: true,
            kind: UKind::Ui(Pid::new(0xf).unwrap()),
        },
        data,
    }
}

#[test]
fn call_pads_with_spaces() {
    let c = Call::new("AB1", 5).unwrap();
    assert_eq!(c.name(), b"AB1   ");
    assert_eq!(c.ssid(), 5);
}

#[test]
fn call_rejects_bad_input() {
    assert_eq!(Call::new("ab", 0), Err(Error::Frame));
    assert_eq!(Call::new("AB", 16), Err(Error::Frame));
    assert_eq!(Call::new("A~", 0), Err(Error::Frame));
    assert!(Call::new("A_[ ", 15).is_ok());
}

#[test]
fn pid_codes() {
    assert_eq!(Pid::new(2).unwrap().code(), 2);
    assert_eq!(Pid::new(0x0f).unwrap().code(), 0x0f);
    assert_eq!(Pid::new(16), Err(Error::Frame));
    assert_eq!(Pid::new(0), Err(Error::Frame));
    assert_eq!(Pid::NONE().code(), 0xf);
    assert_eq!(Pid::LAYER3().code(), 0x2);
    assert_eq!(Pid::THENET().code(), 0xe);
}

#[test]
fn error_messages() {
    assert_eq!(Error::Frame.message(), "invalid IL2P frame");
    assert_eq!(Error::Crc.message(), "IL2P trailing CRC failed");
}

#[test]
fn burst_then_decode() {
    let frame = ui_frame(vec![1, 2, 3, 4, 5]);
    for preamble in [0usize, 1, 8, 33] {
        let burst = encode_burst(&frame, Crc::Hamming, preamble).unwrap();
        assert!(burst[..preamble].iter().all(|&b| b == 0x55));
        assert_eq!(&burst[preamble..preamble + 3], &[0xf1, 0x5e, 0x48]);
        let decoded = decode(&burst, Crc::Hamming).unwrap();
        assert_eq!(decoded.frame, frame);
        assert_eq!(decoded.corrected, 0);
    }
}

#[test]
fn encode_starts_with_sync_and_has_expected_length() {
    let frame = ui_frame(vec![0xaa; 10]);
    let packet = encode(&frame, Crc::Omitted).unwrap();
    assert_eq!(&packet[..3], &[0xf1, 0x5e, 0x48]);
    assert_eq!(packet.len(), 3 + 15 + 10 + 16);
    let packet = encode(&frame, Crc::Hamming).unwrap();
    assert_eq!(packet.len(), 3 + 15 + 10 + 16 + 4);
}

#[test]
fn transparent_limits() {
    assert_eq!(encode(&Frame::Transparent(vec![0; 1024]), Crc::Omitted), Err(Error::TooLong));
    let frame = Frame::Transparent(vec![7; 14]);
    let packet = encode(&frame, Crc::Omitted).unwrap();
    assert_eq!(decode(&packet, Crc::Omitted).unwrap().frame, frame);
}

#[test]
fn translated_too_long() {
    assert_eq!(encode(&ui_frame(vec![0; 1024]), Crc::Hamming), Err(Error::TooLong));
}

#[test]
fn s_frame_nr_out_of_range() {
    let frame = Frame::Translated {
        dst: call("A", 0),
        src: call("B", 0),
        control: Control::S { nr: 9, poll: false, command: false, kind: SKind::Rej },
        data: Vec::new(),
    };
    assert_eq!(encode(&frame, Crc::Omitted), Err(Error::Frame));
}

#[test]
fn decode_without_sync() {
    assert_eq!(decode(&[0x55, 0x55, 0xf1, 0x5e], Crc::Omitted), Err(Error::Sync));
    assert_eq!(decode(&[], Crc::Omitted), Err(Error::Sync));
}

#[test]
fn decode_truncated() {
    let packet = encode(&ui_frame(vec![9; 30]), Crc::Hamming).unwrap();
    assert_eq!(decode(&packet[..10], Crc::Hamming), Err(Error::Truncated));
    assert_eq!(decode(&packet[..packet.len() - 1], Crc::Hamming), Err(Error::Truncated));
}

#[test]
fn decode_bad_crc() {
    let mut packet = encode(&ui_frame(vec![9; 30]), Crc::Hamming).unwrap();
    let last = packet.len() - 1;
    packet[last] |= 0x80;
    assert_eq!(decode(&packet, Crc::Hamming), Err(Error::Crc));
}

#[test]
fn decode_mismatched_crc() {
    let mut packet = encode(&ui_frame(vec![9; 30]), Crc::Hamming).unwrap();
    let last = packet.len() - 4;
    packet[last] = 0x7f;
    assert_eq!(decode(&packet, Crc::Hamming), Err(Error::Crc));
}

#[test]
fn decode_unrecoverable_header() {
    let mut packet = encode(&ui_frame(vec![9; 30]), Crc::Omitted).unwrap();
    for index in 3..18 {
        packet[index] ^= 0x5a;
    }
    assert!(matches!(decode(&packet, Crc::Omitted), Err(Error::Header)));
}

#[test]
fn decode_unrecoverable_payload() {
    let mut packet = encode(&Frame::Transparent(vec![3; 100]), Crc::Omitted).unwrap();
    for index in 0..20 {
        packet[18 + index * 5] ^= 0x33;
    }
    assert_eq!(decode(&packet, Crc::Omitted), Err(Error::Payload));
}

#[test]
fn every_destination_ssid_is_read_back() {
    for ssid in 0..16 {
        let frame = Frame::Translated {
            dst: call("N0CALL", ssid),
            src: call("KK4HEJ", 15 - ssid),
            control: Control::U { poll: false, command: false, kind: UKind::Ui(Pid::NONE()) },
            data: Vec::new(),
        };
        let packet = encode(&frame, Crc::Omitted).unwrap();
        let decoded = decode(&packet, Crc::Omitted).unwrap();
        assert_eq!(decoded.frame, frame);
        assert_eq!(decoded.corrected, 0);
    }
}

fn feed(receiver: &mut Receiver, bytes: &[u8]) -> Vec<Result<il2p::Decoded, Error>> {
    let mut results = Vec::new();
    for &byte in bytes {
        for bit in (0..8).rev() {
            if let Some(result) = receiver.push(byte & (1 << bit) != 0) {
                results.push(result);
            }
        }
    }
    results
}

#[test]
fn receiver_decodes_back_to_back_packets() {
    let first = ui_frame(vec![1, 2, 3]);
    let second = Frame::Transparent((0..40).collect());
    let mut stream = encode_burst(&first, Crc::Omitted, 4).unwrap();
    stream.extend(encode_burst(&second, Crc::Omitted, 4).unwrap());
    let mut receiver = Receiver::new(Crc::Omitted);
    let results = feed(&mut receiver, &stream);
    assert_eq!(results.len(), 2);
    assert_eq!(results[0].as_ref().unwrap().frame, first);
    assert_eq!(results[1].as_ref().unwrap().frame, second);
}

#[test]
fn receiver_reset_and_default() {
    let frame = ui_frame(vec![5; 3]);
    let packet = encode(&frame, Crc::Omitted).unwrap();
    let mut receiver = Receiver::default();
    assert!(feed(&mut receiver, &packet[..10]).is_empty());
    receiver.reset();
    let results = feed(&mut receiver, &packet);
    assert_eq!(results.len(), 1);
    assert_eq!(results[0].as_ref().unwrap().frame, frame);
}

#[test]
fn receiver_ignores_two_bit_sync_errors() {
    let frame = ui_frame(vec![5; 3]);
    let mut packet = encode(&frame, Crc::Omitted).unwrap();
    packet[0] ^= 0x81;
    let mut receiver = Receiver::new(Crc::Omitted);
    assert!(feed(&mut receiver, &packet).is_empty());
}

#[test]
fn default_crc_mode_is_omitted() {
    assert_eq!(Crc::default(), Crc::Omitted);
}

#[test]
fn receiver_answers_on_the_last_bit() {
    let frame = ui_frame(vec![9, 8, 7]);
    let packet = encode(&frame, Crc::Hamming).unwrap();
    let mut receiver = Receiver::new(Crc::Hamming);
    let total = packet.len() * 8;
    let mut pushed = 0;
    for &byte in &packet {
        for bit in (0..8).rev() {
            pushed += 1;
            let result = receiver.push(byte & (1 << bit) != 0);
            if pushed < total {
                assert!(result.is_none());
            } else {
                let decoded = result.unwrap().unwrap();
                assert_eq!(decoded.frame, frame);
                assert_eq!(decoded.corrected, 0);
            }
        }
    }
    let again = feed(&mut receiver, &packet);
    assert_eq!(again.len(), 1);
    assert_eq!(again[0].as_ref().unwrap().frame, frame);
}

#[test]
fn receiver_takes_a_burst_after_its_preamble() {
    let frame = Frame::Transparent((0..30).collect());
    let burst = encode_burst(&frame, Crc::Hamming, 7).unwrap();
    let mut receiver = Receiver::new(Crc::Hamming);
    let total = burst.len() * 8;
    let mut pushed = 0;
    for &byte in &burst {
        for bit in (0..8).rev() {
            pushed += 1;
            let result = receiver.push(byte & (1 << bit) != 0);
            if pushed < total {
                assert!(result.is_none());
            } else {
                let decoded = result.unwrap().unwrap();
                assert_eq!(decoded.frame, frame);
                assert_eq!(decoded.corrected, 0);
            }
        }
    }
}

#[test]
fn decode_corrects_one_header_symbol() {
    let frame = ui_frame(vec![4, 5, 6, 7]);
    for position in 0..15 {
        let mut burst = encode_burst(&frame, Crc::Hamming, 2).unwrap();
        burst[2 + 3 + position] ^= 0x5a;
        let decoded = decode(&burst, Crc::Hamming).unwrap();
        assert_eq!(decoded.frame, frame);
        assert_eq!(decoded.corrected, 1);
    }
}

#[test]
fn decode_corrects_one_symbol_in_every_codeword() {
    let frame = Frame::Transparent((0..500).map(|n: u32| (n * 13 + 1) as u8).collect());
    let mut packet = encode(&frame, Crc::Hamming).unwrap();
    // header codeword, then three payload blocks of 183, 183 and 182 coded bytes
    for position in [3 + 7, 18 + 5, 18 + 183 + 100, 18 + 366 + 181] {
        packet[position] ^= 0x81;
    }
    let decoded = decode(&packet, Crc::Hamming).unwrap();
    assert_eq!(decoded.frame, frame);
    assert_eq!(decoded.corrected, 4);
}

#[test]
fn receiver_corrects_one_symbol_in_every_codeword() {
    let frame = Frame::Transparent((0..300).map(|n: u32| (n * 7 + 3) as u8).collect());
    let mut burst = encode_burst(&frame, Crc::Hamming, 3).unwrap();
    // after three preamble bytes and the sync word: the header codeword, then two payload
    // blocks of 166 coded bytes each
    for position in [3 + 3 + 14, 3 + 18 + 2, 3 + 18 + 166 + 165] {
        burst[position] ^= 0x3c;
    }
    let mut receiver = Receiver::new(Crc::Hamming);
    let results = feed(&mut receiver, &burst);
    assert_eq!(results.len(), 1);
    let decoded = results[0].as_ref().unwrap();
    assert_eq!(decoded.frame, frame);
    assert_eq!(decoded.corrected, 3);
}

#[test]
fn receiver_takes_a_burst_with_one_sync_bit_flipped() {
    let frame = ui_frame(vec![1, 1, 2, 3, 5, 8]);
    for bit in 0..24 {
        let mut burst = encode_burst(&frame, Crc::Omitted, 4).unwrap();
        burst[4 + bit / 8] ^= 0x80 >> (bit % 8);
        let mut receiver = Receiver::new(Crc::Omitted);
        let results = feed(&mut receiver, &burst);
        assert_eq!(results.len(), 1);
        assert_eq!(results[0].as_ref().unwrap().frame, frame);
    }
}

#[test]
fn receiver_reports_an_unrepairable_payload_and_goes_on_hunting() {
    let frame = Frame::Transparent((0..60).map(|n: u32| (n * 13 + 5) as u8).collect());
    let mut packet = encode(&frame, Crc::Hamming).unwrap();
    // nine symbol errors in the single payload block: beyond its eight-symbol capacity
    for n in 0..9 {
        packet[3 + 15 + 2 * n] ^= 0x81 + n as u8;
    }
    packet.extend(encode(&frame, Crc::Hamming).unwrap());
    let mut receiver = Receiver::new(Crc::Hamming);
    let results = feed(&mut receiver, &packet);
    assert_eq!(results.len(), 2);
    assert!(matches!(results[0], Err(Error::Payload) | Err(Error::Crc) | Err(Error::Header)));
    assert_eq!(results[1].as_ref().unwrap().frame, frame);
}

#[test]
fn bytes_after_a_packet_change_nothing() {
    let frame = ui_frame(vec![7, 8, 9]);
    for mode in [Crc::Omitted, Crc::Hamming] {
        let packet = encode(&frame, mode).unwrap();
        let mut longer = packet.clone();
        longer.extend([0x12, 0x34, 0x56, 0xf1, 0x5e]);
        let short = decode(&packet, mode).unwrap();
        let long = decode(&longer, mode).unwrap();
        assert_eq!(short.frame, frame);
        assert_eq!(long.frame, frame);
        assert_eq!(long.corrected, 0);
    }
}

#[test]
fn receiver_and_decode_agree() {
    let frame = Frame::Transparent((0..120).map(|n: u32| (n * 5 + 1) as u8).collect());
    let mut packet = encode(&frame, Crc::Hamming).unwrap();
    for position in [3 + 7, 3 + 15 + 40] {
        packet[position] ^= 0x5a;
    }
    let decoded = decode(&packet, Crc::Hamming).unwrap();
    let mut receiver = Receiver::new(Crc::Hamming);
    let results = feed(&mut receiver, &packet);
    assert_eq!(results.len(), 1);
    let received = results[0].as_ref().unwrap();
    assert_eq!(received.frame, decoded.frame);
    assert_eq!(received.corrected, decoded.corrected);
    assert_eq!(decoded.corrected, 2);
}

#[test]
fn receiver_syncs_after_any_number_of_alternating_bits() {
    let frame = ui_frame(vec![0x42; 5]);
    let mut packet = encode(&frame, Crc::Hamming).unwrap();
    packet[2] ^= 0x10;
    for pre in 0..40usize {
        let mut receiver = Receiver::new(Crc::Hamming);
        for k in 0..pre {
            assert!(receiver.push((pre - k) % 2 == 1).is_none());
        }
        let results = feed(&mut receiver, &packet);
        assert_eq!(results.len(), 1);
        assert_eq!(results[0].as_ref().unwrap().frame, frame);
    }
}

#[test]
fn a_fresh_receiver_is_silent_for_143_bits() {
    for mode in [Crc::Omitted, Crc::Hamming] {
        let mut receiver = Receiver::new(mode);
        // a sync word straight away, then the rest of an empty Type 1 header
        let frame = ui_frame(Vec::new());
        let packet = encode(&frame, mode).unwrap();
        let mut bits = Vec::new();
        for &byte in &packet {
            for bit in (0..8).rev() {
                bits.push(byte & (1 << bit) != 0);
            }
        }
        for &bit in bits.iter().take(143) {
            assert!(receiver.push(bit).is_none());
        }
    }
}

#[test]
fn decoding_without_the_crc_check_gives_the_same_frame() {
    let frame = Frame::Transparent((0..200).map(|n: u32| (n * 3 + 11) as u8).collect());
    let mut packet = encode(&frame, Crc::Hamming).unwrap();
    for n in 0..8 {
        packet[3 + 15 + 5 * n] ^= 0x11 + n as u8;
    }
    let checked = decode(&packet, Crc::Hamming).unwrap();
    let unchecked = decode(&packet, Crc::Omitted).unwrap();
    assert_eq!(checked.frame, frame);
    assert_eq!(unchecked.frame, frame);
    assert_eq!(checked.corrected, 8);
    assert_eq!(unchecked.corrected, 8);
}

#[test]
fn receiver_and_decode_agree_beyond_repair() {
    let frame = Frame::Transparent((0..60).map(|n: u32| (n * 13 + 5) as u8).collect());
    let mut packet = encode(&frame, Crc::Omitted).unwrap();
    for n in 0..9 {
        packet[3 + 15 + 2 * n] ^= 0x81 + n as u8;
    }
    let direct = decode(&packet, Crc::Omitted);
    let mut receiver = Receiver::new(Crc::Omitted);
    let results = feed(&mut receiver, &packet);
    assert_eq!(results.len(), 1);
    match (&results[0], &direct) {
        (Ok(a), Ok(b)) => {
            assert_eq!(a.frame, b.frame);
            assert_eq!(a.corrected, b.corrected);
        }
        (Err(a), Err(b)) => assert_eq!(a, b),
        _ => panic!("the receiver and decode disagree"),
    }
}
