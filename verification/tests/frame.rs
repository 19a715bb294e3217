use il2p::frame::{HEADER_CODED, MAX_PACKET, MAX_PAYLOAD, PARITY};
use il2p::{crc, decode, encode, Call, Control, Crc, Error, Frame, Pid, Receiver, SKind, UKind};

const S_RAW: &[u8] = &[
    0x96, 0x82, 0x64, 0x88, 0x8a, 0xae, 0xe4, 0x96, 0x96, 0x68, 0x90, 0x8a, 0x94, 0x6f, 0x81,
];
const S_CODED: &[u8] = &[
    0x26, 0x57, 0x4d, 0x57, 0xf1, 0xd2, 0xa8, 0xf0, 0x6a, 0xf2, 0x7b, 0xad, 0x23, 0xbd, 0xc0,
    0x7f, 0x00, 0x1d, 0x2b,
];

const U_RAW: &[u8] = &[
    0x86, 0xa2, 0x40, 0x40, 0x40, 0x40, 0x60, 0x96, 0x96, 0x68, 0x90, 0x8a, 0x94, 0xff, 0x03,
    0xf0,
];
const U_CODED: &[u8] = &[
    0x6a, 0xea, 0x9c, 0xc2, 0x01, 0x11, 0xfc, 0x14, 0x1f, 0xda, 0x6e, 0xf2, 0x53, 0x91, 0xbd,
    0x47, 0x6c, 0x54, 0x54,
];

const I_RAW: &[u8] = &[
    0x96, 0x82, 0x64, 0x88, 0x8a, 0xae, 0xe4, 0x96, 0x96, 0x68, 0x90, 0x8a, 0x94, 0x65, 0xb8,
    0xcf, 0x30, 0x31, 0x32, 0x33, 0x34, 0x35, 0x36, 0x37, 0x38,
];
const I_CODED: &[u8] = &[
    0x26, 0x13, 0x6d, 0x02, 0x8c, 0xfe, 0xfb, 0xe8, 0xaa, 0x94, 0x2d, 0x6a, 0x34, 0x43, 0x35,
    0x3c, 0x69, 0x9f, 0x0c, 0x75, 0x5a, 0x38, 0xa1, 0x7f, 0xa5, 0xda, 0xd8, 0xf6, 0xea, 0x57,
    0x37, 0x3d, 0xb1, 0x2a, 0xb0, 0xde, 0x44, 0xa8, 0x20, 0xd0, 0x1d, 0x5a, 0x2b, 0x38,
];

fn call(name: &str, ssid: u8) -> Call {
    Call::new(name, ssid).unwrap()
}

fn s_frame() -> Frame {
    Frame::Translated {
        dst: call("KA2DEW", 2),
        src: call("KK4HEJ", 7),
        control: Control::S {
            nr: 4,
            poll: false,
            command: true,
            kind: SKind::Rr,
        },
        data: Vec::new(),
    }
}

fn u_frame() -> Frame {
    Frame::Translated {
        dst: call("CQ", 0),
        src: call("KK4HEJ", 15),
        control: Control::U {
            poll: false,
            command: false,
            kind: UKind::Ui(Pid::NONE()),
        },
        data: Vec::new(),
    }
}

fn i_frame() -> Frame {
    Frame::Translated {
        dst: call("KA2DEW", 2),
        src: call("KK4HEJ", 2),
        control: Control::I {
            nr: 5,
            ns: 4,
            poll: true,
            pid: Pid::THENET(),
        },
        data: (b'0'..=b'8').collect(),
    }
}

fn check_vector(frame: Frame, raw: &[u8], coded: &[u8]) {
    let packet = encode(&frame, Crc::Hamming).unwrap();
    assert_eq!(&packet[3..], coded);
    assert_eq!(decode(&packet, Crc::Omitted).unwrap().frame, frame);
    assert_eq!(crc::decode(&coded[coded.len() - 4..]), Ok(crc::crc16(raw)));
    assert_eq!(decode(&packet, Crc::Hamming).unwrap().frame, frame);
}

#[test]
fn spec_vecs() {
    check_vector(s_frame(), S_RAW, S_CODED);
    check_vector(u_frame(), U_RAW, U_CODED);
    check_vector(i_frame(), I_RAW, I_CODED);
}

#[test]
fn transparent_round_trip() {
    let frame = Frame::Transparent(I_RAW.to_vec());
    let packet = encode(&frame, Crc::Hamming).unwrap();
    assert_eq!(decode(&packet, Crc::Hamming).unwrap().frame, frame);
}

#[test]
fn payload_boundary() {
    for size in [0, 1, 238, 239, 240, 478, 479, 1023] {
        let mut frame = u_frame();
        let Frame::Translated { data, .. } = &mut frame else {
            unreachable!()
        };
        data.extend((0..size).map(|index| (index * 43 + 7) as u8));
        let packet = encode(&frame, Crc::Hamming).unwrap();
        assert_eq!(decode(&packet, Crc::Hamming).unwrap().frame, frame);
    }
}

#[test]
fn fec_works() {
    let frame = i_frame();
    let mut packet = encode(&frame, Crc::Hamming).unwrap();
    packet[5] ^= 0x40;
    for index in [19, 22, 25, 28, 31, 34, 38, 42] {
        packet[index] ^= index as u8;
    }
    let decoded = decode(&packet, Crc::Hamming).unwrap();
    assert_eq!(decoded.frame, frame);
    assert_eq!(decoded.corrected, 9);
}

#[test]
fn crc_no_excess() {
    let mut packet = encode(&i_frame(), Crc::Hamming).unwrap();
    for (n, index) in [18, 20, 22, 24, 26, 28, 30, 32, 34].into_iter().enumerate() {
        packet[index] ^= 0x81 + n as u8;
    }
    assert!(matches!(
        decode(&packet, Crc::Hamming),
        Err(Error::Payload | Error::Crc)
    ));
}

#[test]
fn max_transparent_pkt() {
    let data: Vec<_> = (0..MAX_PAYLOAD)
        .map(|index| (index * 71 + 29) as u8)
        .collect();
    let frame = Frame::Transparent(data);
    let packet = encode(&frame, Crc::Hamming).unwrap();
    assert_eq!(packet.len(), MAX_PACKET);
    assert_eq!(decode(&packet, Crc::Hamming).unwrap().frame, frame);

    let mut damaged = packet;
    let mut offset = 3 + HEADER_CODED;
    for (block, size) in [205, 205, 205, 204, 204].into_iter().enumerate() {
        for error in 0..8 {
            damaged[offset + error * 27] ^= 0x31 + block as u8 + error as u8;
        }
        offset += size + PARITY;
    }
    let decoded = decode(&damaged, Crc::Hamming).unwrap();
    assert_eq!(decoded.frame, frame);
    assert_eq!(decoded.corrected, 40);
}

#[test]
fn invalid_fields() {
    assert_eq!(Call::new("", 0), Err(Error::Frame));
    assert_eq!(Call::new("TOO-LONG", 0), Err(Error::Frame));
    assert_eq!(Pid::new(1), Err(Error::Frame));
    assert_eq!(
        encode(&Frame::Transparent(vec![0; 13]), Crc::Omitted),
        Err(Error::Frame)
    );

    let mut frame = i_frame();
    let Frame::Translated { control, .. } = &mut frame else {
        unreachable!()
    };
    *control = Control::I {
        nr: 8,
        ns: 0,
        poll: false,
        pid: Pid::NONE(),
    };
    assert_eq!(encode(&frame, Crc::Omitted), Err(Error::Frame));
}

#[test]
fn translated_controls() {
    let mut controls = Vec::new();
    for code in 2..=0x0f {
        let pid = Pid::new(code).unwrap();
        controls.push(Control::I {
            nr: code & 7,
            ns: code >> 1 & 7,
            poll: code & 1 != 0,
            pid,
        });
        controls.push(Control::U {
            poll: code & 1 != 0,
            command: code & 2 != 0,
            kind: UKind::Ui(pid),
        });
    }
    for kind in [SKind::Rr, SKind::Rnr, SKind::Rej, SKind::Srej] {
        controls.push(Control::S {
            nr: 6,
            poll: true,
            command: false,
            kind,
        });
    }
    for kind in [
        UKind::Sabm,
        UKind::Disc,
        UKind::Dm,
        UKind::Ua,
        UKind::Frmr,
        UKind::Xid,
        UKind::Test,
    ] {
        controls.push(Control::U {
            poll: true,
            command: true,
            kind,
        });
    }

    for control in controls {
        let frame = Frame::Translated {
            dst: call("N0CALL", 1),
            src: call("KK4HEJ", 2),
            control,
            data: vec![0x12, 0x34, 0x56],
        };
        let packet = encode(&frame, Crc::Hamming).unwrap();
        assert_eq!(decode(&packet, Crc::Hamming).unwrap().frame, frame);
    }
}

#[test]
fn sync_tolerance() {
    let frame = u_frame();
    let mut packet = encode(&frame, Crc::Hamming).unwrap();
    packet[1] ^= 0x08;

    let mut receiver = Receiver::new(Crc::Hamming);
    let mut result = None;
    for bit in [true, false, true] {
        assert!(receiver.push(bit).is_none());
    }
    for byte in packet {
        for bit in (0..8).rev() {
            if let Some(packet) = receiver.push(byte & (1 << bit) != 0) {
                result = Some(packet);
            }
        }
    }
    assert_eq!(result.unwrap().unwrap().frame, frame);
}
