use il2p::scramble::{descramble, scramble};

#[test]
fn rt() {
    let input = [
        0x00, 0xff, 0x55, 0xaa, 0xf1, 0x5e, 0x48, 0x12, 0x34, 0x56, 0x78,
    ];
    let mut scrambled = [0; 11];
    let mut output = [0; 11];
    scramble(&input, &mut scrambled);
    descramble(&scrambled, &mut output);
    assert_eq!(output, input);
}

#[test]
fn scramble_changes_data() {
    let input = [0u8; 4];
    let mut scrambled = [0u8; 4];
    scramble(&input, &mut scrambled);
    assert_ne!(scrambled, input);
}

#[test]
fn scramble_leaves_rest_of_output() {
    let input = [0x12u8, 0x34];
    let mut scrambled = [0xeeu8; 4];
    scramble(&input, &mut scrambled);
    assert_eq!(&scrambled[2..], &[0xee, 0xee]);
    let mut output = [0xddu8; 3];
    descramble(&scrambled[..2], &mut output);
    assert_eq!(output, [0x12, 0x34, 0xdd]);
}

#[test]
fn scramble_empty() {
    let input: [u8; 0] = [];
    let mut output = [0x11u8; 1];
    scramble(&input, &mut output);
    assert_eq!(output, [0x11]);
}

#[test]
fn scramble_round_trip_long() {
    let input: Vec<u8> = (0..239).map(|n| (n * 31 + 7) as u8).collect();
    let mut scrambled = vec![0u8; input.len()];
    let mut output = vec![0u8; input.len()];
    scramble(&input, &mut scrambled);
    descramble(&scrambled, &mut output);
    assert_eq!(output, input);
}

#[test]
fn descrambling_more_bytes_keeps_the_earlier_output() {
    let input = [0x00u8, 0xff, 0x55, 0xaa, 0xf1, 0x5e, 0x48, 0x12, 0x34, 0x56, 0x78];
    let mut whole = [0u8; 11];
    descramble(&input, &mut whole);
    for n in 0..input.len() {
        let mut part = vec![0u8; n];
        descramble(&input[..n], &mut part);
        assert_eq!(&part[..], &whole[..n]);
    }
}

#[test]
fn scrambling_undoes_descrambling() {
    let input = [0x00u8, 0xff, 0x55, 0xaa, 0xf1, 0x5e, 0x48, 0x12, 0x34, 0x56, 0x78];
    let mut plain = [0u8; 11];
    let mut back = [0u8; 11];
    descramble(&input, &mut plain);
    scramble(&plain, &mut back);
    assert_eq!(back, input);
}
