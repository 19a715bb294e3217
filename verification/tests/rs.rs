use il2p::rs::{decode, encode};

fn codeword(nsym: usize) -> Vec<u8> {
    let data: Vec<_> = (0..239).map(|n| (n * 73 + 19) as u8).collect();
    let mut code = data;
    code.resize(code.len() + nsym, 0);
    let split = code.len() - nsym;
    let (data, parity) = code.split_at_mut(split);
    encode(data, parity);
    code
}

#[test]
fn clean_codeword() {
    for nsym in [2, 4, 6, 8, 16] {
        let mut code = codeword(nsym);
        assert_eq!(decode(&mut code, 239, nsym), Some(0));
    }
}

#[test]
fn corrects_capacity() {
    for nsym in [2, 4, 6, 8, 16] {
        let mut code = codeword(nsym);
        let intact = code.clone();
        for n in 0..nsym / 2 {
            let pos = n * 29 + 3;
            code[pos] ^= 0xa5 ^ n as u8;
        }
        assert_eq!(decode(&mut code, 239, nsym), Some(nsym / 2));
        assert_eq!(code, intact);
    }
}

#[test]
fn excess_err() {
    let mut code = codeword(4);
    let intact = code.clone();
    code[1] ^= 1;
    code[70] ^= 2;
    code[170] ^= 4;
    let result = decode(&mut code, 239, 4);
    assert!(result.is_none() || code != intact);
}

#[test]
fn parity_of_short_message() {
    // data followed by its parity decodes with no corrections, and a single error is fixed
    let data = [0x01u8, 0x02, 0x03, 0x04, 0x05];
    let mut parity = [0u8; 2];
    encode(&data, &mut parity);
    let mut code = data.to_vec();
    code.extend_from_slice(&parity);
    let intact = code.clone();
    assert_eq!(decode(&mut code, 5, 2), Some(0));
    code[2] ^= 0x77;
    assert_eq!(decode(&mut code, 5, 2), Some(1));
    assert_eq!(code, intact);
}

#[test]
fn zero_data_has_zero_parity() {
    let data = [0u8; 20];
    let mut parity = [0xffu8; 16];
    encode(&data, &mut parity);
    assert_eq!(parity, [0u8; 16]);
}

#[test]
fn parity_is_not_the_input() {
    // the parity depends on the data: a one-byte message has nonzero parity
    let data = [0x01u8];
    let mut parity = [0u8; 4];
    encode(&data, &mut parity);
    assert_ne!(parity, [0u8; 4]);
}

#[test]
fn corrects_any_single_symbol() {
    for nsym in [2usize, 4, 6, 8, 16] {
        let data: Vec<u8> = (0..40).map(|n: u32| (n * 29 + 7) as u8).collect();
        let mut parity = vec![0u8; nsym];
        encode(&data, &mut parity);
        let mut intact = data.clone();
        intact.extend(parity);
        for position in 0..intact.len() {
            let mut code = intact.clone();
            code[position] ^= 0xc3;
            assert_eq!(decode(&mut code, data.len(), nsym), Some(1));
            assert_eq!(code, intact);
        }
    }
}

#[test]
fn parity_of_a_sum_is_the_sum_of_parities() {
    let a: Vec<u8> = (0..100).map(|n| (n * 31 + 7) as u8).collect();
    let b: Vec<u8> = (0..100).map(|n| (n * 11 + 200) as u8).collect();
    let sum: Vec<u8> = a.iter().zip(&b).map(|(x, y)| x ^ y).collect();
    for nsym in [2, 4, 6, 8, 16] {
        let mut pa = vec![0u8; nsym];
        let mut pb = vec![0u8; nsym];
        let mut ps = vec![0u8; nsym];
        encode(&a, &mut pa);
        encode(&b, &mut pb);
        encode(&sum, &mut ps);
        let expected: Vec<u8> = pa.iter().zip(&pb).map(|(x, y)| x ^ y).collect();
        assert_eq!(ps, expected);
    }
}

#[test]
fn every_error_count_within_capacity_is_repaired_exactly() {
    for nsym in [2, 4, 6, 8, 16] {
        let intact = codeword(nsym);
        for errors in 0..=nsym / 2 {
            let mut code = intact.clone();
            for n in 0..errors {
                code[n * 17 + 5] ^= 0x3c ^ n as u8;
            }
            assert_eq!(decode(&mut code, 239, nsym), Some(errors));
            assert_eq!(code, intact);
        }
    }
}

#[test]
fn reported_count_is_the_number_of_symbols_changed() {
    let intact = codeword(4);
    let mut code = intact.clone();
    code[1] ^= 1;
    code[70] ^= 2;
    code[170] ^= 4;
    let before = code.clone();
    if let Some(n) = decode(&mut code, 239, 4) {
        let changed = before.iter().zip(&code).filter(|(a, b)| a != b).count();
        assert_eq!(changed, n);
    }
}
