use arithmetic_code::correction::{check, count_deformed_bits, decode, encode, verify, Bits,
    CodingError};

fn bits_from(slice: &[bool]) -> Bits {
    let mut b = Bits::new();
    for &x in slice {
        b.push(x);
    }
    b
}

fn bits_to_vec(b: &Bits) -> Vec<bool> {
    let mut v = Vec::new();
    for i in 0..b.len() {
        v.push(b.get_bit(i));
    }
    v
}

#[test]
fn hamming_encode_word() {
    let data = bits_from(&[true, false, true, true]);
    let code = encode(&data).expect("four bits encode");
    assert_eq!(
        bits_to_vec(&code),
        vec![true, true, true, true, true, true, true, true]
    );
}

#[test]
fn hamming_wrong_length_rejected() {
    let data = bits_from(&[true, false, true]);
    assert!(matches!(encode(&data), Err(CodingError::InvalidNumberOfBits)));
    assert!(matches!(check(&data), Err(CodingError::InvalidNumberOfBits)));
}

#[test]
fn hamming_clean_round_trip() {
    for word in 0..16u8 {
        let data: Vec<bool> = (0..4).map(|i| (word >> i) & 1 == 1).collect();
        let data = bits_from(&data);
        let code = encode(&data).expect("encode");
        let syndrome = check(&code).expect("check");
        assert_eq!(bits_to_vec(&syndrome), vec![false; 4]);
        let (recovered, two_errors) = decode(&code, &syndrome).expect("decode");
        assert!(!two_errors);
        assert!(verify(&recovered, &data));
    }
}

#[test]
fn hamming_corrects_single_errors() {
    for word in 0..16u8 {
        let data: Vec<bool> = (0..4).map(|i| (word >> i) & 1 == 1).collect();
        let data = bits_from(&data);
        let code = encode(&data).expect("encode");
        for flip in 0..8usize {
            let mut damaged = Vec::new();
            for i in 0..8 {
                let bit = code.get_bit(i);
                damaged.push(if i == flip { !bit } else { bit });
            }
            let damaged = bits_from(&damaged);
            assert_eq!(count_deformed_bits(&code, &damaged), Ok(1));
            let syndrome = check(&damaged).expect("check");
            let (recovered, _) = decode(&damaged, &syndrome).expect("decode");
            assert!(verify(&recovered, &data), "flip {} of word {}", flip, word);
        }
    }
}

#[test]
fn deformed_bits_need_equal_lengths() {
    let a = bits_from(&[true, false]);
    let b = bits_from(&[true]);
    assert!(matches!(
        count_deformed_bits(&a, &b),
        Err(CodingError::InvalidNumberOfBits)
    ));
    let c = bits_from(&[true, true]);
    assert_eq!(count_deformed_bits(&a, &c), Ok(1));
}
