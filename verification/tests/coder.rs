use arithmetic_code::decoder::{decode, DecodeError};
use arithmetic_code::encoder::encode;
use arithmetic_code::frame::{pack_frame, parse_frame};
use arithmetic_code::interval::{Endpoints, HALF, MAX_HIGH, QUARTER};

fn round_trip(input: &Vec<u8>) {
    let coded = encode(input);
    let decoded = decode(&coded, input.len() as u64).expect("stream should decode");
    assert_eq!(&decoded, input);
}

#[test]
fn round_trip_empty() {
    round_trip(&vec![]);
}

#[test]
fn round_trip_single_byte() {
    for b in [0u8, 1, 127, 255] {
        round_trip(&vec![b]);
    }
}

#[test]
fn round_trip_all_byte_values() {
    let input: Vec<u8> = (0..=255u8).collect();
    round_trip(&input);
}

#[test]
fn round_trip_text() {
    round_trip(&b"hello, arithmetic coding world".to_vec());
}

#[test]
fn round_trip_skewed_input() {
    // 10,000 bytes from a two-symbol alphabet, roughly 9:1
    let mut input = Vec::new();
    let mut state: u32 = 12345;
    for _ in 0..10000 {
        state = state.wrapping_mul(1103515245).wrapping_add(12345);
        let r = (state >> 16) % 10;
        input.push(if r == 0 { b'b' } else { b'a' });
    }
    round_trip(&input);
}

#[test]
fn encoding_is_deterministic() {
    let input = b"abracadabra abracadabra".to_vec();
    let a = encode(&input);
    let b = encode(&input);
    assert_eq!(a, b);
}

#[test]
fn skewed_input_compresses() {
    // entropy of a 0.9/0.1 source is about 0.469 bits per symbol, so 10,000
    // symbols should code to well under 80,000 bits, near 4,700
    let mut input = Vec::new();
    let mut state: u32 = 999;
    for _ in 0..10000 {
        state = state.wrapping_mul(1103515245).wrapping_add(12345);
        let r = (state >> 16) % 10;
        input.push(if r == 0 { b'b' } else { b'a' });
    }
    let coded = encode(&input);
    let coded_bits = coded.len() * 8;
    assert!(coded_bits < 8 * input.len());
    // near the roughly 4,700-bit entropy bound, plus the cost of learning
    // the distribution on the way
    assert!(coded_bits < 7000, "coded to {} bits", coded_bits);
    round_trip(&input);
}

#[test]
fn uniform_input_does_not_expand() {
    // uniformly distributed bytes cannot be compressed, but must not grow by
    // more than a small constant
    let mut input = Vec::new();
    for i in 0..9984usize {
        input.push((i % 256) as u8);
    }
    let coded = encode(&input);
    // the only growth is the tag and the model's learning cost, about one
    // percent here
    assert!(coded.len() <= input.len() + 128, "coded to {} bytes", coded.len());
    round_trip(&input);
}

#[test]
fn empty_input_encodes_to_tag_only() {
    // no symbols: the stream is just the 32-bit midpoint tag of [0, 2^32)
    let coded = encode(&vec![]);
    assert_eq!(coded.len(), 4);
    assert_eq!(coded, vec![0x80, 0x00, 0x00, 0x00]);
    assert_eq!(decode(&coded, 0), Ok(vec![]));
}

#[test]
fn renormalization_lower_half() {
    // an interval inside [0, W/2) doubles, emitting a 0 each time
    let mut iv = Endpoints { left: 0, right: QUARTER };
    let mut pending: u64 = 0;
    let mut bits: Vec<u8> = Vec::new();
    iv.renormalize(&mut pending, &mut bits);
    assert_eq!(bits, vec![0, 0]);
    assert_eq!(iv, Endpoints { left: 0, right: MAX_HIGH });
    assert_eq!(pending, 0);
}

#[test]
fn renormalization_upper_half() {
    // an interval inside [W/2, W) rescales from the top, emitting 1s
    let mut iv = Endpoints { left: 3 * QUARTER, right: MAX_HIGH };
    let mut pending: u64 = 0;
    let mut bits: Vec<u8> = Vec::new();
    iv.renormalize(&mut pending, &mut bits);
    assert_eq!(bits, vec![1, 1]);
    assert_eq!(iv, Endpoints { left: 0, right: MAX_HIGH });
    assert_eq!(pending, 0);
}

#[test]
fn renormalization_middle_defers_bits() {
    // the interval [H-4, H+4] straddles the midpoint: each straddle doubles
    // its width without emitting anything, here 29 times in a row
    let mut iv = Endpoints { left: HALF - 4, right: HALF + 4 };
    let mut pending: u64 = 0;
    let mut bits: Vec<u8> = Vec::new();
    iv.renormalize(&mut pending, &mut bits);
    assert_eq!(pending, 29);
    assert!(bits.is_empty());
    assert_eq!(iv, Endpoints { left: 0, right: MAX_HIGH });
}

#[test]
fn renormalization_middle_resolved_by_lower() {
    // three pending middle straddles, then a lower-half rescale: the
    // deciding 0 comes out followed by three opposite-polarity 1s
    let mut iv = Endpoints { left: 0, right: QUARTER };
    let mut pending: u64 = 3;
    let mut bits: Vec<u8> = Vec::new();
    iv.renormalize(&mut pending, &mut bits);
    assert_eq!(bits, vec![0, 1, 1, 1, 0]);
    assert_eq!(pending, 0);
    assert_eq!(iv, Endpoints { left: 0, right: MAX_HIGH });
}

#[test]
fn concrete_scenario_abababa() {
    // the adaptive model starting from all-ones counts gives a fixed,
    // reproducible coded stream for b"abababa"
    let input = b"abababa".to_vec();
    let coded = encode(&input);
    assert_eq!(coded, encode(&input));
    let decoded = decode(&coded, 7).expect("abababa should decode");
    assert_eq!(decoded, input);
    assert_eq!(coded, vec![97, 98, 254, 7, 27, 91, 80, 155, 12, 0]);
}

#[test]
fn incomplete_stream_is_reported() {
    assert_eq!(decode(&vec![], 1), Err(DecodeError::IncompleteStream));
    // cutting a valid stream short starves the decoder
    let input = b"aaaaaaaaaaaaaaaaaaaaaaaaaaaaaaaa".to_vec();
    let coded = encode(&input);
    let truncated: Vec<u8> = coded[..2].to_vec();
    assert_eq!(
        decode(&truncated, input.len() as u64),
        Err(DecodeError::IncompleteStream)
    );
}

#[test]
fn decode_stops_at_declared_length() {
    // the declared text length, not the stream, decides how many symbols
    // come out
    let input = b"abcdef".to_vec();
    let coded = encode(&input);
    let prefix = decode(&coded, 3).expect("prefix should decode");
    assert_eq!(prefix, b"abc".to_vec());
}

#[test]
fn empty_frame_round_trip() {
    let framed = pack_frame(0, &encode(&vec![]));
    let (n, body) = parse_frame(&framed).expect("frame should parse");
    assert_eq!(n, 0);
    assert_eq!(decode(&body, n), Ok(vec![]));
}

#[test]
fn frame_round_trip() {
    let payload = b"coded payload".to_vec();
    let framed = pack_frame(1234567, &payload);
    assert_eq!(framed[8], 0x0A);
    let (n, body) = parse_frame(&framed).expect("frame should parse");
    assert_eq!(n, 1234567);
    assert_eq!(body, payload);
}

#[test]
fn frame_rejects_bad_delimiter() {
    let mut framed = pack_frame(7, &vec![1, 2, 3]);
    framed[8] = 0x0B;
    assert!(parse_frame(&framed).is_none());
    assert!(parse_frame(&vec![1, 2, 3]).is_none());
}

#[test]
fn framed_file_round_trip() {
    let input = b"framed arithmetic coding".to_vec();
    let coded = encode(&input);
    let file = pack_frame(input.len() as u64, &coded);
    let (n, body) = parse_frame(&file).expect("frame should parse");
    let decoded = decode(&body, n).expect("stream should decode");
    assert_eq!(decoded, input);
}
