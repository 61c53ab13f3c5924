//! Whole-message compression: LZW codes written out with one of the four
//! universal bit codes, padded to a byte boundary and packed into bytes.

use vstd::prelude::*;
use crate::bits::{
    all_bits, bits_to_bytes, pack_bytes, pad_ones, pad_to_byte, pad_zeros, unpack_bits,
};
use crate::elias_code::{
    delta_decode, delta_decode_bits, delta_encode, delta_seq, gamma_decode, gamma_decode_bits,
    gamma_encode, gamma_seq, omega_decode, omega_decode_bits, omega_encode, omega_seq,
};
use crate::fibonacci_code::{fib_decode, fib_decode_bits, fib_encode, fib_seq};
use crate::lzw;
use vstd::string::StringSliceAdditionalSpecFns;

verus! {

/// Which universal code writes the LZW codes out.
#[allow(non_camel_case_types)]
pub enum CodeType {
    GAMMA,
    DELTA,
    OMEGA,
    FIB,
}

/// Largest accepted message length: every LZW code then fits the bound each
/// bit code accepts.
pub const MAX_MESSAGE_LEN: usize = usize::MAX / 2 - 258;

/// The compressed bytes of `msg`: its LZW codes under the chosen bit code,
/// gamma and delta padded with 0 bits, omega and Fibonacci with 1 bits.
pub open spec fn compress_spec(msg: Seq<u8>, code: CodeType) -> Seq<u8> {
    let codes = lzw::lzw_encode_spec(msg);
    match code {
        CodeType::GAMMA => pack_bytes(pad_to_byte(gamma_seq(codes), 0)),
        CodeType::DELTA => pack_bytes(pad_to_byte(delta_seq(codes), 0)),
        CodeType::OMEGA => pack_bytes(pad_to_byte(omega_seq(codes), 1)),
        CodeType::FIB => pack_bytes(pad_to_byte(fib_seq(codes), 1)),
    }
}

/// Compress a byte message.
pub fn compress_bytes(message_bytes: &[u8], code: &CodeType) -> (r: Vec<u8>)
    requires
        message_bytes@.len() <= MAX_MESSAGE_LEN,
    ensures
        r@ == compress_spec(message_bytes@, *code),
{
    let lzw_code = lzw::encode(message_bytes);
    match code {
        CodeType::GAMMA => {
            let mut code_bits = gamma_encode(lzw_code.as_slice());
            pad_zeros(&mut code_bits);
            proof {
                assert(code_bits@ =~= pad_to_byte(gamma_seq(lzw_code@), 0));
            }
            bits_to_bytes(code_bits.as_slice())
        },
        CodeType::DELTA => {
            let mut code_bits = delta_encode(lzw_code.as_slice());
            pad_zeros(&mut code_bits);
            proof {
                assert(code_bits@ =~= pad_to_byte(delta_seq(lzw_code@), 0));
            }
            bits_to_bytes(code_bits.as_slice())
        },
        CodeType::OMEGA => {
            let mut code_bits = omega_encode(lzw_code.as_slice());
            pad_ones(&mut code_bits);
            proof {
                assert(code_bits@ =~= pad_to_byte(omega_seq(lzw_code@), 1));
            }
            bits_to_bytes(code_bits.as_slice())
        },
        CodeType::FIB => {
            let mut code_bits = fib_encode(lzw_code.as_slice());
            pad_ones(&mut code_bits);
            proof {
                assert(code_bits@ =~= pad_to_byte(fib_seq(lzw_code@), 1));
            }
            bits_to_bytes(code_bits.as_slice())
        },
    }
}

/// Compress a text message: its UTF-8 bytes are compressed.
pub fn compress_str(message: &str, code: &CodeType) -> (r: Vec<u8>)
    requires
        message.spec_bytes().len() <= MAX_MESSAGE_LEN,
    ensures
        r@ == compress_spec(message.spec_bytes(), *code),
{
    compress_bytes(message.as_bytes(), code)
}

/// The LZW codes recovered from `coded` under the chosen bit code.
pub open spec fn recovered_codes(coded: Seq<u8>, code: CodeType) -> Seq<usize> {
    match code {
        CodeType::GAMMA => gamma_decode_bits(unpack_bits(coded)),
        CodeType::DELTA => delta_decode_bits(unpack_bits(coded)),
        CodeType::OMEGA => omega_decode_bits(unpack_bits(coded)),
        CodeType::FIB => fib_decode_bits(unpack_bits(coded)),
    }
}

/// Whether a code sequence only references LZW dictionary entries that exist
/// by the time each code is read.
pub open spec fn lzw_codes_ok(codes: Seq<usize>) -> bool {
    forall|i: int| 0 <= i < codes.len() ==> #[trigger] codes[i] < 256 + i
}

/// Decompress `coded`: read the LZW codes back under the chosen bit code and
/// expand them through the reconstructed dictionary.
pub fn decompress_bytes(coded: &[u8], code: &CodeType) -> (r: Vec<u8>)
    requires
        lzw_codes_ok(recovered_codes(coded@, *code)),
    ensures
        r@ == lzw::lzw_decode_spec(recovered_codes(coded@, *code)),
{
    let lzw_code = match code {
        CodeType::GAMMA => gamma_decode(coded),
        CodeType::DELTA => delta_decode(coded),
        CodeType::OMEGA => omega_decode(coded),
        CodeType::FIB => fib_decode(coded),
    };
    lzw::decode(lzw_code.as_slice())
}

} // verus!
