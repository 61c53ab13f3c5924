//! The persisted coded-file layout: an 8-byte little-endian text-length
//! field, one delimiter byte `0x0A`, then the packed coded bitstream.

use vstd::prelude::*;

verus! {

/// Width of the text-length field in bytes.
pub const LENGTH_FIELD_BYTES: usize = 8;

/// The byte that separates the length field from the coded bitstream.
pub const FRAME_DELIMITER: u8 = 0x0A;

/// The eight little-endian bytes of `v`.
pub open spec fn le_bytes(v: u64) -> Seq<u8> {
    Seq::new(8, |i: int| ((v >> ((8 * i) as u64)) & 0xFF) as u8)
}

/// Build the coded file: length field, delimiter, payload.
pub fn pack_frame(text_len: u64, code: &Vec<u8>) -> (r: Vec<u8>)
    ensures
        r@ == le_bytes(text_len) + seq![FRAME_DELIMITER] + code@,
{
    let mut out: Vec<u8> = Vec::new();
    let mut i: usize = 0;
    while i < 8
        invariant
            i <= 8,
            out@.len() == i,
            forall|k: int| 0 <= k < i ==> out@[k] == le_bytes(text_len)[k],
        decreases 8 - i,
    {
        let sh: u64 = (8 * i) as u64;
        let b: u64 = (text_len >> sh) & 0xFF;
        assert((text_len >> sh) & 0xFF < 256) by (bit_vector);
        out.push(b as u8);
        i = i + 1;
    }
    out.push(FRAME_DELIMITER);
    let mut j: usize = 0;
    while j < code.len()
        invariant
            j <= code@.len(),
            out@.len() == 9 + j,
            forall|k: int| 0 <= k < 8 ==> out@[k] == le_bytes(text_len)[k],
            out@[8] == FRAME_DELIMITER,
            forall|k: int| 0 <= k < j ==> out@[9 + k] == code@[k],
        decreases code@.len() - j,
    {
        out.push(code[j]);
        j = j + 1;
    }
    proof {
        assert(out@ =~= le_bytes(text_len) + seq![FRAME_DELIMITER] + code@);
    }
    out
}

/// Read the coded file back apart: `Some` exactly when the length field and
/// the delimiter are present, with the declared length and the payload.
pub fn parse_frame(bytes: &Vec<u8>) -> (r: Option<(u64, Vec<u8>)>)
    ensures
        r is Some <==> (bytes@.len() >= 9 && bytes@[8] == FRAME_DELIMITER),
        r matches Some(p) ==> le_bytes(p.0) == bytes@.subrange(0, 8) && p.1@ == bytes@.skip(9),
{
    if bytes.len() < 9 {
        return None;
    }
    if bytes[8] != FRAME_DELIMITER {
        return None;
    }
    let b0: u64 = bytes[0] as u64;
    let b1: u64 = bytes[1] as u64;
    let b2: u64 = bytes[2] as u64;
    let b3: u64 = bytes[3] as u64;
    let b4: u64 = bytes[4] as u64;
    let b5: u64 = bytes[5] as u64;
    let b6: u64 = bytes[6] as u64;
    let b7: u64 = bytes[7] as u64;
    let v: u64 = b0 | (b1 << 8) | (b2 << 16) | (b3 << 24) | (b4 << 32) | (b5 << 40) | (b6
        << 48) | (b7 << 56);
    proof {
        assert((v >> 0u64) & 0xFF == b0 && (v >> 8u64) & 0xFF == b1 && (v >> 16u64) & 0xFF == b2
            && (v >> 24u64) & 0xFF == b3 && (v >> 32u64) & 0xFF == b4 && (v >> 40u64) & 0xFF == b5
            && (v >> 48u64) & 0xFF == b6 && (v >> 56u64) & 0xFF == b7) by (bit_vector)
            requires
                v == b0 | (b1 << 8u64) | (b2 << 16u64) | (b3 << 24u64) | (b4 << 32u64) | (b5
                    << 40u64) | (b6 << 48u64) | (b7 << 56u64),
                b0 < 256 && b1 < 256 && b2 < 256 && b3 < 256,
                b4 < 256 && b5 < 256 && b6 < 256 && b7 < 256,
        ;
        assert(le_bytes(v) =~= bytes@.subrange(0, 8));
    }
    let mut payload: Vec<u8> = Vec::new();
    let mut i: usize = 9;
    while i < bytes.len()
        invariant
            9 <= i <= bytes@.len(),
            payload@.len() == i - 9,
            forall|k: int| 0 <= k < payload@.len() ==> payload@[k] == bytes@[9 + k],
        decreases bytes@.len() - i,
    {
        payload.push(bytes[i]);
        i = i + 1;
    }
    proof {
        assert(payload@ =~= bytes@.skip(9));
    }
    Some((v, payload))
}

} // verus!
