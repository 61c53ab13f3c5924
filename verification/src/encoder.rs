//! The arithmetic encoder: drives the interval engine over the input bytes,
//! one adaptive model update per symbol, and finalizes the stream with the
//! 32-bit binary expansion of the interval midpoint, padded with 0 bits to a
//! byte boundary.

use vstd::prelude::*;
use crate::bits::{all_bits, bits_to_bytes, pack_bytes, pad_to_byte, pad_zeros};
use crate::interval::{Endpoints, ScaleState, scale_all, MAX_HIGH, QUARTER};
use crate::model::{FrequencyModel, sum_prefix};

verus! {

/// Largest accepted input length: the total occurrence count (256 initial
/// counts plus one per input byte) must stay within a quarter of the interval
/// domain, or subdivision could produce an empty subinterval.
pub const MAX_TEXT_LEN: usize = 0x3FFF_FF00;

/// The encoder's whole state: the model's occurrence counts, the working
/// interval, the pending-bit counter, and the bits emitted so far.
pub struct EncState {
    pub occ: Seq<u64>,
    pub left: int,
    pub right: int,
    pub pending: int,
    pub bits: Seq<u8>,
}

/// The state before the first symbol: all counts 1, the full domain, nothing
/// pending, nothing emitted.
pub open spec fn enc_init() -> EncState {
    EncState {
        occ: Seq::new(256, |i: int| 1u64),
        left: 0,
        right: MAX_HIGH as int,
        pending: 0,
        bits: Seq::empty(),
    }
}

/// One symbol: subdivide the interval by the symbol's cumulative range,
/// renormalize (emitting bits), then count the symbol in the model.
pub open spec fn enc_step(s: EncState, sym: u8) -> EncState {
    let t = sum_prefix(s.occ, 256);
    let w = s.right - s.left;
    let lo = s.left + (w * sum_prefix(s.occ, sym as int)) / t;
    let hi = s.left + (w * sum_prefix(s.occ, sym as int + 1)) / t;
    let scaled = scale_all(ScaleState { left: lo, right: hi, pending: s.pending, bits: s.bits });
    EncState {
        occ: s.occ.update(sym as int, (s.occ[sym as int] + 1) as u64),
        left: scaled.left,
        right: scaled.right,
        pending: scaled.pending,
        bits: scaled.bits,
    }
}

/// The state after encoding every symbol of `input` in order.
pub open spec fn enc_syms(s: EncState, input: Seq<u8>) -> EncState
    decreases input.len(),
{
    if input.len() == 0 {
        s
    } else {
        enc_step(enc_syms(s, input.drop_last()), input.last())
    }
}

/// The 32-bit binary expansion of `v`, MSB first.
pub open spec fn tag_bits(v: u64) -> Seq<u8> {
    Seq::new(32, |i: int| ((v >> ((31 - i) as u64)) & 1) as u8)
}

/// The full bit stream for `input`: the bits emitted while coding the
/// symbols, then the tag — the midpoint of the final interval.
pub open spec fn enc_bits(input: Seq<u8>) -> Seq<u8> {
    let s = enc_syms(enc_init(), input);
    s.bits + tag_bits((s.left + (s.right - s.left) / 2) as u64)
}

/// The coded byte stream for `input`: the bit stream padded with 0 bits to a
/// byte boundary and packed MSB first.
pub open spec fn encode_spec(input: Seq<u8>) -> Seq<u8> {
    pack_bytes(pad_to_byte(enc_bits(input), 0))
}

/// The 32-bit binary expansion of `n`, MSB first, one `u8` per bit.
pub fn int_to_bin(n: u64) -> (r: Vec<u8>)
    ensures
        r@ == tag_bits(n),
        all_bits(r@),
{
    let mut bits: Vec<u8> = Vec::new();
    let mut i: usize = 0;
    while i < 32
        invariant
            i <= 32,
            bits@.len() == i,
            forall|k: int| 0 <= k < i ==> bits@[k] == tag_bits(n)[k],
        decreases 32 - i,
    {
        let sh: u64 = (31 - i) as u64;
        let b: u64 = (n >> sh) & 1;
        assert((n >> sh) & 1 < 2) by (bit_vector);
        bits.push(b as u8);
        i = i + 1;
    }
    proof {
        assert(bits@ =~= tag_bits(n));
        assert(forall|k: int| 0 <= k < 32 ==> crate::bits::is_bit(#[trigger] tag_bits(n)[k]))
            by {
            assert forall|k: int| 0 <= k < 32 implies crate::bits::is_bit(
                #[trigger] tag_bits(n)[k],
            ) by {
                let sh = (31 - k) as u64;
                assert((n >> sh) & 1 < 2) by (bit_vector);
            }
        }
    }
    bits
}

/// Encode `input` with the adaptive model, returning the packed coded bytes.
/// The same input always yields the same coded bytes: the result is a pure
/// function of the input sequence. Under the input-length bound the working
/// interval provably never collapses or leaves the domain, so the coder has
/// no internal-consistency failure path.
pub fn encode(input: &Vec<u8>) -> (r: Vec<u8>)
    requires
        input@.len() <= MAX_TEXT_LEN,
    ensures
        r@ == encode_spec(input@),
{
    let mut model = FrequencyModel::init();
    let mut iv = Endpoints::full();
    let mut pending: u64 = 0;
    let mut bits: Vec<u8> = Vec::new();
    let mut i: usize = 0;
    proof {
        assert(input@.take(0) =~= Seq::<u8>::empty());
    }
    while i < input.len()
        invariant
            input@.len() <= MAX_TEXT_LEN,
            i <= input@.len(),
            model.wf(),
            model.total_count() == 256 + i,
            iv.wf(),
            iv.width() > QUARTER,
            pending <= 34 * (i + 1),
            all_bits(bits@),
            (EncState {
                occ: model.counts(),
                left: iv.left as int,
                right: iv.right as int,
                pending: pending as int,
                bits: bits@,
            }) == enc_syms(enc_init(), input@.take(i as int)),
        decreases input@.len() - i,
    {
        let ghost pre = EncState {
            occ: model.counts(),
            left: iv.left as int,
            right: iv.right as int,
            pending: pending as int,
            bits: bits@,
        };
        let sym: u8 = input[i];
        let (low, high) = model.lookup(sym);
        let total: u64 = model.total();
        iv.subdivide(low, high, total);
        iv.renormalize(&mut pending, &mut bits);
        model.update(sym);
        proof {
            assert(input@.take(i + 1).drop_last() =~= input@.take(i as int));
            assert(input@.take(i + 1).last() == input@[i as int]);
            assert((EncState {
                occ: model.counts(),
                left: iv.left as int,
                right: iv.right as int,
                pending: pending as int,
                bits: bits@,
            }) == enc_step(pre, input@[i as int]));
        }
        i = i + 1;
    }
    proof {
        assert(input@.take(input@.len() as int) =~= input@);
    }
    let tag: u64 = iv.left + (iv.right - iv.left) / 2;
    let mut tagv = int_to_bin(tag);
    bits.append(&mut tagv);
    proof {
        assert(bits@ == enc_bits(input@));
    }
    pad_zeros(&mut bits);
    proof {
        assert(bits@ =~= pad_to_byte(enc_bits(input@), 0));
    }
    bits_to_bytes(bits.as_slice())
}

} // verus!
