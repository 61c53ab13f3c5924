//! A fixed per-channel quantization dictionary: each channel gets `2^bits`
//! evenly spaced levels, centred in their cells.

use vstd::prelude::*;

verus! {

/// The `2^bits` levels of one channel.
pub open spec fn channel_levels(bits: u8) -> Seq<u8> {
    let n = (1u32 << (bits as u32)) as int;
    Seq::new(n as nat, |i: int| ((256int / n) * i + (256int / n) / 2) as u8)
}

/// Per-channel quantization levels.
pub struct ColourDict {
    pub blue_values: Vec<u8>,
    pub green_values: Vec<u8>,
    pub red_values: Vec<u8>,
}

fn levels(bits: u8) -> (r: Vec<u8>)
    requires
        bits <= 30,
    ensures
        r@ == channel_levels(bits),
        r@.len() >= 1,
{
    let n32: u32 = 1u32 << (bits as u32);
    proof {
        let b = bits as u32;
        assert(1u32 << b >= 1) by (bit_vector)
            requires
                b <= 30,
        ;
    }
    let n: usize = n32 as usize;
    let q: usize = 256 / n;
    proof {
        vstd::arithmetic::div_mod::lemma_fundamental_div_mod(256, n as int);
    }
    let mut r: Vec<u8> = Vec::new();
    let mut i: usize = 0;
    while i < n
        invariant
            n >= 1,
            n == (1u32 << (bits as u32)) as int,
            q == 256int / (n as int),
            q * (n as int) <= 256,
            i <= n,
            r@.len() == i,
            forall|k: int| 0 <= k < i ==> r@[k] == channel_levels(bits)[k],
        decreases n - i,
    {
        proof {
            assert(q * i <= q * (n - 1)) by (nonlinear_arith)
                requires
                    0 <= i <= n - 1,
                    q >= 0,
            ;
            assert(q * (n - 1) == q * (n as int) - q) by (nonlinear_arith);
        }
        let val: usize = q * i + q / 2;
        r.push(val as u8);
        i = i + 1;
    }
    proof {
        assert(r@ =~= channel_levels(bits));
    }
    r
}

impl ColourDict {
    /// Evenly spaced levels for each channel: `2^bits` of them, each in the
    /// middle of its cell.
    pub fn new(blue_bits: u8, green_bits: u8, red_bits: u8) -> (r: Self)
        requires
            blue_bits <= 30,
            green_bits <= 30,
            red_bits <= 30,
        ensures
            r.blue_values@ == channel_levels(blue_bits),
            r.green_values@ == channel_levels(green_bits),
            r.red_values@ == channel_levels(red_bits),
            r.blue_values@.len() >= 1,
            r.green_values@.len() >= 1,
            r.red_values@.len() >= 1,
    {
        ColourDict {
            blue_values: levels(blue_bits),
            green_values: levels(green_bits),
            red_values: levels(red_bits),
        }
    }
}

} // verus!
