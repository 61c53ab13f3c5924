//! Packing and unpacking of single bits (stored as `u8` values 0 or 1) into
//! bytes, MSB-first, plus padding to a byte boundary.

use vstd::prelude::*;

verus! {

/// A bit is stored as a `u8` that is 0 or 1.
pub open spec fn is_bit(b: u8) -> bool {
    b == 0 || b == 1
}

/// Every element of the sequence is a bit.
pub open spec fn all_bits(s: Seq<u8>) -> bool {
    forall|i: int| 0 <= i < s.len() ==> is_bit(#[trigger] s[i])
}

/// Bit `i` (MSB-first) of the byte sequence `s`.
pub open spec fn bit_in_bytes(s: Seq<u8>, i: int) -> u8 {
    (s[i / 8] >> ((7 - i % 8) as u8)) & 1
}

/// The unsigned value of a bit sequence read MSB-first.
pub open spec fn bits_val(s: Seq<u8>) -> nat
    decreases s.len(),
{
    if s.len() == 0 {
        0
    } else {
        (bits_val(s.drop_last()) * 2 + s.last()) as nat
    }
}

pub proof fn lemma_bits_val_bound(s: Seq<u8>)
    requires
        all_bits(s),
    ensures
        bits_val(s) < vstd::arithmetic::power2::pow2(s.len()),
    decreases s.len(),
{
    if s.len() == 0 {
        vstd::arithmetic::power2::lemma2_to64();
    } else {
        vstd::arithmetic::power2::lemma_pow2_unfold(s.len());
        assert(all_bits(s.drop_last()));
        lemma_bits_val_bound(s.drop_last());
    }
}

/// The bit sequence of a byte sequence, eight bits per byte, MSB first.
pub open spec fn unpack_bits(s: Seq<u8>) -> Seq<u8> {
    Seq::new((8 * s.len()) as nat, |i: int| bit_in_bytes(s, i))
}

/// The byte sequence that packs a bit sequence, eight bits per byte, MSB
/// first; a trailing group of fewer than eight bits keeps just its value.
pub open spec fn pack_bytes(bits: Seq<u8>) -> Seq<u8> {
    Seq::new(
        ((bits.len() + 7) / 8) as nat,
        |k: int| bits_val(
            bits.subrange(
                8 * k,
                if 8 * k + 8 <= bits.len() {
                    8 * k + 8
                } else {
                    bits.len() as int
                },
            ),
        ) as u8,
    )
}

/// `bits` followed by copies of `b` up to the next multiple of eight.
pub open spec fn pad_to_byte(bits: Seq<u8>, b: u8) -> Seq<u8> {
    bits + Seq::new(((8 - bits.len() % 8) % 8) as nat, |i: int| b)
}

/// Unpack a byte slice into its bits, eight per byte, MSB first.
pub fn bytes_to_bits(v: &[u8]) -> (r: Vec<u8>)
    ensures
        r@.len() == 8 * v@.len(),
        forall|i: int| 0 <= i < r@.len() ==> r@[i] == bit_in_bytes(v@, i),
        all_bits(r@),
        r@ == unpack_bits(v@),
{
    let mut bits: Vec<u8> = Vec::new();
    let mut i: usize = 0;
    while i < v.len()
        invariant
            i <= v@.len(),
            bits@.len() == 8 * i,
            forall|k: int| 0 <= k < bits@.len() ==> bits@[k] == bit_in_bytes(v@, k),
            forall|k: int| 0 <= k < bits@.len() ==> is_bit(#[trigger] bits@[k]),
        decreases v@.len() - i,
    {
        let byte: u8 = v[i];
        let mut pos: usize = 0;
        while pos < 8
            invariant
                pos <= 8,
                i < v@.len(),
                byte == v@[i as int],
                bits@.len() == 8 * i + pos,
                forall|k: int| 0 <= k < bits@.len() ==> bits@[k] == bit_in_bytes(v@, k),
                forall|k: int| 0 <= k < bits@.len() ==> is_bit(#[trigger] bits@[k]),
            decreases 8 - pos,
        {
            let sh: u8 = (7 - pos) as u8;
            let b: u8 = (byte >> sh) & 1;
            assert((byte >> sh) & 1 == 0 || (byte >> sh) & 1 == 1) by (bit_vector);
            bits.push(b);
            assert((8 * i + pos) / 8 == i as int && (8 * i + pos) % 8 == pos as int) by (nonlinear_arith)
                requires 0 <= pos < 8 && 0 <= i;
            pos = pos + 1;
        }
        i = i + 1;
    }
    proof {
        assert(bits@ =~= unpack_bits(v@));
    }
    bits
}

/// Pack a bit slice into bytes, eight bits per byte, MSB first; a trailing
/// group of fewer than eight bits becomes the byte holding just their value.
pub fn bits_to_bytes(bits: &[u8]) -> (r: Vec<u8>)
    requires
        all_bits(bits@),
    ensures
        r@.len() == (bits@.len() + 7) / 8,
        forall|k: int| 0 <= k < r@.len() ==> r@[k] == bits_val(
            bits@.subrange(8 * k, if 8 * k + 8 <= bits@.len() { 8 * k + 8 } else { bits@.len() as int }),
        ),
        r@ == pack_bytes(bits@),
{
    let mut bytes: Vec<u8> = Vec::new();
    let mut i: usize = 0;
    while i < bits.len()
        invariant
            i <= bits@.len(),
            i % 8 == 0 || i == bits@.len(),
            all_bits(bits@),
            bytes@.len() == (i + 7) / 8,
            forall|k: int| 0 <= k < bytes@.len() ==> bytes@[k] == bits_val(
                bits@.subrange(8 * k, if 8 * k + 8 <= bits@.len() { 8 * k + 8 } else { bits@.len() as int }),
            ),
        decreases bits@.len() - i,
    {
        let chunk_end: usize = if bits.len() - i >= 8 { i + 8 } else { bits.len() };
        let ghost chunk = bits@.subrange(i as int, chunk_end as int);
        let mut acc: u8 = 0;
        let mut j: usize = i;
        while j < chunk_end
            invariant
                i <= j <= chunk_end <= bits@.len(),
                chunk_end <= i + 8,
                all_bits(bits@),
                chunk == bits@.subrange(i as int, chunk_end as int),
                acc == bits_val(chunk.take(j - i)),
            decreases chunk_end - j,
        {
            proof {
                let tl = chunk.take(j - i);
                assert(tl.len() < 8);
                assert(all_bits(tl));
                lemma_bits_val_bound(tl);
                vstd::arithmetic::power2::lemma2_to64();
                if tl.len() < 7 {
                    vstd::arithmetic::power2::lemma_pow2_strictly_increases(tl.len(), 7);
                }
                assert(chunk.take(j + 1 - i).drop_last() =~= tl);
            }
            let b: u8 = bits[j];
            acc = acc * 2 + b;
            j = j + 1;
        }
        proof {
            assert(chunk.take(chunk_end - i) =~= chunk);
        }
        bytes.push(acc);
        proof {
            assert(forall|k: int| 0 <= k < bytes@.len() - 1 ==> bytes@[k] == bytes@.drop_last()[k]);
        }
        i = chunk_end;
        proof {
            if i % 8 != 0 {
                assert(i == bits@.len());
            }
        }
        assert(bytes@.len() == (i + 7) / 8) by (nonlinear_arith)
            requires bytes@.len() * 8 >= i > bytes@.len() * 8 - 8 && bytes@.len() >= 1;
    }
    proof {
        assert(bytes@ =~= pack_bytes(bits@));
    }
    bytes
}

/// Append 0 bits until the length is a multiple of eight.
pub fn pad_zeros(v: &mut Vec<u8>)
    ensures
        final(v)@.len() % 8 == 0,
        final(v)@.len() - old(v)@.len() < 8,
        final(v)@ == old(v)@ + Seq::new((final(v)@.len() - old(v)@.len()) as nat, |i: int| 0u8),
{
    let ghost n0 = v@.len();
    if v.len() % 8 != 0 {
        let missing: usize = 8 - v.len() % 8;
        let mut k: usize = 0;
        while k < missing
            invariant
                k <= missing,
                missing < 8,
                v@.len() == n0 + k,
                v@ == old(v)@ + Seq::new(k as nat, |i: int| 0u8),
                (n0 + missing) % 8 == 0,
            decreases missing - k,
        {
            v.push(0);
            proof {
                assert(v@ =~= old(v)@ + Seq::new((k + 1) as nat, |i: int| 0u8));
            }
            k = k + 1;
        }
    } else {
        proof {
            assert(v@ =~= old(v)@ + Seq::new(0, |i: int| 0u8));
        }
    }
}

/// Append 1 bits until the length is a multiple of eight.
pub fn pad_ones(v: &mut Vec<u8>)
    ensures
        final(v)@.len() % 8 == 0,
        final(v)@.len() - old(v)@.len() < 8,
        final(v)@ == old(v)@ + Seq::new((final(v)@.len() - old(v)@.len()) as nat, |i: int| 1u8),
{
    let ghost n0 = v@.len();
    if v.len() % 8 != 0 {
        let missing: usize = 8 - v.len() % 8;
        let mut k: usize = 0;
        while k < missing
            invariant
                k <= missing,
                missing < 8,
                v@.len() == n0 + k,
                v@ == old(v)@ + Seq::new(k as nat, |i: int| 1u8),
                (n0 + missing) % 8 == 0,
            decreases missing - k,
        {
            v.push(1);
            proof {
                assert(v@ =~= old(v)@ + Seq::new((k + 1) as nat, |i: int| 1u8));
            }
            k = k + 1;
        }
    } else {
        proof {
            assert(v@ =~= old(v)@ + Seq::new(0, |i: int| 1u8));
        }
    }
}

} // verus!
