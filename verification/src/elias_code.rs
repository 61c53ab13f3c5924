//! Elias universal codes — gamma, delta, and omega — over unsigned values.
//! Every value is offset by one before coding so that 0 is codable.

use vstd::prelude::*;
use crate::bits::{all_bits, bits_val, bytes_to_bits, is_bit, lemma_bits_val_bound, unpack_bits};

verus! {

/// Number of binary digits of `n` (1 for 0 and 1).
pub open spec fn bit_len(n: usize) -> nat
    decreases n,
{
    if n <= 1 {
        1
    } else {
        (1 + bit_len((n / 2) as usize)) as nat
    }
}

/// `bit_len` never exceeds the machine word width.
pub proof fn lemma_bit_len_le_64(n: usize)
    ensures
        bit_len(n) <= 64,
{
    lemma_bit_len_pow2(n);
}

proof fn lemma_bit_len_pow2(n: usize)
    ensures
        n < vstd::arithmetic::power2::pow2(bit_len(n)),
        n >= 1 ==> vstd::arithmetic::power2::pow2((bit_len(n) - 1) as nat) <= n,
        bit_len(n) <= 64,
    decreases n,
{
    vstd::arithmetic::power2::lemma2_to64();
    vstd::arithmetic::power2::lemma2_to64_rest();
    if n <= 1 {
    } else {
        lemma_bit_len_pow2((n / 2) as usize);
        vstd::arithmetic::power2::lemma_pow2_unfold(bit_len(n));
        vstd::arithmetic::power2::lemma_pow2_unfold((bit_len(n) - 1) as nat);
        if bit_len(n) > 64 {
            if bit_len(n) - 1 > 64 {
                vstd::arithmetic::power2::lemma_pow2_strictly_increases(
                    64,
                    (bit_len(n) - 1) as nat,
                );
            }
            assert(false);
        }
    }
}

/// `bit_len(n)` is at most `n` for positive `n`.
pub proof fn lemma_bit_len_le_self(n: usize)
    requires
        n >= 1,
    ensures
        bit_len(n) <= n,
    decreases n,
{
    if n > 1 {
        lemma_bit_len_le_self((n / 2) as usize);
    }
}

/// The number of binary digits of `n`.
pub fn bit_length(n: usize) -> (r: usize)
    ensures
        r == bit_len(n),
        1 <= r <= 64,
{
    proof {
        lemma_bit_len_le_64(n);
    }
    let mut m: usize = n;
    let mut r: usize = 1;
    while m > 1
        invariant
            r >= 1,
            bit_len(n) == r - 1 + bit_len(m),
            bit_len(m) <= 64,
            bit_len(n) <= 64,
        decreases m,
    {
        m = m / 2;
        r = r + 1;
        proof {
            lemma_bit_len_le_64(m);
        }
    }
    r
}

/// The binary digits of `n`, least significant first.
pub open spec fn bin_of_rev(n: usize) -> Seq<u8> {
    Seq::new(bit_len(n), |i: int| (((n as u64) >> (i as u64)) & 1) as u8)
}

/// The binary digits of `n`, most significant first, no leading zeros.
pub open spec fn bin_of(n: usize) -> Seq<u8> {
    Seq::new(bit_len(n), |i: int| (((n as u64) >> ((bit_len(n) - 1 - i) as u64)) & 1) as u8)
}

/// The binary digits of `n` most significant first, with the leading digit
/// removed.
pub open spec fn bin_no_leading(n: usize) -> Seq<u8> {
    Seq::new(
        (bit_len(n) - 1) as nat,
        |i: int| (((n as u64) >> ((bit_len(n) - 2 - i) as u64)) & 1) as u8,
    )
}

/// The binary digits of `n`, least significant first.
pub fn convert_to_bin_rev(n: usize) -> (r: Vec<u8>)
    ensures
        r@ == bin_of_rev(n),
        all_bits(r@),
{
    let no_bits = bit_length(n);
    let mut r: Vec<u8> = Vec::new();
    let mut i: usize = 0;
    while i < no_bits
        invariant
            i <= no_bits,
            no_bits == bit_len(n),
            no_bits <= 64,
            r@.len() == i,
            forall|k: int| 0 <= k < i ==> r@[k] == bin_of_rev(n)[k] && is_bit(#[trigger] r@[k]),
        decreases no_bits - i,
    {
        let b: u64 = ((n as u64) >> (i as u64)) & 1;
        proof {
            let nu = n as u64;
            let iu = i as u64;
            assert((nu >> iu) & 1 == 0 || (nu >> iu) & 1 == 1) by (bit_vector);
        }
        r.push(b as u8);
        i = i + 1;
    }
    proof {
        assert(r@ =~= bin_of_rev(n));
    }
    r
}

/// The binary digits of `n`, most significant first, no leading zeros.
pub fn convert_to_bin(n: usize) -> (r: Vec<u8>)
    ensures
        r@ == bin_of(n),
        all_bits(r@),
{
    let no_bits = bit_length(n);
    let mut r: Vec<u8> = Vec::new();
    let mut i: usize = 0;
    while i < no_bits
        invariant
            i <= no_bits,
            no_bits == bit_len(n),
            no_bits <= 64,
            r@.len() == i,
            forall|k: int| 0 <= k < i ==> r@[k] == bin_of(n)[k] && is_bit(#[trigger] r@[k]),
        decreases no_bits - i,
    {
        let sh: usize = no_bits - 1 - i;
        let b: u64 = ((n as u64) >> (sh as u64)) & 1;
        proof {
            let nu = n as u64;
            let shu = sh as u64;
            assert((nu >> shu) & 1 == 0 || (nu >> shu) & 1 == 1) by (bit_vector);
        }
        r.push(b as u8);
        i = i + 1;
    }
    proof {
        assert(r@ =~= bin_of(n));
    }
    r
}

/// The binary digits of `n` most significant first, with the leading digit
/// removed.
pub fn convert_to_bin_no_leading(n: usize) -> (r: Vec<u8>)
    ensures
        r@ == bin_no_leading(n),
        all_bits(r@),
{
    let no_bits = bit_length(n);
    let mut r: Vec<u8> = Vec::new();
    let mut i: usize = 0;
    while i < no_bits - 1
        invariant
            i <= no_bits - 1,
            no_bits == bit_len(n),
            no_bits <= 64,
            r@.len() == i,
            forall|k: int| 0 <= k < i ==> r@[k] == bin_no_leading(n)[k] && is_bit(
                #[trigger] r@[k],
            ),
        decreases no_bits - 1 - i,
    {
        let sh: usize = no_bits - 2 - i;
        let b: u64 = ((n as u64) >> (sh as u64)) & 1;
        proof {
            let nu = n as u64;
            let shu = sh as u64;
            assert((nu >> shu) & 1 == 0 || (nu >> shu) & 1 == 1) by (bit_vector);
        }
        r.push(b as u8);
        i = i + 1;
    }
    proof {
        assert(r@ =~= bin_no_leading(n));
    }
    r
}

/// `k` zero bits.
pub open spec fn zeros(k: int) -> Seq<u8> {
    Seq::new(k as nat, |i: int| 0u8)
}

/// The gamma code of `v`: the binary digits of `v + 1`, preceded by one zero
/// per digit after the first.
pub open spec fn gamma_code(v: usize) -> Seq<u8> {
    zeros(bit_len((v + 1) as usize) - 1) + bin_of((v + 1) as usize)
}

/// The concatenated gamma codes of a sequence of values.
pub open spec fn gamma_seq(vs: Seq<usize>) -> Seq<u8>
    decreases vs.len(),
{
    if vs.len() == 0 {
        Seq::empty()
    } else {
        gamma_seq(vs.drop_last()) + gamma_code(vs.last())
    }
}

/// The least index at or after `k` holding a 1 bit; the length if none.
pub open spec fn first_one_from(s: Seq<u8>, k: int) -> int
    decreases s.len() - k,
{
    if k < 0 || k >= s.len() {
        s.len() as int
    } else if s[k] == 1 {
        k
    } else {
        first_one_from(s, k + 1)
    }
}

/// The index of the first 1 bit, or the length if there is none.
pub open spec fn first_one(s: Seq<u8>) -> int {
    first_one_from(s, 0)
}

pub proof fn lemma_first_one_bounds(s: Seq<u8>, k: int)
    requires
        0 <= k <= s.len(),
    ensures
        k <= first_one_from(s, k) <= s.len(),
        first_one_from(s, k) < s.len() ==> s[first_one_from(s, k)] == 1,
    decreases s.len() - k,
{
    if k < s.len() && s[k] != 1 {
        lemma_first_one_bounds(s, k + 1);
    }
}

proof fn lemma_first_one_found(s: Seq<u8>, k: int, f: int)
    requires
        0 <= k <= f < s.len(),
        s[f] == 1,
        forall|m: int| k <= m < f ==> s[m] != 1,
    ensures
        first_one_from(s, k) == f,
    decreases f - k,
{
    if k < f {
        lemma_first_one_found(s, k + 1, f);
    }
}

proof fn lemma_first_one_absent(s: Seq<u8>, k: int)
    requires
        0 <= k <= s.len(),
        forall|m: int| k <= m < s.len() ==> s[m] != 1,
    ensures
        first_one_from(s, k) == s.len(),
    decreases s.len() - k,
{
    if k < s.len() {
        lemma_first_one_absent(s, k + 1);
    }
}

/// Whether a gamma codeword can be read off the front of `s`: a 1 bit at
/// some position `p` with a full `p + 1`-digit value after it, small enough
/// for the machine word.
pub open spec fn gamma_one_ok(s: Seq<u8>) -> bool {
    let p = first_one(s);
    &&& p < s.len()
    &&& p <= 63
    &&& 2 * p + 1 <= s.len()
    &&& bits_val(s.subrange(p, 2 * p + 1)) - 1 <= usize::MAX
}

/// The value of the gamma codeword at the front of `s`.
pub open spec fn gamma_one_value(s: Seq<u8>) -> int {
    bits_val(s.subrange(first_one(s), 2 * first_one(s) + 1)) - 1
}

/// What follows the gamma codeword at the front of `s`.
pub open spec fn gamma_one_rest(s: Seq<u8>) -> Seq<u8> {
    s.skip(2 * first_one(s) + 1)
}

/// A bit sequence beginning with a 1 is worth at least `2^(len - 1)`.
proof fn lemma_bits_val_leading_one(s: Seq<u8>)
    requires
        s.len() >= 1,
        s[0] == 1,
        all_bits(s),
    ensures
        bits_val(s) >= vstd::arithmetic::power2::pow2((s.len() - 1) as nat),
    decreases s.len(),
{
    vstd::arithmetic::power2::lemma2_to64();
    if s.len() == 1 {
    } else {
        assert(all_bits(s.drop_last()));
        lemma_bits_val_leading_one(s.drop_last());
        vstd::arithmetic::power2::lemma_pow2_unfold((s.len() - 1) as nat);
    }
}

/// Read an unsigned value off the front of a bit slice, MSB first.
fn read_bits_val(s: &[u8], from: usize, to: usize) -> (r: u64)
    requires
        from <= to <= s@.len(),
        to - from <= 64,
        all_bits(s@),
    ensures
        r == bits_val(s@.subrange(from as int, to as int)),
{
    let ghost chunk = s@.subrange(from as int, to as int);
    let mut acc: u64 = 0;
    let mut j: usize = from;
    while j < to
        invariant
            from <= j <= to <= s@.len(),
            to - from <= 64,
            all_bits(s@),
            chunk == s@.subrange(from as int, to as int),
            acc == bits_val(chunk.take(j - from)),
        decreases to - j,
    {
        proof {
            let tl = chunk.take(j - from);
            assert(all_bits(tl));
            lemma_bits_val_bound(tl);
            vstd::arithmetic::power2::lemma2_to64();
            vstd::arithmetic::power2::lemma2_to64_rest();
            if tl.len() < 63 {
                vstd::arithmetic::power2::lemma_pow2_strictly_increases(tl.len(), 63);
            }
            assert(chunk.take(j + 1 - from).drop_last() =~= tl);
        }
        let b: u8 = s[j];
        acc = acc * 2 + (b as u64);
        j = j + 1;
    }
    proof {
        assert(chunk.take(to - from) =~= chunk);
    }
    acc
}

/// The gamma code of `value`.
pub fn gamma_encode_one(value: usize) -> (r: Vec<u8>)
    requires
        value < usize::MAX,
    ensures
        r@ == gamma_code(value),
        all_bits(r@),
{
    let mut bin = convert_to_bin(value + 1);
    let prefix: usize = bin.len() - 1;
    let mut coded: Vec<u8> = Vec::new();
    let mut i: usize = 0;
    while i < prefix
        invariant
            i <= prefix,
            coded@ == zeros(i as int),
        decreases prefix - i,
    {
        coded.push(0);
        proof {
            assert(coded@ =~= zeros(i + 1));
        }
        i = i + 1;
    }
    coded.append(&mut bin);
    proof {
        assert(coded@ =~= gamma_code(value));
    }
    coded
}

/// The concatenated gamma codes of `values`.
pub fn gamma_encode(values: &[usize]) -> (r: Vec<u8>)
    requires
        forall|i: int| 0 <= i < values@.len() ==> values@[i] < usize::MAX,
    ensures
        r@ == gamma_seq(values@),
        all_bits(r@),
{
    let mut coded: Vec<u8> = Vec::new();
    let mut i: usize = 0;
    proof {
        assert(values@.take(0) =~= Seq::<usize>::empty());
    }
    while i < values.len()
        invariant
            i <= values@.len(),
            forall|j: int| 0 <= j < values@.len() ==> values@[j] < usize::MAX,
            coded@ == gamma_seq(values@.take(i as int)),
            all_bits(coded@),
        decreases values@.len() - i,
    {
        let mut one = gamma_encode_one(values[i]);
        coded.append(&mut one);
        proof {
            assert(values@.take(i + 1).drop_last() =~= values@.take(i as int));
        }
        i = i + 1;
    }
    proof {
        assert(values@.take(values@.len() as int) =~= values@);
    }
    coded
}

/// Read one gamma codeword off the front of `coded`: its value and the rest
/// of the bits. `None` when no full codeword is there.
pub fn gamma_decode_one(coded: &[u8]) -> (r: Option<(usize, &[u8])>)
    requires
        all_bits(coded@),
    ensures
        r is Some <==> gamma_one_ok(coded@),
        r matches Some(t) ==> t.0 == gamma_one_value(coded@) && t.1@ == gamma_one_rest(coded@)
            && t.1@.len() < coded@.len(),
{
    let mut p: usize = 0;
    while p < coded.len() && coded[p] == 0
        invariant
            p <= coded@.len(),
            all_bits(coded@),
            forall|m: int| 0 <= m < p ==> coded@[m] != 1,
        decreases coded@.len() - p,
    {
        p = p + 1;
    }
    if p == coded.len() {
        proof {
            lemma_first_one_absent(coded@, 0);
        }
        return None;
    }
    proof {
        lemma_first_one_found(coded@, 0, p as int);
    }
    if p > 63 {
        return None;
    }
    if coded.len() - p < p + 1 {
        return None;
    }
    let value = read_bits_val(coded, p, 2 * p + 1);
    proof {
        let cw = coded@.subrange(p as int, 2 * p + 1);
        assert(cw[0] == 1);
        assert(all_bits(cw));
        lemma_bits_val_leading_one(cw);
        vstd::arithmetic::power2::lemma_pow2_pos((cw.len() - 1) as nat);
    }
    if value - 1 > usize::MAX as u64 {
        return None;
    }
    let rest = vstd::slice::slice_subrange(coded, 2 * p + 1, coded.len());
    Some(((value - 1) as usize, rest))
}

/// The values of the gamma codewords at the front of `bits`, up to the first
/// point where no full codeword remains.
pub open spec fn gamma_decode_bits(bits: Seq<u8>) -> Seq<usize>
    decreases bits.len(), via gamma_decode_bits_decreases
{
    if !gamma_one_ok(bits) {
        Seq::empty()
    } else {
        seq![gamma_one_value(bits) as usize] + gamma_decode_bits(gamma_one_rest(bits))
    }
}

#[via_fn]
proof fn gamma_decode_bits_decreases(bits: Seq<u8>) {
    if gamma_one_ok(bits) {
        lemma_first_one_bounds(bits, 0);
    }
}

/// Unpack `coded` into bits and read gamma codewords until none remains.
pub fn gamma_decode(coded: &[u8]) -> (r: Vec<usize>)
    ensures
        r@ == gamma_decode_bits(unpack_bits(coded@)),
{
    let bitv = bytes_to_bits(coded);
    let ghost allbits = bitv@;
    let mut values: Vec<usize> = Vec::new();
    let mut rest: &[u8] = bitv.as_slice();
    loop
        invariant
            all_bits(rest@),
            values@ + gamma_decode_bits(rest@) == gamma_decode_bits(allbits),
        ensures
            values@ == gamma_decode_bits(allbits),
        decreases rest@.len(),
    {
        match gamma_decode_one(rest) {
            Some(pair) => {
                let ghost prev = rest@;
                values.push(pair.0);
                rest = pair.1;
                proof {
                    assert(values@ + gamma_decode_bits(rest@) =~= (values@.drop_last()
                        + (seq![gamma_one_value(prev) as usize] + gamma_decode_bits(
                        gamma_one_rest(prev),
                    ))));
                    let k = 2 * first_one(prev) + 1;
                    lemma_first_one_bounds(prev, 0);
                    assert forall|i: int| 0 <= i < rest@.len() implies is_bit(
                        #[trigger] rest@[i],
                    ) by {
                        assert(rest@[i] == prev[i + k]);
                    }
                }
            },
            None => {
                proof {
                    assert(values@ + gamma_decode_bits(rest@) =~= values@);
                }
                break;
            },
        }
    }
    values
}

/// The delta code of `v`: the gamma code of the digit count after the first,
/// then the digits of `v + 1` with the leading one removed.
pub open spec fn delta_code(v: usize) -> Seq<u8> {
    gamma_code((bit_len((v + 1) as usize) - 1) as usize) + bin_no_leading((v + 1) as usize)
}

/// The concatenated delta codes of a sequence of values.
pub open spec fn delta_seq(vs: Seq<usize>) -> Seq<u8>
    decreases vs.len(),
{
    if vs.len() == 0 {
        Seq::empty()
    } else {
        delta_seq(vs.drop_last()) + delta_code(vs.last())
    }
}

/// The delta code of `value`.
pub fn delta_encode_one(value: usize) -> (r: Vec<u8>)
    requires
        value < usize::MAX,
    ensures
        r@ == delta_code(value),
        all_bits(r@),
{
    let mut bin = convert_to_bin_no_leading(value + 1);
    proof {
        lemma_bit_len_le_64((value + 1) as usize);
    }
    let mut coded = gamma_encode_one(bin.len());
    coded.append(&mut bin);
    proof {
        assert(coded@ =~= delta_code(value));
    }
    coded
}

/// The concatenated delta codes of `values`.
pub fn delta_encode(values: &[usize]) -> (r: Vec<u8>)
    requires
        forall|i: int| 0 <= i < values@.len() ==> values@[i] < usize::MAX,
    ensures
        r@ == delta_seq(values@),
        all_bits(r@),
{
    let mut coded: Vec<u8> = Vec::new();
    let mut i: usize = 0;
    proof {
        assert(values@.take(0) =~= Seq::<usize>::empty());
    }
    while i < values.len()
        invariant
            i <= values@.len(),
            forall|j: int| 0 <= j < values@.len() ==> values@[j] < usize::MAX,
            coded@ == delta_seq(values@.take(i as int)),
            all_bits(coded@),
        decreases values@.len() - i,
    {
        let mut one = delta_encode_one(values[i]);
        coded.append(&mut one);
        proof {
            assert(values@.take(i + 1).drop_last() =~= values@.take(i as int));
        }
        i = i + 1;
    }
    proof {
        assert(values@.take(values@.len() as int) =~= values@);
    }
    coded
}

/// Whether a delta codeword can be read off the front of `s`.
pub open spec fn delta_one_ok(s: Seq<u8>) -> bool {
    let l = gamma_one_value(s);
    &&& gamma_one_ok(s)
    &&& 0 <= l <= 63
    &&& gamma_one_rest(s).len() >= l
    &&& delta_one_value(s) <= usize::MAX
}

/// The value of the delta codeword at the front of `s`.
pub open spec fn delta_one_value(s: Seq<u8>) -> int {
    let l = gamma_one_value(s);
    (1u64 << (l as u64)) + bits_val(gamma_one_rest(s).take(l)) - 1
}

/// What follows the delta codeword at the front of `s`.
pub open spec fn delta_one_rest(s: Seq<u8>) -> Seq<u8> {
    gamma_one_rest(s).skip(gamma_one_value(s))
}

/// Read one delta codeword off the front of `coded`.
pub fn delta_decode_one(coded: &[u8]) -> (r: Option<(usize, &[u8])>)
    requires
        all_bits(coded@),
    ensures
        r is Some <==> delta_one_ok(coded@),
        r matches Some(t) ==> t.0 == delta_one_value(coded@) && t.1@ == delta_one_rest(coded@)
            && t.1@.len() < coded@.len(),
{
    match gamma_decode_one(coded) {
        None => None,
        Some((l, after)) => {
            if l > 63 {
                return None;
            }
            if after.len() < l {
                return None;
            }
            proof {
                lemma_first_one_bounds(coded@, 0);
                assert forall|i: int| 0 <= i < after@.len() implies is_bit(
                    #[trigger] after@[i],
                ) by {
                    assert(after@[i] == coded@[i + 2 * first_one(coded@) + 1]);
                }
            }
            let acc = read_bits_val(after, 0, l);
            proof {
                let lv = l as u64;
                assert((1u64 << lv) >= 1 && (1u64 << lv) <= 0x8000_0000_0000_0000)
                    by (bit_vector)
                    requires
                        lv <= 63,
                ;
                vstd::arithmetic::power2::lemma2_to64();
                vstd::arithmetic::power2::lemma2_to64_rest();
                vstd::bits::lemma_u64_shl_is_mul(1u64, lv);
                let tk = after@.take(l as int);
                assert(tk =~= after@.subrange(0, l as int));
                assert(all_bits(tk));
                lemma_bits_val_bound(tk);
                if tk.len() < 63 {
                    vstd::arithmetic::power2::lemma_pow2_strictly_increases(tk.len(), 63);
                }
            }
            let value: u64 = (1u64 << (l as u64)) + acc - 1;
            if value > usize::MAX as u64 {
                return None;
            }
            let rest = vstd::slice::slice_subrange(after, l, after.len());
            proof {
                assert(rest@ =~= delta_one_rest(coded@));
            }
            Some((value as usize, rest))
        },
    }
}

/// The values of the delta codewords at the front of `bits`.
pub open spec fn delta_decode_bits(bits: Seq<u8>) -> Seq<usize>
    decreases bits.len(), via delta_decode_bits_decreases
{
    if !delta_one_ok(bits) {
        Seq::empty()
    } else {
        seq![delta_one_value(bits) as usize] + delta_decode_bits(delta_one_rest(bits))
    }
}

#[via_fn]
proof fn delta_decode_bits_decreases(bits: Seq<u8>) {
    if delta_one_ok(bits) {
        lemma_first_one_bounds(bits, 0);
    }
}

/// Unpack `coded` into bits and read delta codewords until none remains.
pub fn delta_decode(coded: &[u8]) -> (r: Vec<usize>)
    ensures
        r@ == delta_decode_bits(unpack_bits(coded@)),
{
    let bitv = bytes_to_bits(coded);
    let ghost allbits = bitv@;
    let mut values: Vec<usize> = Vec::new();
    let mut rest: &[u8] = bitv.as_slice();
    loop
        invariant
            all_bits(rest@),
            values@ + delta_decode_bits(rest@) == delta_decode_bits(allbits),
        ensures
            values@ == delta_decode_bits(allbits),
        decreases rest@.len(),
    {
        match delta_decode_one(rest) {
            Some(pair) => {
                let ghost prev = rest@;
                values.push(pair.0);
                rest = pair.1;
                proof {
                    assert(values@ + delta_decode_bits(rest@) =~= (values@.drop_last()
                        + (seq![delta_one_value(prev) as usize] + delta_decode_bits(
                        delta_one_rest(prev),
                    ))));
                    lemma_first_one_bounds(prev, 0);
                    let p = first_one(prev);
                    let cw = prev.subrange(p, 2 * p + 1);
                    assert(cw[0] == 1);
                    assert(all_bits(cw));
                    lemma_bits_val_leading_one(cw);
                    vstd::arithmetic::power2::lemma_pow2_pos((cw.len() - 1) as nat);
                    assert forall|i: int| 0 <= i < rest@.len() implies is_bit(
                        #[trigger] rest@[i],
                    ) by {
                        let k = 2 * p + 1;
                        let l = gamma_one_value(prev);
                        assert(rest@[i] == gamma_one_rest(prev)[i + l]);
                        assert(gamma_one_rest(prev)[i + l] == prev[i + l + k]);
                    }
                }
            },
            None => {
                proof {
                    assert(values@ + delta_decode_bits(rest@) =~= values@);
                }
                break;
            },
        }
    }
    values
}

/// The recursive group structure of the omega code of `n`: each group is the
/// binary of the previous group's length minus one, outermost group first.
pub open spec fn omega_rec(n: usize) -> Seq<u8>
    decreases n, via omega_rec_decreases
{
    if n <= 1 {
        Seq::empty()
    } else {
        omega_rec((bit_len(n) - 1) as usize) + bin_of(n)
    }
}

#[via_fn]
proof fn omega_rec_decreases(n: usize) {
    if n > 1 {
        lemma_bit_len_le_self(n);
    }
}

/// The omega code of `v`: the groups for `v + 1`, closed by a 0 bit.
pub open spec fn omega_code(v: usize) -> Seq<u8> {
    omega_rec((v + 1) as usize) + seq![0u8]
}

/// The concatenated omega codes of a sequence of values.
pub open spec fn omega_seq(vs: Seq<usize>) -> Seq<u8>
    decreases vs.len(),
{
    if vs.len() == 0 {
        Seq::empty()
    } else {
        omega_seq(vs.drop_last()) + omega_code(vs.last())
    }
}

/// The omega code of `value`.
pub fn omega_encode_one(value: usize) -> (r: Vec<u8>)
    requires
        value < usize::MAX,
    ensures
        r@ == omega_code(value),
        all_bits(r@),
{
    let mut coded: Vec<u8> = Vec::new();
    coded.push(0);
    let mut n: usize = value + 1;
    proof {
        assert(coded@.reverse() =~= seq![0u8]);
    }
    while n > 1
        invariant
            omega_code(value) == omega_rec(n) + coded@.reverse(),
            all_bits(coded@),
        decreases n,
    {
        let ghost pre = coded@;
        let ghost n0 = n;
        let mut bin_rev = convert_to_bin_rev(n);
        let len_bin: usize = bin_rev.len();
        coded.append(&mut bin_rev);
        proof {
            lemma_bit_len_le_self(n0);
            assert(bin_of_rev(n0).reverse() =~= bin_of(n0));
            assert(coded@.reverse() =~= bin_of_rev(n0).reverse() + pre.reverse());
            assert(omega_rec(n0) + pre.reverse() =~= omega_rec((bit_len(n0) - 1) as usize) + (
            bin_of(n0) + pre.reverse()));
        }
        n = len_bin - 1;
    }
    let mut r: Vec<u8> = Vec::new();
    let mut i: usize = 0;
    while i < coded.len()
        invariant
            i <= coded@.len(),
            r@.len() == i,
            all_bits(coded@),
            forall|k: int| 0 <= k < i ==> r@[k] == coded@[coded@.len() - 1 - k],
        decreases coded@.len() - i,
    {
        r.push(coded[coded.len() - 1 - i]);
        i = i + 1;
    }
    proof {
        assert(r@ =~= coded@.reverse());
        assert(forall|k: int| 0 <= k < r@.len() ==> is_bit(#[trigger] r@[k]));
    }
    r
}

/// The concatenated omega codes of `values`.
pub fn omega_encode(values: &[usize]) -> (r: Vec<u8>)
    requires
        forall|i: int| 0 <= i < values@.len() ==> values@[i] < usize::MAX,
    ensures
        r@ == omega_seq(values@),
        all_bits(r@),
{
    let mut coded: Vec<u8> = Vec::new();
    let mut i: usize = 0;
    proof {
        assert(values@.take(0) =~= Seq::<usize>::empty());
    }
    while i < values.len()
        invariant
            i <= values@.len(),
            forall|j: int| 0 <= j < values@.len() ==> values@[j] < usize::MAX,
            coded@ == omega_seq(values@.take(i as int)),
            all_bits(coded@),
        decreases values@.len() - i,
    {
        let mut one = omega_encode_one(values[i]);
        coded.append(&mut one);
        proof {
            assert(values@.take(i + 1).drop_last() =~= values@.take(i as int));
        }
        i = i + 1;
    }
    proof {
        assert(values@.take(values@.len() as int) =~= values@);
    }
    coded
}

/// Reading one omega codeword starting from the running value `value`: each
/// 1-led group of `value + 1` bits replaces the value; a 0 bit closes the
/// codeword, worth the running value minus one.
pub open spec fn omega_dec_rec(bits: Seq<u8>, value: int) -> Option<(usize, Seq<u8>)>
    decreases bits.len(),
{
    if bits.len() == 0 {
        None
    } else if bits[0] == 0 {
        Some((((value - 1) as usize), bits.skip(1)))
    } else {
        let cutoff = value + 1;
        if 1 <= cutoff <= 64 && bits.len() > cutoff && bits_val(bits.take(cutoff))
            <= usize::MAX {
            omega_dec_rec(bits.skip(cutoff), bits_val(bits.take(cutoff)) as int)
        } else {
            None
        }
    }
}

proof fn lemma_omega_dec_shrinks(bits: Seq<u8>, value: int)
    ensures
        omega_dec_rec(bits, value) matches Some(t) ==> t.1.len() < bits.len(),
    decreases bits.len(),
{
    if bits.len() > 0 && bits[0] != 0 {
        let cutoff = value + 1;
        if 1 <= cutoff <= 64 && bits.len() > cutoff && bits_val(bits.take(cutoff))
            <= usize::MAX {
            lemma_omega_dec_shrinks(bits.skip(cutoff), bits_val(bits.take(cutoff)) as int);
        }
    }
}

/// Read one omega codeword off the front of `coded`.
pub fn omega_decode_one(coded: &[u8]) -> (r: Option<(usize, &[u8])>)
    requires
        all_bits(coded@),
    ensures
        (match (r, omega_dec_rec(coded@, 1)) {
            (Some(t), Some(st)) => t.0 == st.0 && t.1@ == st.1 && t.1@.len() < coded@.len(),
            (None, None) => true,
            _ => false,
        }),
        r matches Some(t) ==> all_bits(t.1@),
{
    proof {
        lemma_omega_dec_shrinks(coded@, 1);
    }
    let mut rest: &[u8] = coded;
    let mut value: usize = 1;
    loop
        invariant
            all_bits(rest@),
            value >= 1,
            rest@.len() <= coded@.len(),
            omega_dec_rec(coded@, 1) == omega_dec_rec(rest@, value as int),
            omega_dec_rec(coded@, 1) matches Some(t) ==> t.1.len() < coded@.len(),
        decreases rest@.len(),
    {
        if rest.len() == 0 {
            return None;
        }
        if *vstd::slice::slice_index_get(rest, 0) == 0 {
            let tail = vstd::slice::slice_subrange(rest, 1, rest.len());
            proof {
                assert(tail@ =~= rest@.skip(1));
                assert forall|i: int| 0 <= i < tail@.len() implies is_bit(
                    #[trigger] tail@[i],
                ) by {
                    assert(tail@[i] == rest@[i + 1]);
                }
            }
            return Some((value - 1, tail));
        }
        if value > 63 {
            return None;
        }
        let cutoff: usize = value + 1;
        if rest.len() <= cutoff {
            return None;
        }
        let acc = read_bits_val(rest, 0, cutoff);
        if acc > usize::MAX as u64 {
            return None;
        }
        let ghost prev = rest@;
        proof {
            let tk = prev.take(cutoff as int);
            assert(tk =~= prev.subrange(0, cutoff as int));
            assert(tk[0] == 1);
            assert(all_bits(tk));
            lemma_bits_val_leading_one(tk);
            vstd::arithmetic::power2::lemma_pow2_pos((tk.len() - 1) as nat);
        }
        value = acc as usize;
        rest = vstd::slice::slice_subrange(rest, cutoff, rest.len());
        proof {
            assert(rest@ =~= prev.skip(cutoff as int));
            assert forall|i: int| 0 <= i < rest@.len() implies is_bit(#[trigger] rest@[i]) by {
                assert(rest@[i] == prev[i + cutoff]);
            }
        }
    }
}

/// The values of the omega codewords at the front of `bits`.
pub open spec fn omega_decode_bits(bits: Seq<u8>) -> Seq<usize>
    decreases bits.len(), via omega_decode_bits_decreases
{
    match omega_dec_rec(bits, 1) {
        None => Seq::empty(),
        Some(t) => seq![t.0] + omega_decode_bits(t.1),
    }
}

#[via_fn]
proof fn omega_decode_bits_decreases(bits: Seq<u8>) {
    lemma_omega_dec_shrinks(bits, 1);
}

/// Unpack `coded` into bits and read omega codewords until none remains.
pub fn omega_decode(coded: &[u8]) -> (r: Vec<usize>)
    ensures
        r@ == omega_decode_bits(unpack_bits(coded@)),
{
    let bitv = bytes_to_bits(coded);
    let ghost allbits = bitv@;
    let mut values: Vec<usize> = Vec::new();
    let mut rest: &[u8] = bitv.as_slice();
    loop
        invariant
            all_bits(rest@),
            values@ + omega_decode_bits(rest@) == omega_decode_bits(allbits),
        ensures
            values@ == omega_decode_bits(allbits),
        decreases rest@.len(),
    {
        match omega_decode_one(rest) {
            Some(pair) => {
                let ghost prev = rest@;
                values.push(pair.0);
                rest = pair.1;
                proof {
                    let st = omega_dec_rec(prev, 1);
                    assert(values@ + omega_decode_bits(rest@) =~= (values@.drop_last() + (
                    seq![st.unwrap().0] + omega_decode_bits(st.unwrap().1))));
                }
            },
            None => {
                proof {
                    assert(values@ + omega_decode_bits(rest@) =~= values@);
                }
                break;
            },
        }
    }
    values
}

} // verus!
