//! Fibonacci coding: each value (offset by one) is written as its Zeckendorf
//! sum of Fibonacci numbers, least significant first, closed by a second
//! consecutive 1 bit. The Fibonacci table is grown lazily and shared across
//! the values of one call.

use vstd::prelude::*;
use crate::bits::{all_bits, bytes_to_bits, is_bit, unpack_bits};

verus! {

/// The Fibonacci numbers used by the code: 1, 2, 3, 5, 8, ...
pub open spec fn fib(i: int) -> nat
    decreases i,
{
    if i <= 0 {
        1
    } else if i == 1 {
        2
    } else {
        (fib(i - 1) + fib(i - 2)) as nat
    }
}

pub proof fn lemma_fib_lower(i: int)
    requires
        i >= 0,
    ensures
        fib(i) >= i + 1,
    decreases i,
{
    if i >= 2 {
        lemma_fib_lower(i - 1);
        lemma_fib_lower(i - 2);
    }
}

pub proof fn lemma_fib_mono(i: int, j: int)
    requires
        0 <= i <= j,
    ensures
        fib(i) <= fib(j),
    decreases j - i,
{
    if i < j {
        lemma_fib_mono(i, j - 1);
        if j >= 2 {
        }
    }
}

/// A well-formed lazily grown table: entry `i` holds `fib(i)`.
pub open spec fn fib_table_wf(t: Seq<usize>) -> bool {
    t.len() >= 2 && forall|i: int| 0 <= i < t.len() ==> #[trigger] t[i] == fib(i)
}

/// The first `[1, 2]` table.
pub fn new_fib_table() -> (t: Vec<usize>)
    ensures
        fib_table_wf(t@),
        t@.len() == 2,
{
    let mut t: Vec<usize> = Vec::new();
    t.push(1);
    t.push(2);
    t
}

/// The least index at or after `i` whose successor Fibonacci number exceeds
/// `w`; meaningful when `fib(i) <= w`.
pub open spec fn max_fib_idx_from(w: int, i: int) -> int
    decreases w - i, via max_fib_idx_from_decreases
{
    if i < 0 || w < i {
        i
    } else if fib(i + 1) > w {
        i
    } else {
        max_fib_idx_from(w, i + 1)
    }
}

#[via_fn]
proof fn max_fib_idx_from_decreases(w: int, i: int) {
    if 0 <= i <= w && fib(i + 1) <= w {
        lemma_fib_lower(i + 1);
    }
}

/// The index of the largest Fibonacci number not exceeding `w`.
pub open spec fn max_fib_idx(w: int) -> int {
    max_fib_idx_from(w, 0)
}

proof fn lemma_max_fib_char(w: int, m: int, i: int)
    requires
        0 <= i <= m,
        w >= 1,
        fib(m) <= w,
        fib(m + 1) > w,
    ensures
        max_fib_idx_from(w, i) == m,
    decreases m - i,
{
    lemma_fib_lower(m);
    if i < m {
        lemma_fib_mono(i + 1, m);
        lemma_max_fib_char(w, m, i + 1);
    }
}

/// The Zeckendorf digits of `x` for Fibonacci indices `i` down to 0, most
/// significant first, by the greedy rule.
pub open spec fn zeck_desc(x: int, i: int) -> Seq<u8>
    decreases i + 1,
{
    if i < 0 {
        Seq::empty()
    } else if fib(i) <= x {
        seq![1u8] + zeck_desc(x - fib(i), i - 1)
    } else {
        seq![0u8] + zeck_desc(x, i - 1)
    }
}

/// The Fibonacci code of `v`: the Zeckendorf digits of `v + 1`, least
/// significant first, closed by an extra 1.
pub open spec fn fib_code(v: usize) -> Seq<u8> {
    zeck_desc(v + 1, max_fib_idx(v + 1)).reverse() + seq![1u8]
}

/// The concatenated Fibonacci codes of a sequence of values.
pub open spec fn fib_seq(vs: Seq<usize>) -> Seq<u8>
    decreases vs.len(),
{
    if vs.len() == 0 {
        Seq::empty()
    } else {
        fib_seq(vs.drop_last()) + fib_code(vs.last())
    }
}

/// The Fibonacci code of `value`, growing the shared table as needed.
pub fn fib_encode_one(value: usize, fib_table: &mut Vec<usize>) -> (r: Vec<u8>)
    requires
        fib_table_wf(old(fib_table)@),
        value <= usize::MAX / 2 - 1,
    ensures
        fib_table_wf(final(fib_table)@),
        r@ == fib_code(value),
        all_bits(r@),
{
    let w: usize = value + 1;
    // find (or create) the first table entry that exceeds the target
    let mut j: usize = 0;
    let mut found: bool = false;
    while j < fib_table.len() && !found
        invariant
            fib_table_wf(fib_table@),
            j <= fib_table@.len(),
            !found ==> forall|m: int| 0 <= m < j ==> fib(m) <= w,
            found ==> (0 < j <= fib_table@.len() && fib(j - 1) > w && forall|m: int|
                0 <= m < j - 1 ==> fib(m) <= w),
        decreases fib_table@.len() - j,
    {
        if fib_table[j] > w {
            found = true;
        }
        j = j + 1;
    }
    let maxidx: usize;
    if found {
        proof {
            assert(fib(0) == 1);
            assert(j >= 2);
        }
        maxidx = j - 2;
        proof {
            lemma_max_fib_char(w as int, maxidx as int, 0);
        }
    } else {
        // every entry is at most w: extend until one exceeds it
        loop
            invariant
                fib_table_wf(fib_table@),
                w <= usize::MAX / 2,
                forall|m: int| 0 <= m < fib_table@.len() - 1 ==> fib(m) <= w,
            ensures
                fib_table_wf(fib_table@),
                fib_table@.len() >= 2,
                fib(fib_table@.len() - 1) > w,
                forall|m: int| 0 <= m < fib_table@.len() - 1 ==> fib(m) <= w,
            decreases 2 * w - fib_table@.len(),
        {
            let l: usize = fib_table.len();
            let last: usize = fib_table[l - 1];
            if last > w {
                break;
            }
            proof {
                lemma_fib_mono(l - 2, l - 1);
                assert(fib(l - 1) <= w);
            }
            let next: usize = last + fib_table[l - 2];
            fib_table.push(next);
            proof {
                lemma_fib_lower(l - 1);
            }
        }
        maxidx = fib_table.len() - 2;
        proof {
            lemma_max_fib_char(w as int, maxidx as int, 0);
        }
    }
    // greedy subtraction, most significant Fibonacci number first
    let mut coded: Vec<u8> = Vec::new();
    coded.push(1);
    let mut x: usize = w;
    let mut k: usize = maxidx + 1;
    proof {
        assert(coded@ =~= seq![1u8] + Seq::<u8>::empty());
    }
    while k > 0
        invariant
            fib_table_wf(fib_table@),
            k <= maxidx + 1 < fib_table@.len(),
            0 <= x,
            coded@.len() == 1 + (maxidx + 1 - k),
            all_bits(coded@),
            (seq![1u8] + zeck_desc(w as int, maxidx as int)) == coded@ + zeck_desc(
                x as int,
                k - 1,
            ),
        decreases k,
    {
        let ghost pre = coded@;
        let ghost x0 = x as int;
        k = k - 1;
        if fib_table[k] <= x {
            x = x - fib_table[k];
            coded.push(1);
            proof {
                assert(coded@ =~= pre + seq![1u8]);
                assert(zeck_desc(x0, k as int) == seq![1u8] + zeck_desc(x as int, k as int - 1));
                assert(pre + (seq![1u8] + zeck_desc(x as int, k as int - 1)) =~= coded@
                    + zeck_desc(x as int, k as int - 1));
            }
        } else {
            coded.push(0);
            proof {
                assert(coded@ =~= pre + seq![0u8]);
                assert(zeck_desc(x0, k as int) == seq![0u8] + zeck_desc(x as int, k as int - 1));
                assert(pre + (seq![0u8] + zeck_desc(x as int, k as int - 1)) =~= coded@
                    + zeck_desc(x as int, k as int - 1));
            }
        }
    }
    proof {
        assert(zeck_desc(x as int, -1) =~= Seq::<u8>::empty());
        assert(coded@ + Seq::<u8>::empty() =~= coded@);
    }
    // reverse: least significant digit first, trailing stop bit last
    let mut r: Vec<u8> = Vec::new();
    let mut i: usize = 0;
    while i < coded.len()
        invariant
            i <= coded@.len(),
            r@.len() == i,
            all_bits(coded@),
            forall|m: int| 0 <= m < i ==> r@[m] == coded@[coded@.len() - 1 - m],
        decreases coded@.len() - i,
    {
        r.push(coded[coded.len() - 1 - i]);
        i = i + 1;
    }
    proof {
        assert(r@ =~= coded@.reverse());
        assert((seq![1u8] + zeck_desc(w as int, maxidx as int)).reverse() =~= (zeck_desc(
            w as int,
            maxidx as int,
        ).reverse() + seq![1u8]));
        assert(forall|m: int| 0 <= m < r@.len() ==> is_bit(#[trigger] r@[m]));
    }
    r
}

/// The concatenated Fibonacci codes of `values`.
pub fn fib_encode(values: &[usize]) -> (r: Vec<u8>)
    requires
        forall|i: int| 0 <= i < values@.len() ==> values@[i] <= usize::MAX / 2 - 1,
    ensures
        r@ == fib_seq(values@),
        all_bits(r@),
{
    let mut fib_table = new_fib_table();
    let mut coded: Vec<u8> = Vec::new();
    let mut i: usize = 0;
    proof {
        assert(values@.take(0) =~= Seq::<usize>::empty());
    }
    while i < values.len()
        invariant
            i <= values@.len(),
            fib_table_wf(fib_table@),
            forall|j: int| 0 <= j < values@.len() ==> values@[j] <= usize::MAX / 2 - 1,
            coded@ == fib_seq(values@.take(i as int)),
            all_bits(coded@),
        decreases values@.len() - i,
    {
        let mut one = fib_encode_one(values[i], &mut fib_table);
        coded.append(&mut one);
        proof {
            assert(values@.take(i + 1).drop_last() =~= values@.take(i as int));
        }
        i = i + 1;
    }
    proof {
        assert(values@.take(values@.len() as int) =~= values@);
    }
    coded
}

/// The least index `j` with 1 bits at `j` and `j + 1`; the length if none.
pub open spec fn first_pair_from(s: Seq<u8>, k: int) -> int
    decreases s.len() - k,
{
    if k < 0 || k + 1 >= s.len() {
        s.len() as int
    } else if s[k] == 1 && s[k + 1] == 1 {
        k
    } else {
        first_pair_from(s, k + 1)
    }
}

/// The position of the first two consecutive 1 bits, or the length if none.
pub open spec fn first_pair(s: Seq<u8>) -> int {
    first_pair_from(s, 0)
}

pub proof fn lemma_first_pair_bounds(s: Seq<u8>, k: int)
    requires
        0 <= k <= s.len(),
    ensures
        k <= first_pair_from(s, k) <= s.len(),
        first_pair_from(s, k) + 1 < s.len() ==> s[first_pair_from(s, k)] == 1 && s[
            first_pair_from(s, k) + 1] == 1,
    decreases s.len() - k,
{
    if k + 1 < s.len() && !(s[k] == 1 && s[k + 1] == 1) {
        lemma_first_pair_bounds(s, k + 1);
    }
}

proof fn lemma_first_pair_found(s: Seq<u8>, k: int, f: int)
    requires
        0 <= k <= f,
        f + 1 < s.len(),
        s[f] == 1 && s[f + 1] == 1,
        forall|m: int| k <= m < f ==> !(#[trigger] s[m] == 1 && s[m + 1] == 1),
    ensures
        first_pair_from(s, k) == f,
    decreases f - k,
{
    if k < f {
        lemma_first_pair_found(s, k + 1, f);
    }
}

proof fn lemma_first_pair_absent(s: Seq<u8>, k: int)
    requires
        0 <= k <= s.len(),
        forall|m: int| k <= m && m + 1 < s.len() ==> !(#[trigger] s[m] == 1 && s[m + 1] == 1),
    ensures
        first_pair_from(s, k) == s.len(),
    decreases s.len() - k,
{
    if k + 1 < s.len() {
        lemma_first_pair_absent(s, k + 1);
    }
}

/// The weighted Fibonacci sum of the first `n` bits.
pub open spec fn fib_val(s: Seq<u8>, n: int) -> int
    decreases n,
{
    if n <= 0 {
        0
    } else {
        fib_val(s, n - 1) + s[n - 1] * fib(n - 1)
    }
}

proof fn lemma_fib_val_mono(s: Seq<u8>, m: int, n: int)
    requires
        0 <= m <= n,
    ensures
        fib_val(s, m) <= fib_val(s, n),
    decreases n - m,
{
    if m < n {
        lemma_fib_val_mono(s, m, n - 1);
        assert(s[n - 1] * fib(n - 1) >= 0) by (nonlinear_arith);
    }
}

proof fn lemma_fib_val_nonneg(s: Seq<u8>, n: int)
    ensures
        fib_val(s, n) >= 0,
{
    lemma_fib_val_mono(s, 0, if n >= 0 {
        n
    } else {
        0
    });
}

/// A 1 bit at `i` puts `fib(i)` into the sum.
proof fn lemma_fib_val_lower(s: Seq<u8>, n: int, i: int)
    requires
        0 <= i < n,
        s[i] == 1,
    ensures
        fib_val(s, n) >= fib(i),
    decreases n,
{
    if i == n - 1 {
        lemma_fib_val_nonneg(s, n - 1);
    } else {
        lemma_fib_val_lower(s, n - 1, i);
        assert(s[n - 1] * fib(n - 1) >= 0) by (nonlinear_arith);
    }
}

/// Whether a Fibonacci codeword can be read off the front of `s`: a closing
/// pair of 1 bits, with every needed Fibonacci number and the coded value
/// fitting the machine word.
pub open spec fn fib_one_ok(s: Seq<u8>) -> bool {
    let j = first_pair(s);
    &&& j + 1 < s.len()
    &&& fib(j) <= usize::MAX
    &&& fib_val(s, j + 1) <= usize::MAX
}

/// The value of the Fibonacci codeword at the front of `s`.
pub open spec fn fib_one_value(s: Seq<u8>) -> int {
    fib_val(s, first_pair(s) + 1) - 1
}

/// What follows the Fibonacci codeword at the front of `s`.
pub open spec fn fib_one_rest(s: Seq<u8>) -> Seq<u8> {
    s.skip(first_pair(s) + 2)
}

/// Read one Fibonacci codeword off the front of `coded`, growing the shared
/// table as needed.
pub fn fib_decode_one<'a>(coded: &'a [u8], fib_table: &mut Vec<usize>) -> (r: Option<
    (usize, &'a [u8]),
>)
    requires
        all_bits(coded@),
        fib_table_wf(old(fib_table)@),
    ensures
        fib_table_wf(final(fib_table)@),
        r is Some <==> fib_one_ok(coded@),
        r matches Some(t) ==> t.0 == fib_one_value(coded@) && t.1@ == fib_one_rest(coded@)
            && t.1@.len() < coded@.len() && all_bits(t.1@),
{
    // find the closing pair of 1 bits
    let mut j: usize = 0;
    let mut found: bool = false;
    loop
        invariant_except_break
            !found,
        invariant
            all_bits(coded@),
            j <= coded@.len(),
            forall|m: int| 0 <= m < j ==> !(#[trigger] coded@[m] == 1 && coded@[m + 1] == 1),
        ensures
            !found ==> forall|m: int|
                0 <= m && m + 1 < coded@.len() ==> !(#[trigger] coded@[m] == 1 && coded@[m + 1]
                    == 1),
            found ==> (j + 1 < coded@.len() && coded@[j as int] == 1 && coded@[j + 1] == 1
                && forall|m: int|
                0 <= m < j ==> !(#[trigger] coded@[m] == 1 && coded@[m + 1] == 1)),
        decreases coded@.len() - j,
    {
        if coded.len() - j <= 1 {
            break;
        }
        if coded[j] == 1 && coded[j + 1] == 1 {
            found = true;
            break;
        }
        j = j + 1;
    }
    if !found {
        proof {
            lemma_first_pair_absent(coded@, 0);
        }
        return None;
    }
    proof {
        lemma_first_pair_found(coded@, 0, j as int);
    }
    // grow the table to cover index j
    while fib_table.len() <= j
        invariant
            fib_table_wf(fib_table@),
            j + 1 < coded@.len(),
            j == first_pair(coded@),
        decreases j + 1 - fib_table@.len(),
    {
        let l: usize = fib_table.len();
        let a: usize = fib_table[l - 1];
        let b: usize = fib_table[l - 2];
        match a.checked_add(b) {
            Some(next) => {
                fib_table.push(next);
            },
            None => {
                proof {
                    lemma_fib_mono(l as int, j as int);
                }
                return None;
            },
        }
    }
    // sum the marked Fibonacci numbers
    let mut acc: usize = 0;
    let mut i: usize = 0;
    while i <= j
        invariant
            all_bits(coded@),
            fib_table_wf(fib_table@),
            i <= j + 1,
            j < fib_table@.len(),
            j + 1 < coded@.len(),
            j == first_pair(coded@),
            acc == fib_val(coded@, i as int),
        decreases j + 1 - i,
    {
        if coded[i] == 1 {
            match acc.checked_add(fib_table[i]) {
                Some(nacc) => {
                    acc = nacc;
                },
                None => {
                    proof {
                        lemma_fib_val_mono(coded@, i + 1, j + 1);
                        assert(fib_val(coded@, i + 1) == acc + fib(i as int));
                    }
                    return None;
                },
            }
        }
        proof {
            assert(coded@[i as int] * fib(i as int) == if coded@[i as int] == 1 {
                fib(i as int)
            } else {
                0nat
            }) by (nonlinear_arith)
                requires
                    coded@[i as int] == 0 || coded@[i as int] == 1,
            ;
        }
        i = i + 1;
    }
    proof {
        lemma_fib_val_lower(coded@, j + 1, j as int);
        lemma_fib_lower(j as int);
    }
    let clen: usize = coded.len();
    let rest = vstd::slice::slice_subrange(coded, j + 2, clen);
    proof {
        assert(rest@ =~= fib_one_rest(coded@));
        assert forall|m: int| 0 <= m < rest@.len() implies is_bit(#[trigger] rest@[m]) by {
            assert(rest@[m] == coded@[m + j + 2]);
        }
    }
    Some((acc - 1, rest))
}

/// The values of the Fibonacci codewords at the front of `bits`.
pub open spec fn fib_decode_bits(bits: Seq<u8>) -> Seq<usize>
    decreases bits.len(), via fib_decode_bits_decreases
{
    if !fib_one_ok(bits) {
        Seq::empty()
    } else {
        seq![fib_one_value(bits) as usize] + fib_decode_bits(fib_one_rest(bits))
    }
}

#[via_fn]
proof fn fib_decode_bits_decreases(bits: Seq<u8>) {
    if fib_one_ok(bits) {
        lemma_first_pair_bounds(bits, 0);
    }
}

/// Unpack `coded` into bits and read Fibonacci codewords until none remains.
pub fn fib_decode(coded: &[u8]) -> (r: Vec<usize>)
    ensures
        r@ == fib_decode_bits(unpack_bits(coded@)),
{
    let mut fib_table = new_fib_table();
    let bitv = bytes_to_bits(coded);
    let ghost allbits = bitv@;
    let mut values: Vec<usize> = Vec::new();
    let mut rest: &[u8] = bitv.as_slice();
    loop
        invariant
            all_bits(rest@),
            fib_table_wf(fib_table@),
            values@ + fib_decode_bits(rest@) == fib_decode_bits(allbits),
        ensures
            values@ == fib_decode_bits(allbits),
        decreases rest@.len(),
    {
        match fib_decode_one(rest, &mut fib_table) {
            Some(pair) => {
                let ghost prev = rest@;
                values.push(pair.0);
                rest = pair.1;
                proof {
                    assert(values@ + fib_decode_bits(rest@) =~= (values@.drop_last() + (
                    seq![fib_one_value(prev) as usize] + fib_decode_bits(fib_one_rest(prev)))));
                }
            },
            None => {
                proof {
                    assert(values@ + fib_decode_bits(rest@) =~= values@);
                }
                break;
            },
        }
    }
    values
}

} // verus!
