//! A Hamming(8,4) code over bit-vectors: four data bits become eight coded
//! bits; a four-bit syndrome locates any single flipped bit and detects
//! double flips. The bits live in `bitvec`'s `BitVec`, which the contracts
//! read through its bit-sequence contents.

use vstd::prelude::*;
use bitvec::vec::BitVec;

verus! {

/// `bitvec`'s bit-vector, held opaquely (its generic bounds keep the type
/// itself from being declared here); its contents are `bits_of`.
#[verifier::external_body]
pub struct Bits {
    inner: BitVec,
}

/// The bits a `Bits` holds, in index order.
pub uninterp spec fn bits_of(v: Bits) -> Seq<bool>;

impl Bits {
    /// Relies on `BitVec::new`: a fresh bit-vector is empty.
    #[verifier::external_body]
    pub fn new() -> (r: Bits)
        ensures
            bits_of(r) == Seq::<bool>::empty(),
    {
        Bits { inner: BitVec::new() }
    }

    /// Relies on `BitVec::push`: appends one bit at the back.
    #[verifier::external_body]
    pub fn push(&mut self, b: bool)
        requires
            bits_of(*old(self)).len() < 0x0FFF_FFFF,
        ensures
            bits_of(*final(self)) == bits_of(*old(self)).push(b),
    {
        self.inner.push(b)
    }

    /// Relies on `BitVec::len`: the number of bits held.
    #[verifier::external_body]
    pub fn len(&self) -> (r: usize)
        ensures
            r == bits_of(*self).len(),
    {
        self.inner.len()
    }

    /// Relies on `BitSlice`'s `Index`: bit `i` of the vector.
    #[verifier::external_body]
    pub fn get_bit(&self, i: usize) -> (r: bool)
        requires
            i < bits_of(*self).len(),
        ensures
            r == bits_of(*self)[i as int],
    {
        self.inner[i]
    }

    /// Relies on `BitVec`'s `PartialEq`, which compares semantically: equal
    /// lengths and equal bits at every index.
    #[verifier::external_body]
    pub fn eq_bits(&self, other: &Bits) -> (r: bool)
        ensures
            r == (bits_of(*self) == bits_of(*other)),
    {
        self.inner == other.inner
    }
}

/// Failures of the coding interface.
#[derive(Clone, Copy, Debug, PartialEq, Eq, Structural)]
pub enum CodingError {
    InvalidNumberOfBits,
    TooManyErrors,
}

/// How many positions of the two equal-length bit sequences differ.
pub open spec fn diff_count(a: Seq<bool>, b: Seq<bool>, n: int) -> int
    decreases n,
{
    if n <= 0 {
        0
    } else {
        diff_count(a, b, n - 1) + if a[n - 1] == b[n - 1] {
            0int
        } else {
            1int
        }
    }
}

/// The eight Hamming code bits of four data bits.
pub open spec fn hamming_code(d: Seq<bool>) -> Seq<bool> {
    seq![
        d[0],
        d[0] != d[1],
        d[1] != d[2],
        (d[0] != d[2]) != d[3],
        d[1] != d[3],
        d[2],
        d[3],
        ((d[0] != d[1]) != d[2]) != d[3],
    ]
}

/// The four syndrome bits of an eight-bit word.
pub open spec fn hamming_syndrome(c: Seq<bool>) -> Seq<bool> {
    seq![
        ((c[2] != c[4]) != c[5]) != c[6],
        ((c[1] != c[3]) != c[4]) != c[5],
        ((c[0] != c[2]) != c[3]) != c[4],
        ((((((c[0] != c[1]) != c[2]) != c[3]) != c[4]) != c[5]) != c[6]) != c[7],
    ]
}

/// Which code bit a nonzero syndrome accuses.
pub open spec fn accused_bit(s: Seq<bool>) -> int {
    if s[0] == false && s[1] == false && s[2] == true {
        0
    } else if s[0] == false && s[1] == true && s[2] == false {
        1
    } else if s[0] == true && s[1] == false && s[2] == true {
        2
    } else if s[0] == false && s[1] == true && s[2] == true {
        3
    } else if s[0] == true && s[1] == true && s[2] == true {
        4
    } else if s[0] == true && s[1] == true && s[2] == false {
        5
    } else if s[0] == true && s[1] == false && s[2] == false {
        6
    } else {
        7
    }
}

/// The corrected word: unchanged for an all-zero syndrome, else with the
/// accused bit flipped.
pub open spec fn corrected_word(c: Seq<bool>, s: Seq<bool>) -> Seq<bool> {
    if s =~= seq![false, false, false, false] {
        c
    } else {
        c.update(accused_bit(s), !c[accused_bit(s)])
    }
}

/// The four data bits recovered from a corrected word.
pub open spec fn recovered_data(c: Seq<bool>) -> Seq<bool> {
    seq![c[0], c[0] != c[1], c[5], c[6]]
}

/// Count the positions where the two words differ; the lengths must agree.
pub fn count_deformed_bits(original: &Bits, deformed: &Bits) -> (r: Result<
    usize,
    CodingError,
>)
    ensures
        r is Ok <==> bits_of(*original).len() == bits_of(*deformed).len(),
        r matches Ok(n) ==> n == diff_count(
            bits_of(*original),
            bits_of(*deformed),
            bits_of(*original).len() as int,
        ),
{
    let n = original.len();
    if n != deformed.len() {
        return Err(CodingError::InvalidNumberOfBits);
    }
    let mut count: usize = 0;
    let mut i: usize = 0;
    while i < n
        invariant
            n == bits_of(*original).len(),
            n == bits_of(*deformed).len(),
            i <= n,
            count <= i,
            count == diff_count(bits_of(*original), bits_of(*deformed), i as int),
        decreases n - i,
    {
        if original.get_bit(i) != deformed.get_bit(i) {
            count = count + 1;
        }
        i = i + 1;
    }
    Ok(count)
}

/// Code four data bits into the eight-bit Hamming word.
pub fn encode(bits: &Bits) -> (r: Result<Bits, CodingError>)
    ensures
        r is Ok <==> bits_of(*bits).len() == 4,
        r matches Ok(c) ==> bits_of(c) == hamming_code(bits_of(*bits)),
{
    if bits.len() != 4 {
        return Err(CodingError::InvalidNumberOfBits);
    }
    let d0 = bits.get_bit(0);
    let d1 = bits.get_bit(1);
    let d2 = bits.get_bit(2);
    let d3 = bits.get_bit(3);
    let mut code = Bits::new();
    code.push(d0);
    code.push(d0 != d1);
    code.push(d1 != d2);
    code.push((d0 != d2) != d3);
    code.push(d1 != d3);
    code.push(d2);
    code.push(d3);
    code.push(((d0 != d1) != d2) != d3);
    proof {
        assert(bits_of(code) =~= hamming_code(bits_of(*bits)));
    }
    Ok(code)
}

/// Compute the four-bit syndrome of an eight-bit word.
pub fn check(code: &Bits) -> (r: Result<Bits, CodingError>)
    ensures
        r is Ok <==> bits_of(*code).len() == 8,
        r matches Ok(s) ==> bits_of(s) == hamming_syndrome(bits_of(*code)),
{
    if code.len() != 8 {
        return Err(CodingError::InvalidNumberOfBits);
    }
    let c0 = code.get_bit(0);
    let c1 = code.get_bit(1);
    let c2 = code.get_bit(2);
    let c3 = code.get_bit(3);
    let c4 = code.get_bit(4);
    let c5 = code.get_bit(5);
    let c6 = code.get_bit(6);
    let c7 = code.get_bit(7);
    let mut syndrome = Bits::new();
    syndrome.push(((c2 != c4) != c5) != c6);
    syndrome.push(((c1 != c3) != c4) != c5);
    syndrome.push(((c0 != c2) != c3) != c4);
    syndrome.push(((((((c0 != c1) != c2) != c3) != c4) != c5) != c6) != c7);
    proof {
        assert(bits_of(syndrome) =~= hamming_syndrome(bits_of(*code)));
    }
    Ok(syndrome)
}

/// Correct the word by its syndrome and recover the four data bits; the
/// second result reports a suspected double error (a nonzero syndrome whose
/// overall parity still checks).
pub fn decode(code: &Bits, syndrome: &Bits) -> (r: Result<(Bits, bool), CodingError>)
    ensures
        r is Ok <==> (bits_of(*code).len() == 8 && bits_of(*syndrome).len() == 4),
        r matches Ok(p) ==> {
            let corr = corrected_word(bits_of(*code), bits_of(*syndrome));
            &&& bits_of(p.0) == recovered_data(corr)
            &&& p.1 == (!(bits_of(*syndrome) =~= seq![false, false, false, false]) && bits_of(
                *syndrome,
            )[3] == false)
        },
{
    if code.len() != 8 || syndrome.len() != 4 {
        return Err(CodingError::InvalidNumberOfBits);
    }
    let s0 = syndrome.get_bit(0);
    let s1 = syndrome.get_bit(1);
    let s2 = syndrome.get_bit(2);
    let s3 = syndrome.get_bit(3);
    let zero = !s0 && !s1 && !s2 && !s3;
    let mut two_errors = false;
    let mut corrected = Bits::new();
    if zero {
        let mut i: usize = 0;
        while i < 8
            invariant
                bits_of(*code).len() == 8,
                i <= 8,
                bits_of(corrected) == bits_of(*code).take(i as int),
            decreases 8 - i,
        {
            proof {
                assert(bits_of(*code).take(i + 1).drop_last() =~= bits_of(*code).take(i as int));
            }
            corrected.push(code.get_bit(i));
            i = i + 1;
        }
        proof {
            assert(bits_of(*code).take(8) =~= bits_of(*code));
            assert(bits_of(*syndrome) =~= seq![false, false, false, false]);
        }
    } else {
        if s3 == false {
            two_errors = true;
        }
        let bit_flipped: usize = if !s0 && !s1 && s2 {
            0
        } else if !s0 && s1 && !s2 {
            1
        } else if s0 && !s1 && s2 {
            2
        } else if !s0 && s1 && s2 {
            3
        } else if s0 && s1 && s2 {
            4
        } else if s0 && s1 && !s2 {
            5
        } else if s0 && !s1 && !s2 {
            6
        } else {
            7
        };
        let mut i: usize = 0;
        while i < 8
            invariant
                bits_of(*code).len() == 8,
                bit_flipped == accused_bit(bits_of(*syndrome)),
                bit_flipped < 8,
                i <= 8,
                bits_of(corrected) == bits_of(*code).update(
                    accused_bit(bits_of(*syndrome)),
                    !bits_of(*code)[accused_bit(bits_of(*syndrome))],
                ).take(i as int),
            decreases 8 - i,
        {
            let ghost target = bits_of(*code).update(
                accused_bit(bits_of(*syndrome)),
                !bits_of(*code)[accused_bit(bits_of(*syndrome))],
            );
            proof {
                assert(target.take(i + 1).drop_last() =~= target.take(i as int));
            }
            if i == bit_flipped {
                corrected.push(!code.get_bit(i));
            } else {
                corrected.push(code.get_bit(i));
            }
            i = i + 1;
        }
        proof {
            let target = bits_of(*code).update(
                accused_bit(bits_of(*syndrome)),
                !bits_of(*code)[accused_bit(bits_of(*syndrome))],
            );
            assert(target.take(8) =~= target);
            assert(!(bits_of(*syndrome) =~= seq![false, false, false, false]));
        }
    }
    let r0 = corrected.get_bit(0);
    let r1 = corrected.get_bit(1);
    let r5 = corrected.get_bit(5);
    let r6 = corrected.get_bit(6);
    let mut data = Bits::new();
    data.push(r0);
    data.push(r0 != r1);
    data.push(r5);
    data.push(r6);
    proof {
        assert(bits_of(data) =~= recovered_data(
            corrected_word(bits_of(*code), bits_of(*syndrome)),
        ));
    }
    Ok((data, two_errors))
}

/// Whether the decoded bits equal the original bits.
pub fn verify(decoded: &Bits, original: &Bits) -> (r: bool)
    ensures
        r == (bits_of(*decoded) == bits_of(*original)),
{
    if decoded.eq_bits(original) {
        true
    } else {
        false
    }
}

} // verus!
