//! Occurrence counting over the byte alphabet, the integer core of the
//! entropy statistics.

use vstd::prelude::*;
use vstd::pervasive::VecAdditionalExecFns;

verus! {

/// How often `b` occurs in `s`.
pub open spec fn occurrences_of(s: Seq<u8>, b: u8) -> int
    decreases s.len(),
{
    if s.len() == 0 {
        0
    } else {
        occurrences_of(s.drop_last(), b) + if s.last() == b {
            1int
        } else {
            0int
        }
    }
}

/// Count how often each byte value occurs in `bytes`: entry `b` of the table
/// is the number of occurrences of `b`.
pub fn count_total_occurences_from_bytes(bytes: &[u8]) -> (r: Vec<usize>)
    requires
        bytes@.len() <= usize::MAX,
    ensures
        r@.len() == 256,
        forall|b: int| 0 <= b < 256 ==> #[trigger] r@[b] == occurrences_of(bytes@, b as u8),
{
    let mut r: Vec<usize> = vec![0usize; 256];
    let mut i: usize = 0;
    proof {
        assert forall|b: int| 0 <= b < 256 implies #[trigger] r@[b] == occurrences_of(
            bytes@.take(0),
            b as u8,
        ) by {
            assert(bytes@.take(0) =~= Seq::<u8>::empty());
        }
    }
    while i < bytes.len()
        invariant
            i <= bytes@.len(),
            r@.len() == 256,
            forall|b: int| 0 <= b < 256 ==> #[trigger] r@[b] == occurrences_of(
                bytes@.take(i as int),
                b as u8,
            ),
        decreases bytes@.len() - i,
    {
        let c: u8 = bytes[i];
        proof {
            lemma_occurrences_bound(bytes@.take(i as int), c);
        }
        let old_count: usize = r[c as usize];
        r.set(c as usize, old_count + 1);
        proof {
            assert forall|b: int| 0 <= b < 256 implies #[trigger] r@[b] == occurrences_of(
                bytes@.take(i + 1),
                b as u8,
            ) by {
                assert(bytes@.take(i + 1).drop_last() =~= bytes@.take(i as int));
            }
        }
        i = i + 1;
    }
    proof {
        assert(bytes@.take(bytes@.len() as int) =~= bytes@);
    }
    r
}

proof fn lemma_occurrences_bound(s: Seq<u8>, b: u8)
    ensures
        0 <= occurrences_of(s, b) <= s.len(),
    decreases s.len(),
{
    if s.len() > 0 {
        lemma_occurrences_bound(s.drop_last(), b);
    }
}

} // verus!
