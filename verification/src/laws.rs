//! Properties that relate the coder's functions to one another.

use vstd::prelude::*;
use crate::encoder::encode_spec;
use crate::decoder::{decode_spec, DecodeError};

verus! {

/// Determinism: the coded output is a function of the input byte sequence
/// alone, so encoding the same bytes twice yields byte-identical streams.
pub proof fn lemma_encode_deterministic(a: Seq<u8>, b: Seq<u8>)
    requires
        a == b,
    ensures
        encode_spec(a) == encode_spec(b),
{
}

/// Round-trip on the boundary case: the empty input encodes to a tag-only
/// stream, and decoding any stream to zero symbols recovers the empty input.
pub proof fn lemma_round_trip_empty(input: Seq<u8>)
    requires
        input.len() == 0,
    ensures
        decode_spec(encode_spec(input), input.len() as int) == Ok::<Seq<u8>, DecodeError>(input),
{
    assert(input =~= Seq::<u8>::empty());
}

} // verus!
