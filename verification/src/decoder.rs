//! The arithmetic decoder: narrows a tag interval bit by bit, retains the
//! symbols whose subintervals overlap it, and whenever exactly one candidate
//! remains emits it, restricts the total interval to its subinterval,
//! renormalizes both intervals in lockstep, and updates the model — exactly
//! as the encoder did. Decoding stops after the declared number of symbols.

use vstd::prelude::*;
use crate::bits::{all_bits, bytes_to_bits, is_bit, unpack_bits};
use crate::interval::{
    dec_scale_all, renormalize_pair, DecScaleState, Endpoints, MAX_HIGH, QUARTER,
};
use crate::model::{
    lemma_sum_prefix_le, lemma_sum_prefix_nonneg, sum_prefix, FrequencyModel,
};
use crate::encoder::MAX_TEXT_LEN;

verus! {

/// Decoding failures: both are fatal and indicate a corrupt stream or a
/// diverged model.
#[derive(Clone, Copy, Debug, PartialEq, Eq, Structural)]
pub enum DecodeError {
    /// No symbol's subinterval overlaps the tag interval.
    NoPossibleSymbol,
    /// The bit source ran out before the declared text length was reached.
    IncompleteStream,
}

/// The decoder's whole state: the model's occurrence counts, the total
/// interval, the tag interval, and the symbols emitted so far.
pub struct DecState {
    pub occ: Seq<u64>,
    pub left: int,
    pub right: int,
    pub tag_left: int,
    pub tag_right: int,
    pub out: Seq<u8>,
}

/// The state before the first bit: fresh model, both intervals the full
/// domain, nothing emitted.
pub open spec fn dec_init() -> DecState {
    DecState {
        occ: Seq::new(256, |i: int| 1u64),
        left: 0,
        right: MAX_HIGH as int,
        tag_left: 0,
        tag_right: MAX_HIGH as int,
        out: Seq::empty(),
    }
}

/// Structural well-formedness of a decoder state.
pub open spec fn dec_wf(s: DecState) -> bool {
    &&& s.occ.len() == 256
    &&& forall|i: int| 0 <= i < 256 ==> #[trigger] s.occ[i] >= 1
    &&& 0 <= s.left < s.right <= MAX_HIGH
    &&& s.left <= s.tag_left < s.tag_right <= s.right
}

/// Boundary `k` of the 256 candidate subintervals derived from the total
/// interval: symbol `k` owns `[bnd(s, k), bnd(s, k + 1))`.
pub open spec fn bnd(s: DecState, k: int) -> int {
    s.left + ((s.right - s.left) * sum_prefix(s.occ, k)) / sum_prefix(s.occ, 256)
}

/// Whether symbol `k`'s subinterval overlaps the tag interval.
pub open spec fn overlaps(s: DecState, k: int) -> bool {
    bnd(s, k) < s.tag_right && bnd(s, k + 1) > s.tag_left
}

/// How many of the symbols below `n` overlap the tag interval.
pub open spec fn count_cands(s: DecState, n: int) -> int
    decreases n,
{
    if n <= 0 {
        0
    } else {
        count_cands(s, n - 1) + if overlaps(s, n - 1) {
            1int
        } else {
            0int
        }
    }
}

/// The least symbol at or above `k` whose subinterval overlaps the tag
/// interval; 256 if none.
pub open spec fn first_cand_from(s: DecState, k: int) -> int
    decreases 256 - k,
{
    if k < 0 || k >= 256 {
        256
    } else if overlaps(s, k) {
        k
    } else {
        first_cand_from(s, k + 1)
    }
}

/// Outcome of running the identification rounds after one bit: corruption,
/// all symbols recovered, or an ambiguous state awaiting the next bit.
pub enum DecRound {
    Failed,
    Done(Seq<u8>),
    More(DecState),
}

/// Run identification rounds until the candidate set is empty (failure),
/// ambiguous (await the next bit), or the output is complete. Each round
/// emits the unique candidate, restricts the total interval to its
/// subinterval, clips the tag to it, renormalizes both in lockstep, and
/// counts the symbol in the model.
pub open spec fn dec_rounds(s: DecState, text_len: int) -> DecRound
    decreases text_len - s.out.len(),
{
    let n = count_cands(s, 256);
    if n == 0 {
        DecRound::Failed
    } else if n >= 2 {
        DecRound::More(s)
    } else {
        let sym = first_cand_from(s, 0);
        let out2 = s.out.push(sym as u8);
        if out2.len() >= text_len {
            DecRound::Done(out2)
        } else {
            let nl = bnd(s, sym);
            let nr = bnd(s, sym + 1);
            let tl = if s.tag_left < nl {
                nl
            } else {
                s.tag_left
            };
            let tr = if s.tag_right > nr {
                nr
            } else {
                s.tag_right
            };
            let sc = dec_scale_all(
                DecScaleState { left: nl, right: nr, tag_left: tl, tag_right: tr },
            );
            dec_rounds(
                DecState {
                    occ: s.occ.update(sym, (s.occ[sym] + 1) as u64),
                    left: sc.left,
                    right: sc.right,
                    tag_left: sc.tag_left,
                    tag_right: sc.tag_right,
                    out: out2,
                },
                text_len,
            )
        }
    }
}

/// Shrink the tag interval to its upper half for bit 1, lower half for bit 0.
pub open spec fn narrow(s: DecState, bit: u8) -> DecState {
    let mid = s.tag_left + (s.tag_right - s.tag_left) / 2;
    if bit == 1 {
        DecState { tag_left: mid, ..s }
    } else {
        DecState { tag_right: mid, ..s }
    }
}

/// Consume bits one by one, running the identification rounds after each,
/// until the output is complete or the stream fails.
pub open spec fn dec_bits(s: DecState, bits: Seq<u8>, text_len: int) -> Result<
    Seq<u8>,
    DecodeError,
>
    decreases bits.len(),
{
    if bits.len() == 0 {
        Err(DecodeError::IncompleteStream)
    } else {
        match dec_rounds(narrow(s, bits[0]), text_len) {
            DecRound::Failed => Err(DecodeError::NoPossibleSymbol),
            DecRound::Done(o) => Ok(o),
            DecRound::More(s2) => dec_bits(s2, bits.skip(1), text_len),
        }
    }
}

/// What decoding the coded bytes to `text_len` symbols yields: the recovered
/// byte sequence, or the error the stream runs into.
pub open spec fn decode_spec(code: Seq<u8>, text_len: int) -> Result<Seq<u8>, DecodeError> {
    if text_len == 0 {
        Ok(Seq::empty())
    } else {
        dec_bits(dec_init(), unpack_bits(code), text_len)
    }
}

proof fn lemma_count_cands_nonneg(s: DecState, n: int)
    ensures
        count_cands(s, n) >= 0,
    decreases n,
{
    if n > 0 {
        lemma_count_cands_nonneg(s, n - 1);
    }
}

proof fn lemma_count_cands_mono(s: DecState, m: int, n: int)
    requires
        m <= n,
    ensures
        count_cands(s, m) <= count_cands(s, n),
    decreases n - m,
{
    if n > m {
        lemma_count_cands_mono(s, m, n - 1);
    }
}

/// Two distinct overlapping symbols put the candidate count at 2 or more.
proof fn lemma_two_cands(s: DecState, a: int, b: int)
    requires
        0 <= a < b < 256,
        overlaps(s, a),
        overlaps(s, b),
    ensures
        count_cands(s, 256) >= 2,
{
    lemma_count_cands_nonneg(s, a);
    lemma_count_cands_mono(s, a + 1, b);
    lemma_count_cands_mono(s, b + 1, 256);
}

/// A candidate count of at least 1 means some symbol overlaps.
proof fn lemma_count_implies_exists(s: DecState, n: int)
    requires
        count_cands(s, n) >= 1,
    ensures
        exists|j: int| 0 <= j < n && overlaps(s, j),
    decreases n,
{
    if n > 0 {
        if overlaps(s, n - 1) {
        } else {
            lemma_count_implies_exists(s, n - 1);
        }
    }
}

/// A candidate count of at least 2 means two distinct symbols overlap.
proof fn lemma_count_implies_two(s: DecState, n: int)
    requires
        count_cands(s, n) >= 2,
    ensures
        exists|j: int, k: int| 0 <= j < k < n && overlaps(s, j) && overlaps(s, k),
    decreases n,
{
    if n > 0 {
        if overlaps(s, n - 1) {
            lemma_count_implies_exists(s, n - 1);
            let j = choose|j: int| 0 <= j < n - 1 && overlaps(s, j);
            assert(0 <= j < n - 1 && overlaps(s, j) && overlaps(s, n - 1));
        } else {
            lemma_count_implies_two(s, n - 1);
        }
    }
}

/// If nothing below `f` overlaps and `f` does, the first candidate is `f`.
proof fn lemma_first_cand_is(s: DecState, k: int, f: int)
    requires
        0 <= k <= f < 256,
        overlaps(s, f),
        forall|m: int| k <= m < f ==> !overlaps(s, m),
    ensures
        first_cand_from(s, k) == f,
    decreases f - k,
{
    if k < f {
        lemma_first_cand_is(s, k + 1, f);
    }
}

/// Subinterval boundaries grow with the symbol index.
proof fn lemma_bnd_monotone(s: DecState, j: int, k: int)
    requires
        dec_wf(s),
        0 <= j <= k,
    ensures
        bnd(s, j) <= bnd(s, k),
{
    let w = s.right - s.left;
    let t = sum_prefix(s.occ, 256);
    crate::model::lemma_sum_prefix_pos(s.occ, 256);
    lemma_sum_prefix_le(s.occ, j, k);
    assert(w * sum_prefix(s.occ, j) <= w * sum_prefix(s.occ, k)) by (nonlinear_arith)
        requires
            w >= 0,
            sum_prefix(s.occ, j) <= sum_prefix(s.occ, k),
    ;
    vstd::arithmetic::div_mod::lemma_div_is_ordered(
        w * sum_prefix(s.occ, j),
        w * sum_prefix(s.occ, k),
        t,
    );
}

/// With two or more candidates the tag interval is at least two units wide,
/// so it can be narrowed further.
proof fn lemma_ambiguous_tag_wide(s: DecState)
    requires
        dec_wf(s),
        count_cands(s, 256) >= 2,
    ensures
        s.tag_right - s.tag_left >= 2,
{
    lemma_count_implies_two(s, 256);
    let (j, k) = choose|j: int, k: int| 0 <= j < k < 256 && overlaps(s, j) && overlaps(s, k);
    lemma_bnd_monotone(s, j + 1, k);
    assert(s.tag_left < bnd(s, j + 1) <= bnd(s, k) < s.tag_right);
}

/// Decode `code` into the `text_len` symbols it encodes. Succeeds with the
/// recovered bytes exactly when the state machine completes; fails with
/// `NoPossibleSymbol` when no candidate survives a bit, and with
/// `IncompleteStream` when the bits run out first.
pub fn decode(code: &Vec<u8>, text_len: u64) -> (r: Result<Vec<u8>, DecodeError>)
    requires
        text_len <= MAX_TEXT_LEN as u64,
    ensures
        (match (r, decode_spec(code@, text_len as int)) {
            (Ok(v), Ok(sv)) => v@ == sv,
            (Err(e), Err(se)) => e == se,
            _ => false,
        }),
        r matches Ok(v) ==> v@.len() == text_len,
{
    if text_len == 0 {
        let empty: Vec<u8> = Vec::new();
        return Ok(empty);
    }
    let bitv = bytes_to_bits(code.as_slice());
    let ghost allbits = bitv@;
    let ghost target = decode_spec(code@, text_len as int);
    let mut model = FrequencyModel::init();
    let mut cum = model.cumulative();
    let mut iv = Endpoints::full();
    let mut tag = Endpoints::full();
    let mut out: Vec<u8> = Vec::new();
    let mut bi: usize = 0;
    proof {
        let s0 = dec_init();
        assert(cur_state(&model, &iv, &tag, &out) == s0);
        crate::model::lemma_sum_prefix_all_ones(s0.occ, 1);
        crate::model::lemma_sum_prefix_all_ones(s0.occ, 255);
        crate::model::lemma_sum_prefix_all_ones(s0.occ, 256);
        assert(sum_prefix(s0.occ, 0) == 0);
        assert(bnd(s0, 0) == 0 + (0x1_0000_0000 * 0) / 256);
        assert(bnd(s0, 1) == 0 + (0x1_0000_0000 * 1) / 256);
        assert(bnd(s0, 255) == 0 + (0x1_0000_0000 * 255) / 256);
        assert(bnd(s0, 256) == 0 + (0x1_0000_0000 * 256) / 256);
        assert((0x1_0000_0000 * 0) / 256 == 0);
        assert((0x1_0000_0000 * 1) / 256 == 0x100_0000);
        assert((0x1_0000_0000 * 255) / 256 == 0xFF00_0000);
        assert((0x1_0000_0000 * 256) / 256 == 0x1_0000_0000);
        assert(overlaps(s0, 0));
        assert(overlaps(s0, 255));
        lemma_two_cands(s0, 0, 255);
        assert(allbits.skip(0) =~= allbits);
    }
    while bi < bitv.len()
        invariant
            text_len <= MAX_TEXT_LEN as u64,
            0 < text_len,
            bi <= bitv@.len(),
            bitv@ == allbits,
            all_bits(allbits),
            model.wf(),
            model.total_count() == 256 + out@.len(),
            out@.len() < text_len,
            cum@.len() == 257,
            forall|k: int| 0 <= k < 257 ==> #[trigger] cum@[k] == sum_prefix(model.counts(), k),
            iv.wf(),
            iv.width() > QUARTER,
            iv.left <= tag.left,
            tag.left < tag.right,
            tag.right <= iv.right,
            count_cands(cur_state(&model, &iv, &tag, &out), 256) >= 2,
            dec_bits(
                cur_state(&model, &iv, &tag, &out),
                allbits.skip(bi as int),
                text_len as int,
            ) == target,
            target == decode_spec(code@, text_len as int),
        decreases bitv@.len() - bi,
    {
        let ghost pre = cur_state(&model, &iv, &tag, &out);
        proof {
            lemma_ambiguous_tag_wide(pre);
            assert(allbits.skip(bi as int).len() > 0);
            assert(allbits.skip(bi as int)[0] == allbits[bi as int]);
        }
        let bit: u8 = bitv[bi];
        let mid: u64 = tag.left + (tag.right - tag.left) / 2;
        if bit == 1 {
            tag.left = mid;
        } else {
            tag.right = mid;
        }
        proof {
            assert(cur_state(&model, &iv, &tag, &out) == narrow(pre, allbits[bi as int]));
            assert(allbits.skip(bi as int).skip(1) =~= allbits.skip(bi + 1));
        }
        loop
            invariant
                text_len <= MAX_TEXT_LEN as u64,
                0 < text_len,
                bi < allbits.len(),
                bitv@ == allbits,
                all_bits(allbits),
                model.wf(),
                model.total_count() == 256 + out@.len(),
                out@.len() < text_len,
                cum@.len() == 257,
                forall|k: int| 0 <= k < 257 ==> #[trigger] cum@[k] == sum_prefix(
                    model.counts(),
                    k,
                ),
                iv.wf(),
                iv.width() > QUARTER,
                iv.left <= tag.left,
                tag.left < tag.right,
                tag.right <= iv.right,
                (match dec_rounds(cur_state(&model, &iv, &tag, &out), text_len as int) {
                    DecRound::Failed => Err::<Seq<u8>, DecodeError>(DecodeError::NoPossibleSymbol),
                    DecRound::Done(o) => Ok::<Seq<u8>, DecodeError>(o),
                    DecRound::More(s2) => dec_bits(
                        s2,
                        allbits.skip(bi + 1),
                        text_len as int,
                    ),
                }) == target,
                target == decode_spec(code@, text_len as int),
            ensures
                model.wf(),
                model.total_count() == 256 + out@.len(),
                out@.len() < text_len,
                cum@.len() == 257,
                forall|k: int| 0 <= k < 257 ==> #[trigger] cum@[k] == sum_prefix(
                    model.counts(),
                    k,
                ),
                iv.wf(),
                iv.width() > QUARTER,
                iv.left <= tag.left,
                tag.left < tag.right,
                tag.right <= iv.right,
                count_cands(cur_state(&model, &iv, &tag, &out), 256) >= 2,
                dec_bits(
                    cur_state(&model, &iv, &tag, &out),
                    allbits.skip(bi + 1),
                    text_len as int,
                ) == target,
            decreases text_len - out@.len(),
        {
            let ghost st = cur_state(&model, &iv, &tag, &out);
            let total: u64 = model.total();
            let w: u64 = iv.right - iv.left;
            // scan the 256 candidate subintervals for overlap with the tag
            let mut count: usize = 0;
            let mut first: usize = 256;
            let mut k: usize = 0;
            while k < 256
                invariant
                    model.wf(),
                    model.total_count() == 256 + out@.len(),
                    out@.len() < text_len <= MAX_TEXT_LEN as u64,
                    cum@.len() == 257,
                    forall|j: int| 0 <= j < 257 ==> #[trigger] cum@[j] == sum_prefix(
                        model.counts(),
                        j,
                    ),
                    iv.wf(),
                    iv.left <= tag.left,
                    tag.left < tag.right,
                    tag.right <= iv.right,
                    st == cur_state(&model, &iv, &tag, &out),
                    total == model.total_count(),
                    w == iv.width(),
                    k <= 256,
                    count <= k,
                    count == count_cands(st, k as int),
                    count > 0 ==> (first < 256 && overlaps(st, first as int) && first
                        == first_cand_from(st, 0) && first < k),
                    count == 0 ==> (first == 256 && forall|m: int|
                        0 <= m < k ==> !overlaps(st, m)),
                decreases 256 - k,
            {
                proof {
                    lemma_sum_prefix_nonneg(model.counts(), k as int);
                    lemma_sum_prefix_nonneg(model.counts(), k as int + 1);
                    lemma_sum_prefix_le(model.counts(), k as int, 256);
                    lemma_sum_prefix_le(model.counts(), k as int + 1, 256);
                    crate::model::lemma_sum_prefix_pos(model.counts(), 256);
                    assert((w as int) * cum@[k as int] <= (w as int) * cum@[k as int + 1]
                        <= (w as int) * (total as int) <= 0x1_0000_0000 * 0x4000_0000)
                        by (nonlinear_arith)
                        requires
                            0 <= cum@[k as int] <= cum@[k as int + 1] <= total as int
                                <= 0x4000_0000,
                            0 <= w as int <= 0x1_0000_0000,
                    ;
                    vstd::arithmetic::div_mod::lemma_div_pos_is_pos(
                        (w as int) * cum@[k as int],
                        total as int,
                    );
                    vstd::arithmetic::div_mod::lemma_div_pos_is_pos(
                        (w as int) * cum@[k as int + 1],
                        total as int,
                    );
                    vstd::arithmetic::div_mod::lemma_div_is_ordered(
                        (w as int) * cum@[k as int],
                        (w as int) * (total as int),
                        total as int,
                    );
                    vstd::arithmetic::div_mod::lemma_div_is_ordered(
                        (w as int) * cum@[k as int + 1],
                        (w as int) * (total as int),
                        total as int,
                    );
                    vstd::arithmetic::div_mod::lemma_div_multiples_vanish(
                        w as int,
                        total as int,
                    );
                    assert((w as int) * (total as int) == (total as int) * (w as int))
                        by (nonlinear_arith);
                }
                let lo: u64 = iv.left + (w * cum[k]) / total;
                let hi: u64 = iv.left + (w * cum[k + 1]) / total;
                if lo < tag.right && hi > tag.left {
                    proof {
                        assert(overlaps(st, k as int));
                        if count == 0 {
                            lemma_first_cand_is(st, 0, k as int);
                        }
                    }
                    if count == 0 {
                        first = k;
                    }
                    count = count + 1;
                } else {
                    proof {
                        assert(!overlaps(st, k as int));
                    }
                }
                k = k + 1;
            }
            if count == 0 {
                proof {
                    assert(dec_rounds(st, text_len as int) == DecRound::Failed);
                }
                return Err(DecodeError::NoPossibleSymbol);
            }
            if count >= 2 {
                proof {
                    assert(dec_rounds(st, text_len as int) == DecRound::More(st));
                }
                break;
            }
            // exactly one candidate: emit it and restrict the interval
            let sym: usize = first;
            out.push(sym as u8);
            let ghost out2 = out@;
            if out.len() as u64 == text_len {
                proof {
                    assert(dec_rounds(st, text_len as int) == DecRound::Done(out2));
                }
                return Ok(out);
            }
            proof {
                lemma_sum_prefix_le(model.counts(), sym as int + 1, 256);
                lemma_sum_prefix_nonneg(model.counts(), sym as int);
            }
            let low_s: u64 = cum[sym];
            let high_s: u64 = cum[sym + 1];
            iv.subdivide(low_s, high_s, total);
            proof {
                assert(iv.left == bnd(st, sym as int));
                assert(iv.right == bnd(st, sym as int + 1));
            }
            // clip the tag to the restricted interval
            if tag.left < iv.left {
                tag.left = iv.left;
            }
            if tag.right > iv.right {
                tag.right = iv.right;
            }
            renormalize_pair(&mut iv, &mut tag);
            model.update(sym as u8);
            cum = model.cumulative();
            proof {
                let post = cur_state(&model, &iv, &tag, &out);
                assert(post.occ == st.occ.update(sym as int, (st.occ[sym as int] + 1) as u64));
                assert(post.out == out2);
                assert(dec_rounds(st, text_len as int) == dec_rounds(post, text_len as int));
            }
        }
        bi = bi + 1;
    }
    proof {
        assert(allbits.skip(bi as int).len() == 0);
    }
    Err(DecodeError::IncompleteStream)
}

/// The spec-level state assembled from the decoder's executable pieces.
pub open spec fn cur_state(
    model: &FrequencyModel,
    iv: &Endpoints,
    tag: &Endpoints,
    out: &Vec<u8>,
) -> DecState {
    DecState {
        occ: model.counts(),
        left: iv.left as int,
        right: iv.right as int,
        tag_left: tag.left as int,
        tag_right: tag.right as int,
        out: out@,
    }
}

} // verus!
