//! The finite-precision interval engine shared by encoder and decoder:
//! subdivision of the working interval in proportion to a symbol's cumulative
//! range, and the three renormalization cases (lower half, upper half, and
//! middle straddle with deferred "pending" bits).

use vstd::prelude::*;
use crate::bits::{all_bits, is_bit};

verus! {

/// Domain width: intervals live in `[0, 2^32)`.
pub const MAX_HIGH: u64 = 0x1_0000_0000;

/// Midpoint of the domain.
pub const HALF: u64 = 0x8000_0000;

/// First quartile of the domain.
pub const QUARTER: u64 = 0x4000_0000;

/// Third quartile of the domain.
pub const THREE_QUARTERS: u64 = 0xC000_0000;

/// Bit width of the domain; also the length of the final tag.
pub const INTERVAL_BITS: usize = 32;

/// A half-open interval `[left, right)` within the coder's domain.
#[derive(Clone, Copy, Debug, PartialEq, Eq, Structural)]
pub struct Endpoints {
    pub left: u64,
    pub right: u64,
}

impl Endpoints {
    /// Nonempty and inside the domain.
    pub open spec fn wf(&self) -> bool {
        self.left < self.right && self.right <= MAX_HIGH
    }

    pub open spec fn width(&self) -> int {
        self.right - self.left
    }

    /// The whole domain `[0, 2^32)`.
    pub fn full() -> (r: Endpoints)
        ensures
            r.left == 0,
            r.right == MAX_HIGH,
            r.wf(),
    {
        Endpoints { left: 0, right: MAX_HIGH }
    }
}

/// Scale toward the lower half: applies when the interval sits in `[0, W/2]`.
pub open spec fn scale_lower_applies(l: int, r: int) -> bool {
    r <= HALF
}

/// Scale toward the upper half: applies when the interval sits in `[W/2, W)`.
pub open spec fn scale_upper_applies(l: int, r: int) -> bool {
    l >= HALF
}

/// Middle straddle: applies when the interval sits in `[W/4, 3W/4]`.
pub open spec fn scale_middle_applies(l: int, r: int) -> bool {
    l >= QUARTER && r <= THREE_QUARTERS
}

/// Interval bounds that are legal for renormalization.
pub open spec fn scale_valid(l: int, r: int) -> bool {
    0 <= l && l < r && r <= MAX_HIGH
}

/// Encoder-side renormalization state: the interval, the pending-bit counter,
/// and the bits emitted so far.
pub struct ScaleState {
    pub left: int,
    pub right: int,
    pub pending: int,
    pub bits: Seq<u8>,
}

/// The bits written by one lower/upper rescale: the deciding bit followed by
/// `pending` bits of the opposite polarity.
pub open spec fn emitted(bit: u8, pending: int) -> Seq<u8> {
    seq![bit] + Seq::new(pending as nat, |i: int| (1 - bit) as u8)
}

/// Renormalize until none of the three scaling cases applies, accumulating
/// the emitted bits; the middle case defers its output by incrementing
/// `pending` instead.
pub open spec fn scale_all(s: ScaleState) -> ScaleState
    decreases MAX_HIGH - (s.right - s.left),
{
    if !scale_valid(s.left, s.right) {
        s
    } else if scale_lower_applies(s.left, s.right) {
        scale_all(
            ScaleState {
                left: 2 * s.left,
                right: 2 * s.right,
                pending: 0,
                bits: s.bits + emitted(0, s.pending),
            },
        )
    } else if scale_upper_applies(s.left, s.right) {
        scale_all(
            ScaleState {
                left: 2 * s.left - MAX_HIGH,
                right: 2 * s.right - MAX_HIGH,
                pending: 0,
                bits: s.bits + emitted(1, s.pending),
            },
        )
    } else if scale_middle_applies(s.left, s.right) {
        scale_all(
            ScaleState {
                left: 2 * s.left - HALF,
                right: 2 * s.right - HALF,
                pending: s.pending + 1,
                bits: s.bits,
            },
        )
    } else {
        s
    }
}

/// After renormalization the interval is valid, wider than a quarter of the
/// domain, no case applies any more, the old bit stream is a prefix of the
/// new one, and only bits were appended.
pub proof fn lemma_scale_all_props(s: ScaleState)
    requires
        scale_valid(s.left, s.right),
        s.pending >= 0,
        all_bits(s.bits),
    ensures
        scale_valid(scale_all(s).left, scale_all(s).right),
        !scale_lower_applies(scale_all(s).left, scale_all(s).right),
        !scale_upper_applies(scale_all(s).left, scale_all(s).right),
        !scale_middle_applies(scale_all(s).left, scale_all(s).right),
        scale_all(s).right - scale_all(s).left > QUARTER,
        scale_all(s).pending >= 0,
        scale_all(s).bits.len() >= s.bits.len(),
        scale_all(s).bits.take(s.bits.len() as int) == s.bits,
        all_bits(scale_all(s).bits),
    decreases MAX_HIGH - (s.right - s.left),
{
    if scale_lower_applies(s.left, s.right) || scale_upper_applies(s.left, s.right)
        || scale_middle_applies(s.left, s.right) {
        let s2 = if scale_lower_applies(s.left, s.right) {
            ScaleState {
                left: 2 * s.left,
                right: 2 * s.right,
                pending: 0,
                bits: s.bits + emitted(0, s.pending),
            }
        } else if scale_upper_applies(s.left, s.right) {
            ScaleState {
                left: 2 * s.left - MAX_HIGH,
                right: 2 * s.right - MAX_HIGH,
                pending: 0,
                bits: s.bits + emitted(1, s.pending),
            }
        } else {
            ScaleState {
                left: 2 * s.left - HALF,
                right: 2 * s.right - HALF,
                pending: s.pending + 1,
                bits: s.bits,
            }
        };
        assert(scale_valid(s2.left, s2.right));
        assert(all_bits(s2.bits));
        lemma_scale_all_props(s2);
        assert(scale_all(s) == scale_all(s2));
        assert(scale_all(s2).bits.take(s.bits.len() as int) =~= s.bits);
    } else {
        assert(scale_all(s) == s);
        assert(s.right - s.left > QUARTER) by {
            if s.right - s.left <= QUARTER {
                if s.right <= HALF {
                } else if s.left >= HALF {
                } else {
                    assert(s.left > s.right - QUARTER - 1);
                }
            }
        }
        assert(s.bits.take(s.bits.len() as int) =~= s.bits);
    }
}

impl Endpoints {
    /// Restrict the interval to the subinterval proportional to the cumulative
    /// range `[low, high)` out of `total`.
    pub fn subdivide(&mut self, low: u64, high: u64, total: u64)
        requires
            old(self).wf(),
            old(self).width() > QUARTER,
            low < high,
            high <= total,
            0 < total <= QUARTER,
        ensures
            final(self).left == old(self).left + (old(self).width() * low) / (total as int),
            final(self).right == old(self).left + (old(self).width() * high) / (total as int),
            final(self).wf(),
            old(self).left <= final(self).left,
            final(self).right <= old(self).right,
    {
        let len: u64 = self.right - self.left;
        proof {
            let leni = len as int;
            let t = total as int;
            assert(leni * low <= leni * high <= leni * t <= 0x1_0000_0000 * 0x4000_0000)
                by (nonlinear_arith)
                requires
                    0 <= low <= high <= t <= 0x4000_0000,
                    0 <= leni <= 0x1_0000_0000,
            ;
            vstd::arithmetic::div_mod::lemma_div_pos_is_pos(leni * low, t);
            vstd::arithmetic::div_mod::lemma_div_is_ordered(leni * low, leni * high, t);
            vstd::arithmetic::div_mod::lemma_div_is_ordered(leni * high, leni * t, t);
            vstd::arithmetic::div_mod::lemma_div_multiples_vanish(leni, t);
            assert(leni * t == t * leni) by (nonlinear_arith);
            // the subinterval is nonempty because the width is at least `total`
            assert(leni * high >= leni * low + leni) by (nonlinear_arith)
                requires
                    low + 1 <= high,
                    leni >= 0,
            ;
            vstd::arithmetic::div_mod::lemma_hoist_over_denominator(leni * low, 1, total as nat);
            vstd::arithmetic::div_mod::lemma_div_is_ordered(leni * low + t, leni * high, t);
        }
        let new_left: u64 = self.left + (len * low) / total;
        let new_right: u64 = self.left + (len * high) / total;
        self.left = new_left;
        self.right = new_right;
    }

    /// Encoder-side renormalization: rescale until no case applies, appending
    /// the emitted bits and updating the pending-bit counter.
    pub fn renormalize(&mut self, pending: &mut u64, bits: &mut Vec<u8>)
        requires
            old(self).wf(),
            *old(pending) <= u64::MAX - 34,
            all_bits(old(bits)@),
        ensures
            (ScaleState {
                left: final(self).left as int,
                right: final(self).right as int,
                pending: *final(pending) as int,
                bits: final(bits)@,
            }) == scale_all(
                ScaleState {
                    left: old(self).left as int,
                    right: old(self).right as int,
                    pending: *old(pending) as int,
                    bits: old(bits)@,
                },
            ),
            final(self).wf(),
            final(self).width() > QUARTER,
            *final(pending) <= *old(pending) + 34,
            all_bits(final(bits)@),
            final(bits)@.len() >= old(bits)@.len(),
            final(bits)@.take(old(bits)@.len() as int) == old(bits)@,
    {
        let ghost orig = ScaleState {
            left: old(self).left as int,
            right: old(self).right as int,
            pending: *old(pending) as int,
            bits: old(bits)@,
        };
        let ghost mut fuel: nat = 33;
        proof {
            vstd::arithmetic::power2::lemma2_to64();
            vstd::arithmetic::power2::lemma2_to64_rest();
            assert((orig.right - orig.left) * vstd::arithmetic::power2::pow2(33) > HALF)
                by (nonlinear_arith)
                requires
                    orig.right - orig.left >= 1,
                    vstd::arithmetic::power2::pow2(33) == 0x2_0000_0000,
            ;
        }
        loop
            invariant
                self.wf(),
                all_bits(bits@),
                scale_all(
                    ScaleState {
                        left: self.left as int,
                        right: self.right as int,
                        pending: *pending as int,
                        bits: bits@,
                    },
                ) == scale_all(orig),
                (self.width()) * vstd::arithmetic::power2::pow2(fuel) > HALF,
                *pending <= orig.pending + (33 - fuel),
                fuel <= 33,
                orig.pending <= u64::MAX - 34,
                bits@.len() >= orig.bits.len(),
                bits@.take(orig.bits.len() as int) == orig.bits,
            ensures
                self.wf(),
                all_bits(bits@),
                !scale_lower_applies(self.left as int, self.right as int),
                !scale_upper_applies(self.left as int, self.right as int),
                !scale_middle_applies(self.left as int, self.right as int),
                (ScaleState {
                    left: self.left as int,
                    right: self.right as int,
                    pending: *pending as int,
                    bits: bits@,
                }) == scale_all(orig),
                *pending <= orig.pending + 34,
                bits@.len() >= orig.bits.len(),
                bits@.take(orig.bits.len() as int) == orig.bits,
            decreases MAX_HIGH - self.width(),
        {
            let ghost cur = ScaleState {
                left: self.left as int,
                right: self.right as int,
                pending: *pending as int,
                bits: bits@,
            };
            if self.right <= HALF || self.left >= HALF {
                let bit: u8 = if self.right <= HALF {
                    0
                } else {
                    1
                };
                if self.right <= HALF {
                    self.left = 2 * self.left;
                    self.right = 2 * self.right;
                } else {
                    self.left = 2 * self.left - MAX_HIGH;
                    self.right = 2 * self.right - MAX_HIGH;
                }
                bits.push(bit);
                let opposite: u8 = 1 - bit;
                let mut k: u64 = 0;
                let n: u64 = *pending;
                while k < n
                    invariant
                        k <= n,
                        bits@ == cur.bits + emitted(if (cur.right <= HALF) {
                            0u8
                        } else {
                            1u8
                        }, k as int),
                        all_bits(bits@),
                        opposite == 1 - (if (cur.right <= HALF) {
                            0u8
                        } else {
                            1u8
                        }),
                    decreases n - k,
                {
                    bits.push(opposite);
                    proof {
                        let b: u8 = if cur.right <= HALF {
                            0u8
                        } else {
                            1u8
                        };
                        assert(bits@ =~= cur.bits + emitted(b, k + 1));
                    }
                    k = k + 1;
                }
                *pending = 0;
                proof {
                    if cur.right <= HALF {
                        assert(bits@ =~= cur.bits + emitted(0, cur.pending));
                    } else {
                        assert(bits@ =~= cur.bits + emitted(1, cur.pending));
                    }
                }
            } else if self.left >= QUARTER && self.right <= THREE_QUARTERS {
                self.left = 2 * self.left - HALF;
                self.right = 2 * self.right - HALF;
                *pending = *pending + 1;
            } else {
                proof {
                    lemma_scale_all_props(cur);
                }
                break;
            }
            proof {
                assert(cur.right - cur.left <= HALF);
                vstd::arithmetic::power2::lemma2_to64();
                vstd::arithmetic::power2::lemma2_to64_rest();
            vstd::arithmetic::power2::lemma2_to64_rest();
                if fuel == 0 {
                    assert((cur.right - cur.left) * 1 == cur.right - cur.left)
                        by (nonlinear_arith);
                    assert(false);
                }
                vstd::arithmetic::power2::lemma_pow2_unfold(fuel);
                assert((2 * (cur.right - cur.left)) * vstd::arithmetic::power2::pow2(
                    (fuel - 1) as nat,
                ) == (cur.right - cur.left) * vstd::arithmetic::power2::pow2(fuel))
                    by (nonlinear_arith)
                    requires
                        vstd::arithmetic::power2::pow2(fuel) == 2
                            * vstd::arithmetic::power2::pow2((fuel - 1) as nat),
                ;
                fuel = (fuel - 1) as nat;
                assert(bits@.take(orig.bits.len() as int) =~= cur.bits.take(
                    orig.bits.len() as int,
                ));
            }
        }
    }
}

/// Decoder-side renormalization state: the total interval and the tag
/// interval, rescaled in lockstep.
pub struct DecScaleState {
    pub left: int,
    pub right: int,
    pub tag_left: int,
    pub tag_right: int,
}

/// Renormalize the total interval until no case applies, applying the same
/// affine maps to the tag interval; no bits are emitted on this side.
pub open spec fn dec_scale_all(s: DecScaleState) -> DecScaleState
    decreases MAX_HIGH - (s.right - s.left),
{
    if !scale_valid(s.left, s.right) {
        s
    } else if scale_lower_applies(s.left, s.right) {
        dec_scale_all(
            DecScaleState {
                left: 2 * s.left,
                right: 2 * s.right,
                tag_left: 2 * s.tag_left,
                tag_right: 2 * s.tag_right,
            },
        )
    } else if scale_upper_applies(s.left, s.right) {
        dec_scale_all(
            DecScaleState {
                left: 2 * s.left - MAX_HIGH,
                right: 2 * s.right - MAX_HIGH,
                tag_left: 2 * s.tag_left - MAX_HIGH,
                tag_right: 2 * s.tag_right - MAX_HIGH,
            },
        )
    } else if scale_middle_applies(s.left, s.right) {
        dec_scale_all(
            DecScaleState {
                left: 2 * s.left - HALF,
                right: 2 * s.right - HALF,
                tag_left: 2 * s.tag_left - HALF,
                tag_right: 2 * s.tag_right - HALF,
            },
        )
    } else {
        s
    }
}

/// Lockstep renormalization preserves validity of both intervals and the
/// containment of the tag in the total interval.
pub proof fn lemma_dec_scale_all_props(s: DecScaleState)
    requires
        scale_valid(s.left, s.right),
        s.left <= s.tag_left < s.tag_right,
        s.tag_right <= s.right,
    ensures
        scale_valid(dec_scale_all(s).left, dec_scale_all(s).right),
        !scale_lower_applies(dec_scale_all(s).left, dec_scale_all(s).right),
        !scale_upper_applies(dec_scale_all(s).left, dec_scale_all(s).right),
        !scale_middle_applies(dec_scale_all(s).left, dec_scale_all(s).right),
        dec_scale_all(s).right - dec_scale_all(s).left > QUARTER,
        dec_scale_all(s).left <= dec_scale_all(s).tag_left < dec_scale_all(s).tag_right,
        dec_scale_all(s).tag_right <= dec_scale_all(s).right,
    decreases MAX_HIGH - (s.right - s.left),
{
    if scale_lower_applies(s.left, s.right) {
        lemma_dec_scale_all_props(
            DecScaleState {
                left: 2 * s.left,
                right: 2 * s.right,
                tag_left: 2 * s.tag_left,
                tag_right: 2 * s.tag_right,
            },
        );
    } else if scale_upper_applies(s.left, s.right) {
        lemma_dec_scale_all_props(
            DecScaleState {
                left: 2 * s.left - MAX_HIGH,
                right: 2 * s.right - MAX_HIGH,
                tag_left: 2 * s.tag_left - MAX_HIGH,
                tag_right: 2 * s.tag_right - MAX_HIGH,
            },
        );
    } else if scale_middle_applies(s.left, s.right) {
        lemma_dec_scale_all_props(
            DecScaleState {
                left: 2 * s.left - HALF,
                right: 2 * s.right - HALF,
                tag_left: 2 * s.tag_left - HALF,
                tag_right: 2 * s.tag_right - HALF,
            },
        );
    } else {
        assert(s.right - s.left > QUARTER) by {
            if s.right - s.left <= QUARTER {
                if s.right <= HALF {
                } else if s.left >= HALF {
                } else {
                    assert(s.left > s.right - QUARTER - 1);
                }
            }
        }
    }
}

/// Decoder-side lockstep renormalization of the total and the tag interval.
pub fn renormalize_pair(iv: &mut Endpoints, tag: &mut Endpoints)
    requires
        old(iv).wf(),
        old(iv).left <= old(tag).left,
        old(tag).left < old(tag).right,
        old(tag).right <= old(iv).right,
    ensures
        (DecScaleState {
            left: final(iv).left as int,
            right: final(iv).right as int,
            tag_left: final(tag).left as int,
            tag_right: final(tag).right as int,
        }) == dec_scale_all(
            DecScaleState {
                left: old(iv).left as int,
                right: old(iv).right as int,
                tag_left: old(tag).left as int,
                tag_right: old(tag).right as int,
            },
        ),
        final(iv).wf(),
        final(iv).width() > QUARTER,
        final(iv).left <= final(tag).left,
        final(tag).left < final(tag).right,
        final(tag).right <= final(iv).right,
{
    let ghost orig = DecScaleState {
        left: old(iv).left as int,
        right: old(iv).right as int,
        tag_left: old(tag).left as int,
        tag_right: old(tag).right as int,
    };
    loop
        invariant
            iv.wf(),
            iv.left <= tag.left,
            tag.left < tag.right,
            tag.right <= iv.right,
            dec_scale_all(
                DecScaleState {
                    left: iv.left as int,
                    right: iv.right as int,
                    tag_left: tag.left as int,
                    tag_right: tag.right as int,
                },
            ) == dec_scale_all(orig),
        ensures
            iv.wf(),
            iv.left <= tag.left,
            tag.left < tag.right,
            tag.right <= iv.right,
            (DecScaleState {
                left: iv.left as int,
                right: iv.right as int,
                tag_left: tag.left as int,
                tag_right: tag.right as int,
            }) == dec_scale_all(orig),
            !scale_lower_applies(iv.left as int, iv.right as int),
            !scale_upper_applies(iv.left as int, iv.right as int),
            !scale_middle_applies(iv.left as int, iv.right as int),
            iv.width() > QUARTER,
        decreases MAX_HIGH - iv.width(),
    {
        let ghost cur = DecScaleState {
            left: iv.left as int,
            right: iv.right as int,
            tag_left: tag.left as int,
            tag_right: tag.right as int,
        };
        if iv.right <= HALF {
            iv.left = 2 * iv.left;
            iv.right = 2 * iv.right;
            tag.left = 2 * tag.left;
            tag.right = 2 * tag.right;
        } else if iv.left >= HALF {
            iv.left = 2 * iv.left - MAX_HIGH;
            iv.right = 2 * iv.right - MAX_HIGH;
            tag.left = 2 * tag.left - MAX_HIGH;
            tag.right = 2 * tag.right - MAX_HIGH;
        } else if iv.left >= QUARTER && iv.right <= THREE_QUARTERS {
            iv.left = 2 * iv.left - HALF;
            iv.right = 2 * iv.right - HALF;
            tag.left = 2 * tag.left - HALF;
            tag.right = 2 * tag.right - HALF;
        } else {
            proof {
                lemma_dec_scale_all_props(cur);
            }
            break;
        }
    }
}

} // verus!
