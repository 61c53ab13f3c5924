//! Zigzag diagonal scan of a pixel array: diagonals in order of their index
//! sum, even diagonals walked top-down, odd ones bottom-up, and its inverse.

use vstd::prelude::*;
use crate::colour::Colour;
use crate::predictor::{grid_view, rectangular};
use vstd::pervasive::VecAdditionalExecFns;

verus! {

/// The cells of diagonal `k` (all `(i, j)` with `i + j == k`) in traversal
/// order: rising `i` for even `k`, falling `i` for odd `k`.
pub open spec fn diag_cells(h: int, w: int, k: int) -> Seq<(int, int)> {
    let lo = if k - w + 1 > 0 {
        k - w + 1
    } else {
        0
    };
    let hi = if k < h - 1 {
        k
    } else {
        h - 1
    };
    let cnt = if hi - lo + 1 > 0 {
        hi - lo + 1
    } else {
        0
    };
    if k % 2 == 0 {
        Seq::new(cnt as nat, |t: int| (lo + t, k - (lo + t)))
    } else {
        Seq::new(cnt as nat, |t: int| (hi - t, k - (hi - t)))
    }
}

/// The cells of the first `k` diagonals, in scan order.
pub open spec fn diag_order_upto(h: int, w: int, k: int) -> Seq<(int, int)>
    decreases k,
{
    if k <= 0 {
        Seq::empty()
    } else {
        diag_order_upto(h, w, k - 1) + diag_cells(h, w, k - 1)
    }
}

/// Every cell of an `h` by `w` array, in zigzag diagonal scan order.
pub open spec fn diag_order(h: int, w: int) -> Seq<(int, int)> {
    diag_order_upto(h, w, h + w - 1)
}

/// Cells of the first `k` diagonals are in range and their indices sum below
/// `k`.
pub proof fn lemma_diag_order_upto_cells(h: int, w: int, k: int)
    requires
        h >= 1,
        w >= 1,
    ensures
        forall|t: int|
            0 <= t < diag_order_upto(h, w, k).len() ==> {
                let c = #[trigger] diag_order_upto(h, w, k)[t];
                0 <= c.0 < h && 0 <= c.1 < w && c.0 + c.1 < k
            },
    decreases k,
{
    if k > 0 {
        lemma_diag_order_upto_cells(h, w, k - 1);
        let prev = diag_order_upto(h, w, k - 1);
        let cells = diag_cells(h, w, k - 1);
        assert forall|t: int| 0 <= t < diag_order_upto(h, w, k).len() implies {
            let c = #[trigger] diag_order_upto(h, w, k)[t];
            0 <= c.0 < h && 0 <= c.1 < w && c.0 + c.1 < k
        } by {
            if t < prev.len() {
                assert(diag_order_upto(h, w, k)[t] == prev[t]);
            } else {
                assert(diag_order_upto(h, w, k)[t] == cells[t - prev.len()]);
            }
        }
    }
}

/// The pixels in zigzag diagonal scan order.
pub fn flatten_diagonal(pixels: &Vec<Vec<Colour>>) -> (r: Vec<Colour>)
    requires
        pixels@.len() >= 1,
        pixels@[0]@.len() >= 1,
        pixels@.len() + pixels@[0]@.len() <= usize::MAX,
        rectangular(grid_view(pixels@), pixels@[0]@.len() as int),
    ensures
        r@.len() == diag_order(pixels@.len() as int, pixels@[0]@.len() as int).len(),
        forall|t: int|
            0 <= t < r@.len() ==> {
                let c = #[trigger] diag_order(pixels@.len() as int, pixels@[0]@.len() as int)[t];
                r@[t] == pixels@[c.0]@[c.1]
            },
{
    let height: usize = pixels.len();
    let width: usize = pixels[0].len();
    let ghost h = height as int;
    let ghost w = width as int;
    let mut flattened: Vec<Colour> = Vec::new();
    let mut k: usize = 0;
    while k < height + width - 1
        invariant
            h == pixels@.len(),
            w == pixels@[0]@.len(),
            h == height as int,
            w == width as int,
            h >= 1 && w >= 1,
            h + w <= usize::MAX,
            rectangular(grid_view(pixels@), w),
            k <= h + w - 1,
            flattened@.len() == diag_order_upto(h, w, k as int).len(),
            forall|t: int|
                0 <= t < flattened@.len() ==> {
                    let c = #[trigger] diag_order_upto(h, w, k as int)[t];
                    flattened@[t] == pixels@[c.0]@[c.1]
                },
        decreases h + w - 1 - k,
    {
        let ghost base = diag_order_upto(h, w, k as int);
        let ghost cells = diag_cells(h, w, k as int);
        proof {
            lemma_diag_order_upto_cells(h, w, k as int);
        }
        if k % 2 == 0 {
            let mut i: usize = 0;
            while i < height
                invariant
                    h == pixels@.len(),
                    w == pixels@[0]@.len(),
                    h == height as int,
                    w == width as int,
                    h >= 1 && w >= 1,
                    rectangular(grid_view(pixels@), w),
                    h + w <= usize::MAX,
                    k < h + w - 1,
                    k % 2 == 0,
                    i <= h,
                    base == diag_order_upto(h, w, k as int),
                    cells == diag_cells(h, w, k as int),
                    flattened@.len() == base.len() + (if i as int > cells[0].0 {
                        if i as int - cells[0].0 < cells.len() {
                            i as int - cells[0].0
                        } else {
                            cells.len() as int
                        }
                    } else {
                        0int
                    }),
                    cells.len() > 0 ==> flattened@.len() >= base.len(),
                    forall|t: int|
                        0 <= t < base.len() ==> {
                            let c = #[trigger] base[t];
                            flattened@[t] == pixels@[c.0]@[c.1]
                        },
                    forall|t: int|
                        0 <= t < flattened@.len() - base.len() ==> {
                            let c = #[trigger] cells[t];
                            flattened@[base.len() + t] == pixels@[c.0]@[c.1]
                        },
                decreases h - i,
            {
                if i <= k && k - i < width {
                    let j: usize = k - i;
                    proof {
                        let lo = if k as int - w + 1 > 0 {
                            k as int - w + 1
                        } else {
                            0int
                        };
                        assert(cells[0].0 == lo);
                        assert(cells[i as int - lo] == (i as int, k - i));
                        assert(grid_view(pixels@)[i as int].len() == pixels@[i as int]@.len());
                        assert(grid_view(pixels@)[i as int].len() == w);
                    }
                    flattened.push(pixels[i][j]);
                }
                i = i + 1;
            }
            proof {
                assert(flattened@.len() == base.len() + cells.len());
            }
        } else {
            let mut ii: usize = height;
            while ii > 0
                invariant
                    h == pixels@.len(),
                    w == pixels@[0]@.len(),
                    h == height as int,
                    w == width as int,
                    h >= 1 && w >= 1,
                    rectangular(grid_view(pixels@), w),
                    h + w <= usize::MAX,
                    k < h + w - 1,
                    k % 2 != 0,
                    ii <= h,
                    base == diag_order_upto(h, w, k as int),
                    cells == diag_cells(h, w, k as int),
                    flattened@.len() == base.len() + (if ii as int <= cells.first().0 {
                        if cells.first().0 - ii as int + 1 < cells.len() {
                            cells.first().0 - ii as int + 1
                        } else {
                            cells.len() as int
                        }
                    } else {
                        0int
                    }),
                    forall|t: int|
                        0 <= t < base.len() ==> {
                            let c = #[trigger] base[t];
                            flattened@[t] == pixels@[c.0]@[c.1]
                        },
                    forall|t: int|
                        0 <= t < flattened@.len() - base.len() ==> {
                            let c = #[trigger] cells[t];
                            flattened@[base.len() + t] == pixels@[c.0]@[c.1]
                        },
                decreases ii,
            {
                let i: usize = ii - 1;
                if i <= k && k - i < width {
                    let j: usize = k - i;
                    proof {
                        let hi = if (k as int) < h - 1 {
                            k as int
                        } else {
                            h - 1
                        };
                        assert(cells.first().0 == hi);
                        assert(cells[hi - i as int] == (i as int, k - i));
                        assert(grid_view(pixels@)[i as int].len() == pixels@[i as int]@.len());
                        assert(grid_view(pixels@)[i as int].len() == w);
                    }
                    flattened.push(pixels[i][j]);
                }
                ii = ii - 1;
            }
            proof {
                assert(flattened@.len() == base.len() + cells.len());
            }
        }
        k = k + 1;
    }
    flattened
}

/// Rebuild the array from its zigzag diagonal scan. Every scanned cell takes
/// its scanned value; a cell the scan does not reach stays black.
pub fn restore_diagonal(flattened: &Vec<Colour>, height: usize, width: usize) -> (r: Vec<
    Vec<Colour>,
>)
    requires
        height >= 1,
        width >= 1,
        height + width <= usize::MAX,
        flattened@.len() >= diag_order(height as int, width as int).len(),
    ensures
        r@.len() == height,
        rectangular(grid_view(r@), width as int),
        forall|t: int|
            0 <= t < diag_order(height as int, width as int).len() ==> {
                let c = #[trigger] diag_order(height as int, width as int)[t];
                r@[c.0]@[c.1] == flattened@[t]
            },
{
    let ghost h = height as int;
    let ghost w = width as int;
    let black = Colour::black();
    let mut pixels: Vec<Vec<Colour>> = Vec::new();
    let mut rr: usize = 0;
    while rr < height
        invariant
            black == (Colour { blue: 0, green: 0, red: 0 }),
            rr <= height,
            pixels@.len() == rr,
            forall|i: int| 0 <= i < rr ==> #[trigger] pixels@[i]@ == Seq::new(
                width as nat,
                |m: int| (Colour { blue: 0, green: 0, red: 0 }),
            ),
        decreases height - rr,
    {
        let mut row: Vec<Colour> = Vec::new();
        let mut j: usize = 0;
        while j < width
            invariant
                black == (Colour { blue: 0, green: 0, red: 0 }),
                j <= width,
                row@.len() == j,
                forall|m: int| 0 <= m < j ==> row@[m] == (Colour { blue: 0, green: 0, red: 0 }),
            decreases width - j,
        {
            row.push(black);
            j = j + 1;
        }
        pixels.push(row);
        proof {
            assert(pixels@[rr as int]@ =~= Seq::new(width as nat, |m: int| (Colour {
                blue: 0,
                green: 0,
                red: 0,
            })));
        }
        rr = rr + 1;
    }
    let flen: usize = flattened.len();
    let mut idx: usize = 0;
    let mut k: usize = 0;
    while k < height + width - 1
        invariant
            h == height && w == width,
            h >= 1 && w >= 1,
            h + w <= usize::MAX,
            flattened@.len() >= diag_order(h, w).len(),
            flattened@.len() == flen,
            k <= h + w - 1,
            pixels@.len() == h,
            rectangular(grid_view(pixels@), w),
            idx == diag_order_upto(h, w, k as int).len(),
            diag_order_upto(h, w, k as int).len() <= diag_order(h, w).len(),
            forall|t: int|
                0 <= t < idx ==> {
                    let c = #[trigger] diag_order_upto(h, w, k as int)[t];
                    pixels@[c.0]@[c.1] == flattened@[t]
                },
            forall|i: int, j: int|
                0 <= i < h && 0 <= j < w && i + j >= k ==> #[trigger] pixels@[i]@[j] == (Colour {
                    blue: 0,
                    green: 0,
                    red: 0,
                }),
        decreases h + w - 1 - k,
    {
        let ghost base = diag_order_upto(h, w, k as int);
        let ghost cells = diag_cells(h, w, k as int);
        proof {
            lemma_diag_order_upto_cells(h, w, k as int);
            lemma_diag_order_mono(h, w, k as int + 1, h + w - 1);
        }
        if k % 2 == 0 {
            let mut i: usize = 0;
            while i < height
                invariant
                    h == height && w == width,
                    h >= 1 && w >= 1,
                    flattened@.len() >= diag_order(h, w).len(),
                    flattened@.len() == flen,
                    h + w <= usize::MAX,
                    diag_order_upto(h, w, k as int + 1).len() <= diag_order(h, w).len(),
                    k < h + w - 1,
                    k % 2 == 0,
                    i <= h,
                    pixels@.len() == h,
                    rectangular(grid_view(pixels@), w),
                    base == diag_order_upto(h, w, k as int),
                    cells == diag_cells(h, w, k as int),
                    diag_order_upto(h, w, k as int + 1).len() == base.len() + cells.len(),
                    idx == base.len() + (if i as int > cells[0].0 {
                        if i as int - cells[0].0 < cells.len() {
                            i as int - cells[0].0
                        } else {
                            cells.len() as int
                        }
                    } else {
                        0int
                    }),
                    forall|t: int|
                        0 <= t < base.len() ==> {
                            let c = #[trigger] base[t];
                            pixels@[c.0]@[c.1] == flattened@[t]
                        },
                    forall|t: int|
                        0 <= t < idx - base.len() ==> {
                            let c = #[trigger] cells[t];
                            pixels@[c.0]@[c.1] == flattened@[base.len() + t]
                        },
                    forall|i2: int, j2: int|
                        0 <= i2 < h && 0 <= j2 < w && i2 + j2 > k ==> #[trigger] pixels@[i2]@[j2]
                            == (Colour { blue: 0, green: 0, red: 0 }),
                    forall|i2: int, j2: int|
                        0 <= i2 < h && 0 <= j2 < w && i2 + j2 == k && i2 >= i ==> #[trigger] pixels@[i2]@[j2]
                            == (Colour { blue: 0, green: 0, red: 0 }),
                decreases h - i,
            {
                if i <= k && k - i < width {
                    let j: usize = k - i;
                    proof {
                        let lo = if k as int - w + 1 > 0 {
                            k as int - w + 1
                        } else {
                            0int
                        };
                        assert(cells[0].0 == lo);
                        assert(cells[i as int - lo] == (i as int, k - i));
                        lemma_diag_order_upto_cells(h, w, k as int);
                    }
                    let ghost before = pixels@;
                    proof {
                        assert(grid_view(pixels@)[i as int].len() == pixels@[i as int]@.len());
                        assert(grid_view(pixels@)[i as int].len() == w);
                    }
                    pixels[i].set(j, flattened[idx]);
                    proof {
                        assert(forall|i2: int| 0 <= i2 < h && i2 != i as int
                            ==> #[trigger] pixels@[i2]@ == before[i2]@);
                        assert(forall|j2: int| 0 <= j2 < w && j2 != j as int
                            ==> #[trigger] pixels@[i as int]@[j2] == before[i as int]@[j2]);
                        assert forall|i2: int| 0 <= i2 < h implies #[trigger] grid_view(
                            pixels@,
                        )[i2].len() == w by {
                            assert(grid_view(pixels@)[i2] == pixels@[i2]@);
                            assert(grid_view(before)[i2].len() == w);
                            if i2 != i as int {
                                assert(pixels@[i2]@ == before[i2]@);
                            }
                        }
                    }
                    idx = idx + 1;
                }
                i = i + 1;
            }
        } else {
            let mut ii: usize = height;
            while ii > 0
                invariant
                    h == height && w == width,
                    h >= 1 && w >= 1,
                    flattened@.len() >= diag_order(h, w).len(),
                    flattened@.len() == flen,
                    h + w <= usize::MAX,
                    diag_order_upto(h, w, k as int + 1).len() <= diag_order(h, w).len(),
                    k < h + w - 1,
                    k % 2 != 0,
                    ii <= h,
                    pixels@.len() == h,
                    rectangular(grid_view(pixels@), w),
                    base == diag_order_upto(h, w, k as int),
                    cells == diag_cells(h, w, k as int),
                    diag_order_upto(h, w, k as int + 1).len() == base.len() + cells.len(),
                    idx == base.len() + (if ii as int <= cells.first().0 {
                        if cells.first().0 - ii as int + 1 < cells.len() {
                            cells.first().0 - ii as int + 1
                        } else {
                            cells.len() as int
                        }
                    } else {
                        0int
                    }),
                    forall|t: int|
                        0 <= t < base.len() ==> {
                            let c = #[trigger] base[t];
                            pixels@[c.0]@[c.1] == flattened@[t]
                        },
                    forall|t: int|
                        0 <= t < idx - base.len() ==> {
                            let c = #[trigger] cells[t];
                            pixels@[c.0]@[c.1] == flattened@[base.len() + t]
                        },
                    forall|i2: int, j2: int|
                        0 <= i2 < h && 0 <= j2 < w && i2 + j2 > k ==> #[trigger] pixels@[i2]@[j2]
                            == (Colour { blue: 0, green: 0, red: 0 }),
                    forall|i2: int, j2: int|
                        0 <= i2 < h && 0 <= j2 < w && i2 + j2 == k && i2 < ii ==> #[trigger] pixels@[i2]@[j2]
                            == (Colour { blue: 0, green: 0, red: 0 }),
                decreases ii,
            {
                let i: usize = ii - 1;
                if i <= k && k - i < width {
                    let j: usize = k - i;
                    proof {
                        let hi = if (k as int) < h - 1 {
                            k as int
                        } else {
                            h - 1
                        };
                        assert(cells.first().0 == hi);
                        assert(cells[hi - i as int] == (i as int, k - i));
                        lemma_diag_order_upto_cells(h, w, k as int);
                    }
                    let ghost before = pixels@;
                    proof {
                        assert(grid_view(pixels@)[i as int].len() == pixels@[i as int]@.len());
                        assert(grid_view(pixels@)[i as int].len() == w);
                    }
                    pixels[i].set(j, flattened[idx]);
                    proof {
                        assert(forall|i2: int| 0 <= i2 < h && i2 != i as int
                            ==> #[trigger] pixels@[i2]@ == before[i2]@);
                        assert(forall|j2: int| 0 <= j2 < w && j2 != j as int
                            ==> #[trigger] pixels@[i as int]@[j2] == before[i as int]@[j2]);
                        assert forall|i2: int| 0 <= i2 < h implies #[trigger] grid_view(
                            pixels@,
                        )[i2].len() == w by {
                            assert(grid_view(pixels@)[i2] == pixels@[i2]@);
                            assert(grid_view(before)[i2].len() == w);
                            if i2 != i as int {
                                assert(pixels@[i2]@ == before[i2]@);
                            }
                        }
                    }
                    idx = idx + 1;
                }
                ii = ii - 1;
            }
        }
        k = k + 1;
    }
    pixels
}

/// The scan of fewer diagonals is a prefix of the scan of more.
proof fn lemma_diag_order_mono(h: int, w: int, k1: int, k2: int)
    requires
        k1 <= k2,
    ensures
        diag_order_upto(h, w, k1).len() <= diag_order_upto(h, w, k2).len(),
    decreases k2 - k1,
{
    if k1 < k2 {
        lemma_diag_order_mono(h, w, k1, k2 - 1);
    }
}

} // verus!
