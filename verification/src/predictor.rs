//! Image predictors: each codes a pixel as its wrapping difference from a
//! prediction built out of the left, upper, and upper-left neighbours. The
//! pixel array is assumed to carry an extra black row above and an extra
//! black column to the left.

use vstd::prelude::*;
use crate::colour::{
    byte_add, byte_sub, colour_add, colour_div, colour_sub, Colour,
};

verus! {

/// Every row has width `w`.
pub open spec fn rectangular(p: Seq<Seq<Colour>>, w: int) -> bool {
    forall|i: int| 0 <= i < p.len() ==> #[trigger] p[i].len() == w
}

/// The rows of a pixel array as sequences.
pub open spec fn grid_view(p: Seq<Vec<Colour>>) -> Seq<Seq<Colour>> {
    Seq::new(p.len(), |i: int| p[i]@)
}

/// A pixel array fit for the predictors: a border row and column plus at
/// least one real pixel row.
pub open spec fn padded_pixels(p: Seq<Seq<Colour>>) -> bool {
    &&& p.len() >= 2
    &&& p[0].len() >= 1
    &&& rectangular(p, p[0].len() as int)
}

/// Add a black pixel to the left of every row and a black row on top.
pub fn add_black(v: &mut Vec<Vec<Colour>>)
    requires
        old(v)@.len() >= 1,
    ensures
        final(v)@.len() == old(v)@.len() + 1,
        final(v)@[0]@ == Seq::new((old(v)@[0]@.len() + 1) as nat, |k: int| (Colour {
            blue: 0,
            green: 0,
            red: 0,
        })),
        forall|i: int| 1 <= i < final(v)@.len() ==> final(v)@[i]@ == seq![(Colour {
            blue: 0,
            green: 0,
            red: 0,
        })] + old(v)@[i - 1]@,
{
    let black = Colour::black();
    let mut i: usize = 0;
    let width: usize = v[0].len();
    while i < v.len()
        invariant
            black == (Colour { blue: 0, green: 0, red: 0 }),
            i <= v@.len(),
            v@.len() == old(v)@.len(),
            forall|k: int| 0 <= k < i ==> #[trigger] v@[k]@ == seq![(Colour {
                blue: 0,
                green: 0,
                red: 0,
            })] + old(v)@[k]@,
            forall|k: int| i <= k < v@.len() ==> #[trigger] v@[k] == old(v)@[k],
        decreases v@.len() - i,
    {
        v[i].insert(0, black);
        proof {
            assert(v@[i as int]@ =~= seq![(Colour { blue: 0, green: 0, red: 0 })] + old(
                v,
            )@[i as int]@);
        }
        i = i + 1;
    }
    let mut top: Vec<Colour> = Vec::new();
    top.push(black);
    let mut k: usize = 0;
    while k < width
        invariant
            black == (Colour { blue: 0, green: 0, red: 0 }),
            k <= width,
            top@.len() == k + 1,
            forall|m: int| 0 <= m < k + 1 ==> top@[m] == (Colour { blue: 0, green: 0, red: 0 }),
        decreases width - k,
    {
        top.push(black);
        k = k + 1;
    }
    v.insert(0, top);
    proof {
        assert(v@[0]@ =~= Seq::new((old(v)@[0]@.len() + 1) as nat, |m: int| (Colour {
            blue: 0,
            green: 0,
            red: 0,
        })));
    }
}

/// The prediction that rule `which` makes for the pixel at `(i + 1, j + 1)`
/// of the padded array: 1 left, 2 above, 3 upper-left, 4 gradient,
/// 5 and 6 half-gradients, 7 average, 8 the median-style new rule.
pub open spec fn predicted(which: int, p: Seq<Seq<Colour>>, i: int, j: int) -> Colour {
    let left = p[i + 1][j];
    let up = p[i][j + 1];
    let corner = p[i][j];
    if which == 1 {
        left
    } else if which == 2 {
        up
    } else if which == 3 {
        corner
    } else if which == 4 {
        colour_sub(colour_add(up, left), corner)
    } else if which == 5 {
        colour_add(up, colour_div(colour_sub(left, corner), 2))
    } else if which == 6 {
        colour_add(left, colour_div(colour_sub(up, corner), 2))
    } else if which == 7 {
        colour_div(colour_add(up, left), 2)
    } else {
        Colour {
            blue: median_channel(left.blue, up.blue, corner.blue),
            green: median_channel(left.green, up.green, corner.green),
            red: median_channel(left.red, up.red, corner.red),
        }
    }
}

/// The new rule on one channel: clamp toward whichever neighbour the corner
/// overshoots, else the wrapping gradient.
pub open spec fn median_channel(left: u8, up: u8, corner: u8) -> u8 {
    let mx = if left >= up {
        left
    } else {
        up
    };
    let mn = if left <= up {
        left
    } else {
        up
    };
    if corner >= mx {
        mn
    } else if corner <= mn {
        mx
    } else {
        byte_add(left, byte_sub(up, corner))
    }
}

/// The coded array under rule `which`: entry `(i, j)` is the pixel minus its
/// prediction, wrapping.
pub open spec fn predictor_code(which: int, p: Seq<Seq<Colour>>, i: int, j: int) -> Colour {
    colour_sub(p[i + 1][j + 1], predicted(which, p, i, j))
}

fn prepare_code_array(pixels: &Vec<Vec<Colour>>) -> (r: Vec<Vec<Colour>>)
    requires
        pixels@.len() >= 2,
        pixels@[0]@.len() >= 1,
    ensures
        r@.len() == pixels@.len() - 1,
        forall|i: int| 0 <= i < r@.len() ==> #[trigger] r@[i]@.len() == pixels@[0]@.len() - 1,
{
    let height: usize = pixels.len() - 1;
    let width: usize = pixels[0].len() - 1;
    let mut code: Vec<Vec<Colour>> = Vec::new();
    let mut i: usize = 0;
    while i < height
        invariant
            i <= height,
            code@.len() == i,
            forall|k: int| 0 <= k < i ==> #[trigger] code@[k]@.len() == width,
        decreases height - i,
    {
        let mut row: Vec<Colour> = Vec::new();
        let mut j: usize = 0;
        while j < width
            invariant
                j <= width,
                row@.len() == j,
            decreases width - j,
        {
            row.push(Colour::black());
            j = j + 1;
        }
        code.push(row);
        i = i + 1;
    }
    code
}

/// Run prediction rule `which` over the padded array.
fn run_predictor(pixels: &Vec<Vec<Colour>>, which: u8) -> (r: Vec<Vec<Colour>>)
    requires
        padded_pixels(grid_view(pixels@)),
        1 <= which <= 8,
    ensures
        r@.len() == pixels@.len() - 1,
        forall|i: int| 0 <= i < r@.len() ==> #[trigger] r@[i]@.len() == pixels@[0]@.len() - 1,
        forall|i: int, j: int|
            0 <= i < r@.len() && 0 <= j < r@[i]@.len() ==> #[trigger] r@[i]@[j] == predictor_code(
                which as int,
                grid_view(pixels@),
                i,
                j,
            ),
{
    let height: usize = pixels.len() - 1;
    let width: usize = pixels[0].len() - 1;
    let mut code: Vec<Vec<Colour>> = Vec::new();
    let mut i: usize = 0;
    while i < height
        invariant
            padded_pixels(grid_view(pixels@)),
            1 <= which <= 8,
            height == pixels@.len() - 1,
            width == pixels@[0]@.len() - 1,
            i <= height,
            code@.len() == i,
            forall|k: int| 0 <= k < i ==> #[trigger] code@[k]@.len() == width,
            forall|k: int, m: int|
                0 <= k < i && 0 <= m < width ==> #[trigger] code@[k]@[m] == predictor_code(
                    which as int,
                    grid_view(pixels@),
                    k,
                    m,
                ),
        decreases height - i,
    {
        let mut row: Vec<Colour> = Vec::new();
        let mut j: usize = 0;
        while j < width
            invariant
                padded_pixels(grid_view(pixels@)),
                1 <= which <= 8,
                height == pixels@.len() - 1,
                width == pixels@[0]@.len() - 1,
                i < height,
                j <= width,
                row@.len() == j,
                forall|m: int| 0 <= m < j ==> #[trigger] row@[m] == predictor_code(
                    which as int,
                    grid_view(pixels@),
                    i as int,
                    m,
                ),
            decreases width - j,
        {
            proof {
                assert(grid_view(pixels@)[i + 1].len() == pixels@[i + 1]@.len());
                assert(grid_view(pixels@)[i as int].len() == pixels@[i as int]@.len());
                assert(grid_view(pixels@)[i + 1].len() == width + 1);
                assert(grid_view(pixels@)[i as int].len() == width + 1);
            }
            let curr: Colour = pixels[i + 1][j + 1];
            let left: Colour = pixels[i + 1][j];
            let up: Colour = pixels[i][j + 1];
            let corner: Colour = pixels[i][j];
            let prev: Colour = if which == 1 {
                left
            } else if which == 2 {
                up
            } else if which == 3 {
                corner
            } else if which == 4 {
                up.add(left).sub(corner)
            } else if which == 5 {
                up.add(left.sub(corner).div(2))
            } else if which == 6 {
                left.add(up.sub(corner).div(2))
            } else if which == 7 {
                up.add(left).div(2)
            } else {
                Colour {
                    blue: median_channel_exec(left.blue, up.blue, corner.blue),
                    green: median_channel_exec(left.green, up.green, corner.green),
                    red: median_channel_exec(left.red, up.red, corner.red),
                }
            };
            row.push(curr.sub(prev));
            j = j + 1;
        }
        code.push(row);
        i = i + 1;
    }
    code
}

fn median_channel_exec(left: u8, up: u8, corner: u8) -> (r: u8)
    ensures
        r == median_channel(left, up, corner),
{
    let mx: u8 = if left >= up {
        left
    } else {
        up
    };
    let mn: u8 = if left <= up {
        left
    } else {
        up
    };
    if corner >= mx {
        mn
    } else if corner <= mn {
        mx
    } else {
        left.wrapping_add(up.wrapping_sub(corner))
    }
}

/// Difference from the left neighbour.
pub fn code_predictor_1(pixels: &Vec<Vec<Colour>>) -> (r: Vec<Vec<Colour>>)
    requires
        padded_pixels(grid_view(pixels@)),
    ensures
        r@.len() == pixels@.len() - 1,
        forall|i: int| 0 <= i < r@.len() ==> #[trigger] r@[i]@.len() == pixels@[0]@.len() - 1,
        forall|i: int, j: int|
            0 <= i < r@.len() && 0 <= j < r@[i]@.len() ==> #[trigger] r@[i]@[j] == predictor_code(
                1,
                grid_view(pixels@),
                i,
                j,
            ),
{
    run_predictor(pixels, 1)
}

/// Difference from the upper neighbour.
pub fn code_predictor_2(pixels: &Vec<Vec<Colour>>) -> (r: Vec<Vec<Colour>>)
    requires
        padded_pixels(grid_view(pixels@)),
    ensures
        r@.len() == pixels@.len() - 1,
        forall|i: int| 0 <= i < r@.len() ==> #[trigger] r@[i]@.len() == pixels@[0]@.len() - 1,
        forall|i: int, j: int|
            0 <= i < r@.len() && 0 <= j < r@[i]@.len() ==> #[trigger] r@[i]@[j] == predictor_code(
                2,
                grid_view(pixels@),
                i,
                j,
            ),
{
    run_predictor(pixels, 2)
}

/// Difference from the upper-left neighbour.
pub fn code_predictor_3(pixels: &Vec<Vec<Colour>>) -> (r: Vec<Vec<Colour>>)
    requires
        padded_pixels(grid_view(pixels@)),
    ensures
        r@.len() == pixels@.len() - 1,
        forall|i: int| 0 <= i < r@.len() ==> #[trigger] r@[i]@.len() == pixels@[0]@.len() - 1,
        forall|i: int, j: int|
            0 <= i < r@.len() && 0 <= j < r@[i]@.len() ==> #[trigger] r@[i]@[j] == predictor_code(
                3,
                grid_view(pixels@),
                i,
                j,
            ),
{
    run_predictor(pixels, 3)
}

/// Difference from the wrapping gradient of the three neighbours.
pub fn code_predictor_4(pixels: &Vec<Vec<Colour>>) -> (r: Vec<Vec<Colour>>)
    requires
        padded_pixels(grid_view(pixels@)),
    ensures
        r@.len() == pixels@.len() - 1,
        forall|i: int| 0 <= i < r@.len() ==> #[trigger] r@[i]@.len() == pixels@[0]@.len() - 1,
        forall|i: int, j: int|
            0 <= i < r@.len() && 0 <= j < r@[i]@.len() ==> #[trigger] r@[i]@[j] == predictor_code(
                4,
                grid_view(pixels@),
                i,
                j,
            ),
{
    run_predictor(pixels, 4)
}

/// Difference from the upper neighbour plus half the left gradient.
pub fn code_predictor_5(pixels: &Vec<Vec<Colour>>) -> (r: Vec<Vec<Colour>>)
    requires
        padded_pixels(grid_view(pixels@)),
    ensures
        r@.len() == pixels@.len() - 1,
        forall|i: int| 0 <= i < r@.len() ==> #[trigger] r@[i]@.len() == pixels@[0]@.len() - 1,
        forall|i: int, j: int|
            0 <= i < r@.len() && 0 <= j < r@[i]@.len() ==> #[trigger] r@[i]@[j] == predictor_code(
                5,
                grid_view(pixels@),
                i,
                j,
            ),
{
    run_predictor(pixels, 5)
}

/// Difference from the left neighbour plus half the upper gradient.
pub fn code_predictor_6(pixels: &Vec<Vec<Colour>>) -> (r: Vec<Vec<Colour>>)
    requires
        padded_pixels(grid_view(pixels@)),
    ensures
        r@.len() == pixels@.len() - 1,
        forall|i: int| 0 <= i < r@.len() ==> #[trigger] r@[i]@.len() == pixels@[0]@.len() - 1,
        forall|i: int, j: int|
            0 <= i < r@.len() && 0 <= j < r@[i]@.len() ==> #[trigger] r@[i]@[j] == predictor_code(
                6,
                grid_view(pixels@),
                i,
                j,
            ),
{
    run_predictor(pixels, 6)
}

/// Difference from the average of the left and upper neighbours.
pub fn code_predictor_7(pixels: &Vec<Vec<Colour>>) -> (r: Vec<Vec<Colour>>)
    requires
        padded_pixels(grid_view(pixels@)),
    ensures
        r@.len() == pixels@.len() - 1,
        forall|i: int| 0 <= i < r@.len() ==> #[trigger] r@[i]@.len() == pixels@[0]@.len() - 1,
        forall|i: int, j: int|
            0 <= i < r@.len() && 0 <= j < r@[i]@.len() ==> #[trigger] r@[i]@[j] == predictor_code(
                7,
                grid_view(pixels@),
                i,
                j,
            ),
{
    run_predictor(pixels, 7)
}

/// Difference from the median-style prediction.
pub fn code_predictor_new(pixels: &Vec<Vec<Colour>>) -> (r: Vec<Vec<Colour>>)
    requires
        padded_pixels(grid_view(pixels@)),
    ensures
        r@.len() == pixels@.len() - 1,
        forall|i: int| 0 <= i < r@.len() ==> #[trigger] r@[i]@.len() == pixels@[0]@.len() - 1,
        forall|i: int, j: int|
            0 <= i < r@.len() && 0 <= j < r@[i]@.len() ==> #[trigger] r@[i]@[j] == predictor_code(
                8,
                grid_view(pixels@),
                i,
                j,
            ),
{
    run_predictor(pixels, 8)
}

/// Decode a bottom-up TGA-style pixel dump: `bytes` holds an 18-byte header
/// whose 16-bit little-endian width and height sit at offsets 12 and 14,
/// followed by blue-green-red pixel triples, bottom row first.
pub fn read_data(bytes: &Vec<u8>) -> (r: Option<Vec<Vec<Colour>>>)
    ensures
        r is Some <==> (bytes@.len() >= 18 && bytes@.len() - 18 >= 3 * ((bytes@[12] + 256
            * bytes@[13]) * (bytes@[14] + 256 * bytes@[15]))),
        r matches Some(p) ==> {
            let width = bytes@[12] + 256 * bytes@[13];
            let height = bytes@[14] + 256 * bytes@[15];
            &&& p@.len() == height
            &&& rectangular(grid_view(p@), width as int)
            &&& forall|i: int, j: int|
                0 <= i < height && 0 <= j < width ==> #[trigger] p@[i]@[j] == (Colour {
                    blue: bytes@[18 + 3 * ((height - 1 - i) * width + j)],
                    green: bytes@[18 + 3 * ((height - 1 - i) * width + j) + 1],
                    red: bytes@[18 + 3 * ((height - 1 - i) * width + j) + 2],
                })
        },
{
    if bytes.len() < 18 {
        return None;
    }
    let width: usize = bytes[12] as usize + 256 * (bytes[13] as usize);
    let height: usize = bytes[14] as usize + 256 * (bytes[15] as usize);
    proof {
        assert((width as u64) * (height as u64) <= 65535 * 65535 && (width as u64) * (
        height as u64) == (width * height) as u64) by (nonlinear_arith)
            requires
                0 <= width <= 65535,
                0 <= height <= 65535,
        ;
    }
    let need: u64 = 3 * ((width as u64) * (height as u64));
    if ((bytes.len() - 18) as u64) < need {
        return None;
    }
    let mut pixels: Vec<Vec<Colour>> = Vec::new();
    let mut r: usize = 0;
    // fill the rows from the bottom of the array up
    while r < height
        invariant
            width <= 65535,
            height <= 65535,
            bytes@.len() >= 18 + 3 * (width * height),
            bytes@.len() <= usize::MAX,
            r <= height,
            pixels@.len() == r,
            forall|i: int| 0 <= i < r ==> #[trigger] pixels@[i]@.len() == width,
            forall|i: int, j: int|
                0 <= i < r && 0 <= j < width ==> #[trigger] pixels@[i]@[j] == (Colour {
                    blue: bytes@[18 + 3 * ((r - 1 - i) * width + j)],
                    green: bytes@[18 + 3 * ((r - 1 - i) * width + j) + 1],
                    red: bytes@[18 + 3 * ((r - 1 - i) * width + j) + 2],
                }),
        decreases height - r,
    {
        let mut row: Vec<Colour> = Vec::new();
        let mut j: usize = 0;
        while j < width
            invariant
                width <= 65535,
                height <= 65535,
                bytes@.len() >= 18 + 3 * (width * height),
                bytes@.len() <= usize::MAX,
                r < height,
                j <= width,
                row@.len() == j,
                forall|m: int| 0 <= m < j ==> #[trigger] row@[m] == (Colour {
                    blue: bytes@[18 + 3 * (r * width + m)],
                    green: bytes@[18 + 3 * (r * width + m) + 1],
                    red: bytes@[18 + 3 * (r * width + m) + 2],
                }),
            decreases width - j,
        {
            proof {
                assert(r * width + j < height * width && height * width == width * height
                    && height * width <= 0xFFFE_0001) by (nonlinear_arith)
                    requires
                        0 <= j < width <= 65535,
                        0 <= r < height <= 65535,
                ;
                assert(3 * (r * width + j) + 2 < 3 * (width * height)) by (nonlinear_arith)
                    requires
                        r * width + j < height * width,
                        height * width == width * height,
                ;
            }
            let base: usize = 18 + 3 * (r * width + j);
            row.push(Colour { blue: bytes[base], green: bytes[base + 1], red: bytes[base + 2] });
            j = j + 1;
        }
        pixels.insert(0, row);
        proof {
            assert forall|i: int, j: int|
                0 <= i < r + 1 && 0 <= j < width implies #[trigger] pixels@[i]@[j] == (Colour {
                blue: bytes@[18 + 3 * ((r + 1 - 1 - i) * width + j)],
                green: bytes@[18 + 3 * ((r + 1 - 1 - i) * width + j) + 1],
                red: bytes@[18 + 3 * ((r + 1 - 1 - i) * width + j) + 2],
            }) by {
                if i == 0 {
                } else {
                    assert(pixels@[i] == pixels@.subrange(1, pixels@.len() as int)[i - 1]);
                }
            }
        }
        r = r + 1;
    }
    Some(pixels)
}

} // verus!
