//! Nearest-neighbour quantization of pixels, against a pixel dictionary or
//! against per-channel level tables; ties go to the earliest entry.

use vstd::prelude::*;
use crate::colour::Colour;
use crate::colour_dict::ColourDict;

verus! {

/// Absolute difference of two channel values.
pub open spec fn abs_diff(a: u8, b: u8) -> int {
    if a >= b {
        a - b
    } else {
        b - a
    }
}

/// Channel-wise distance between two pixels.
pub open spec fn colour_dist(p: Colour, c: Colour) -> int {
    abs_diff(p.blue, c.blue) + abs_diff(p.green, c.green) + abs_diff(p.red, c.red)
}

/// The first index among the first `n` dictionary entries whose distance to
/// `p` is smallest.
pub open spec fn nearest_colour_upto(dict: Seq<Colour>, p: Colour, n: int) -> int
    decreases n,
{
    if n <= 1 {
        0
    } else {
        let b = nearest_colour_upto(dict, p, n - 1);
        if colour_dist(p, dict[n - 1]) < colour_dist(p, dict[b]) {
            n - 1
        } else {
            b
        }
    }
}

/// The first index among the first `n` level values nearest to `x`.
pub open spec fn nearest_level_upto(vals: Seq<u8>, x: u8, n: int) -> int
    decreases n,
{
    if n <= 1 {
        0
    } else {
        let b = nearest_level_upto(vals, x, n - 1);
        if abs_diff(x, vals[n - 1]) < abs_diff(x, vals[b]) {
            n - 1
        } else {
            b
        }
    }
}

fn abs_diff_exec(a: u8, b: u8) -> (r: u8)
    ensures
        r == abs_diff(a, b),
{
    if a >= b {
        a - b
    } else {
        b - a
    }
}

/// Replace every pixel by the first nearest dictionary pixel, by channel-wise
/// distance.
pub fn vector_quantize(pixels: &Vec<Colour>, dictionary: &Vec<Colour>) -> (r: Vec<Colour>)
    requires
        dictionary@.len() >= 1,
    ensures
        r@.len() == pixels@.len(),
        forall|i: int| 0 <= i < r@.len() ==> #[trigger] r@[i] == dictionary@[nearest_colour_upto(
            dictionary@,
            pixels@[i],
            dictionary@.len() as int,
        )],
{
    let mut r: Vec<Colour> = Vec::new();
    let mut i: usize = 0;
    while i < pixels.len()
        invariant
            dictionary@.len() >= 1,
            i <= pixels@.len(),
            r@.len() == i,
            forall|k: int| 0 <= k < i ==> #[trigger] r@[k] == dictionary@[nearest_colour_upto(
                dictionary@,
                pixels@[k],
                dictionary@.len() as int,
            )],
        decreases pixels@.len() - i,
    {
        let p: Colour = pixels[i];
        let mut best: usize = 0;
        let mut best_dist: u16 = {
            let d0 = colour_dist_exec(p, dictionary[0]);
            d0
        };
        let mut j: usize = 1;
        while j < dictionary.len()
            invariant
                dictionary@.len() >= 1,
                1 <= j <= dictionary@.len(),
                best == nearest_colour_upto(dictionary@, p, j as int),
                best < j,
                best_dist == colour_dist(p, dictionary@[best as int]),
            decreases dictionary@.len() - j,
        {
            let d = colour_dist_exec(p, dictionary[j]);
            if d < best_dist {
                best = j;
                best_dist = d;
            }
            j = j + 1;
        }
        r.push(dictionary[best]);
        i = i + 1;
    }
    r
}

fn colour_dist_exec(p: Colour, c: Colour) -> (r: u16)
    ensures
        r == colour_dist(p, c),
{
    abs_diff_exec(p.blue, c.blue) as u16 + abs_diff_exec(p.green, c.green) as u16 + abs_diff_exec(
        p.red,
        c.red,
    ) as u16
}

/// Quantize one channel value to the first nearest level.
fn nearest_level(vals: &Vec<u8>, x: u8) -> (r: u8)
    requires
        vals@.len() >= 1,
    ensures
        r == vals@[nearest_level_upto(vals@, x, vals@.len() as int)],
{
    let mut best: usize = 0;
    let mut best_dist: u8 = abs_diff_exec(x, vals[0]);
    let mut j: usize = 1;
    while j < vals.len()
        invariant
            vals@.len() >= 1,
            1 <= j <= vals@.len(),
            best == nearest_level_upto(vals@, x, j as int),
            best < j,
            best_dist == abs_diff(x, vals@[best as int]),
        decreases vals@.len() - j,
    {
        let d = abs_diff_exec(x, vals[j]);
        if d < best_dist {
            best = j;
            best_dist = d;
        }
        j = j + 1;
    }
    vals[best]
}

/// Quantize every pixel channel-wise against the level tables.
pub fn quantize(pixels: &Vec<Colour>, dictionary: &ColourDict) -> (r: Vec<Colour>)
    requires
        dictionary.blue_values@.len() >= 1,
        dictionary.green_values@.len() >= 1,
        dictionary.red_values@.len() >= 1,
    ensures
        r@.len() == pixels@.len(),
        forall|i: int| 0 <= i < r@.len() ==> #[trigger] r@[i] == (Colour {
            blue: dictionary.blue_values@[nearest_level_upto(
                dictionary.blue_values@,
                pixels@[i].blue,
                dictionary.blue_values@.len() as int,
            )],
            green: dictionary.green_values@[nearest_level_upto(
                dictionary.green_values@,
                pixels@[i].green,
                dictionary.green_values@.len() as int,
            )],
            red: dictionary.red_values@[nearest_level_upto(
                dictionary.red_values@,
                pixels@[i].red,
                dictionary.red_values@.len() as int,
            )],
        }),
{
    let mut r: Vec<Colour> = Vec::new();
    let mut i: usize = 0;
    while i < pixels.len()
        invariant
            dictionary.blue_values@.len() >= 1,
            dictionary.green_values@.len() >= 1,
            dictionary.red_values@.len() >= 1,
            i <= pixels@.len(),
            r@.len() == i,
            forall|k: int| 0 <= k < i ==> #[trigger] r@[k] == (Colour {
                blue: dictionary.blue_values@[nearest_level_upto(
                    dictionary.blue_values@,
                    pixels@[k].blue,
                    dictionary.blue_values@.len() as int,
                )],
                green: dictionary.green_values@[nearest_level_upto(
                    dictionary.green_values@,
                    pixels@[k].green,
                    dictionary.green_values@.len() as int,
                )],
                red: dictionary.red_values@[nearest_level_upto(
                    dictionary.red_values@,
                    pixels@[k].red,
                    dictionary.red_values@.len() as int,
                )],
            }),
        decreases pixels@.len() - i,
    {
        let p: Colour = pixels[i];
        let bval = nearest_level(&dictionary.blue_values, p.blue);
        let gval = nearest_level(&dictionary.green_values, p.green);
        let rval = nearest_level(&dictionary.red_values, p.red);
        r.push(Colour { blue: bval, green: gval, red: rval });
        i = i + 1;
    }
    r
}

} // verus!
