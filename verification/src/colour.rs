//! BGR pixel values and channel-wise helpers. The arithmetic wraps around on
//! each channel, as the image predictors require.

use vstd::prelude::*;

verus! {

/// One of the three colour channels.
#[allow(non_camel_case_types)]
pub enum Hue {
    BLUE,
    GREEN,
    RED,
}

/// One pixel, channels in file order: blue, green, red.
#[derive(Clone, Copy, Debug, PartialEq, Eq, Structural)]
pub struct Colour {
    pub blue: u8,
    pub green: u8,
    pub red: u8,
}

/// Channel addition, wrapping modulo 256.
pub open spec fn byte_add(a: u8, b: u8) -> u8 {
    if a + b > 255 {
        (a + b - 256) as u8
    } else {
        (a + b) as u8
    }
}

/// Channel subtraction, wrapping modulo 256.
pub open spec fn byte_sub(a: u8, b: u8) -> u8 {
    if a - b < 0 {
        (a - b + 256) as u8
    } else {
        (a - b) as u8
    }
}

/// Channel-wise wrapping sum.
pub open spec fn colour_add(a: Colour, b: Colour) -> Colour {
    Colour { blue: byte_add(a.blue, b.blue), green: byte_add(a.green, b.green), red: byte_add(
        a.red,
        b.red,
    ) }
}

/// Channel-wise wrapping difference.
pub open spec fn colour_sub(a: Colour, b: Colour) -> Colour {
    Colour { blue: byte_sub(a.blue, b.blue), green: byte_sub(a.green, b.green), red: byte_sub(
        a.red,
        b.red,
    ) }
}

/// Channel-wise quotient.
pub open spec fn colour_div(a: Colour, d: u8) -> Colour {
    Colour { blue: (a.blue / d) as u8, green: (a.green / d) as u8, red: (a.red / d) as u8 }
}

impl Colour {
    /// The all-zero pixel.
    pub fn black() -> (r: Colour)
        ensures
            r == (Colour { blue: 0, green: 0, red: 0 }),
    {
        Colour { blue: 0, green: 0, red: 0 }
    }

    /// Channel-wise wrapping sum.
    pub fn add(self, rhs: Colour) -> (r: Colour)
        ensures
            r == colour_add(self, rhs),
    {
        Colour {
            blue: self.blue.wrapping_add(rhs.blue),
            green: self.green.wrapping_add(rhs.green),
            red: self.red.wrapping_add(rhs.red),
        }
    }

    /// Channel-wise wrapping difference.
    pub fn sub(self, rhs: Colour) -> (r: Colour)
        ensures
            r == colour_sub(self, rhs),
    {
        Colour {
            blue: self.blue.wrapping_sub(rhs.blue),
            green: self.green.wrapping_sub(rhs.green),
            red: self.red.wrapping_sub(rhs.red),
        }
    }

    /// Channel-wise quotient.
    pub fn div(self, rhs: u8) -> (r: Colour)
        requires
            rhs != 0,
        ensures
            r == colour_div(self, rhs),
    {
        Colour { blue: self.blue / rhs, green: self.green / rhs, red: self.red / rhs }
    }
}

/// The pixels flattened into bytes, blue, green, red per pixel, in order.
pub fn colour_to_bytes(v: &Vec<Colour>) -> (r: Vec<u8>)
    ensures
        r@.len() == 3 * v@.len(),
        forall|i: int| 0 <= i < v@.len() ==> r@[3 * i] == v@[i].blue && r@[3 * i + 1]
            == v@[i].green && r@[3 * i + 2] == v@[i].red,
{
    let mut r: Vec<u8> = Vec::new();
    let mut i: usize = 0;
    while i < v.len()
        invariant
            i <= v@.len(),
            r@.len() == 3 * i,
            forall|k: int| 0 <= k < i ==> r@[3 * k] == v@[k].blue && r@[3 * k + 1]
                == v@[k].green && r@[3 * k + 2] == v@[k].red,
        decreases v@.len() - i,
    {
        let c = v[i];
        r.push(c.blue);
        r.push(c.green);
        r.push(c.red);
        i = i + 1;
    }
    r
}

/// The chosen channel of a pixel.
pub open spec fn channel_of(c: Colour, hue: Hue) -> u8 {
    match hue {
        Hue::BLUE => c.blue,
        Hue::GREEN => c.green,
        Hue::RED => c.red,
    }
}

fn extract_blue(v: &Vec<Colour>) -> (r: Vec<u8>)
    ensures
        r@.len() == v@.len(),
        forall|i: int| 0 <= i < v@.len() ==> r@[i] == v@[i].blue,
{
    let mut r: Vec<u8> = Vec::new();
    let mut i: usize = 0;
    while i < v.len()
        invariant
            i <= v@.len(),
            r@.len() == i,
            forall|k: int| 0 <= k < i ==> r@[k] == v@[k].blue,
        decreases v@.len() - i,
    {
        r.push(v[i].blue);
        i = i + 1;
    }
    r
}

fn extract_green(v: &Vec<Colour>) -> (r: Vec<u8>)
    ensures
        r@.len() == v@.len(),
        forall|i: int| 0 <= i < v@.len() ==> r@[i] == v@[i].green,
{
    let mut r: Vec<u8> = Vec::new();
    let mut i: usize = 0;
    while i < v.len()
        invariant
            i <= v@.len(),
            r@.len() == i,
            forall|k: int| 0 <= k < i ==> r@[k] == v@[k].green,
        decreases v@.len() - i,
    {
        r.push(v[i].green);
        i = i + 1;
    }
    r
}

fn extract_red(v: &Vec<Colour>) -> (r: Vec<u8>)
    ensures
        r@.len() == v@.len(),
        forall|i: int| 0 <= i < v@.len() ==> r@[i] == v@[i].red,
{
    let mut r: Vec<u8> = Vec::new();
    let mut i: usize = 0;
    while i < v.len()
        invariant
            i <= v@.len(),
            r@.len() == i,
            forall|k: int| 0 <= k < i ==> r@[k] == v@[k].red,
        decreases v@.len() - i,
    {
        r.push(v[i].red);
        i = i + 1;
    }
    r
}

/// One channel of every pixel, in order.
pub fn extract_colour(v: &Vec<Colour>, hue: &Hue) -> (r: Vec<u8>)
    ensures
        r@.len() == v@.len(),
        forall|i: int| 0 <= i < v@.len() ==> r@[i] == channel_of(v@[i], *hue),
{
    match hue {
        Hue::BLUE => extract_blue(v),
        Hue::GREEN => extract_green(v),
        Hue::RED => extract_red(v),
    }
}

} // verus!
