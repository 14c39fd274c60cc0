use vstd::prelude::*;

verus! {

/// A colour as an image file stores it: one whole number per channel, on the
/// scale where 0 is dark and 255 is full intensity.
///
/// The channels may lie outside that scale (a light can be brighter than the
/// file can show); they are limited to it when the image is written.
#[derive(Clone, Copy, Debug, PartialEq, Eq)]
pub struct Rgb {
    pub red: i32,
    pub green: i32,
    pub blue: i32,
}

impl Rgb {
    pub fn new(red: i32, green: i32, blue: i32) -> (c: Rgb)
        ensures
            c == (Rgb { red, green, blue }),
    {
        Rgb { red, green, blue }
    }

    pub fn black() -> (c: Rgb)
        ensures
            c == (Rgb { red: 0, green: 0, blue: 0 }),
    {
        Rgb { red: 0, green: 0, blue: 0 }
    }

    pub fn white() -> (c: Rgb)
        ensures
            c == (Rgb { red: 255, green: 255, blue: 255 }),
    {
        Rgb { red: 255, green: 255, blue: 255 }
    }
}

} // verus!
