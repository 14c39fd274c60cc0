use vstd::prelude::*;

pub mod camera;
pub mod canvas;
pub mod color;
pub mod intersection;
pub mod matrix;
pub mod ppm;
pub mod world;

verus! {

/// The value of `num` limited to the closed range from `min` to `max`.
pub open spec fn clamped(num: int, min: int, max: int) -> int {
    if num < min {
        min
    } else if num > max {
        max
    } else {
        num
    }
}

/// Limits `num` to the closed range from `min` to `max`.
pub fn clamp_i32(num: i32, min: i32, max: i32) -> (r: i32)
    ensures
        r == clamped(num as int, min as int, max as int),
{
    if num < min {
        min
    } else if num > max {
        max
    } else {
        num
    }
}

} // verus!
