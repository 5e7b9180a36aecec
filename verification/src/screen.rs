//! From the plane to the whole pixels of a picture, one pixel to the unit.

use crate::fixed::{divide, quotient, UNIT};
use crate::quadtree::{AABB, XY};
use vstd::prelude::*;

verus! {

/// Half the side of the square drawn round a particle that a query found: 5 units.
pub const MARKER_HALF: i32 = 327680;

/// The whole units of a length, rounded toward zero.
pub open spec fn whole(c: int) -> int {
    quotient(c, UNIT as int)
}

/// The whole units of a length that counts for nothing where it is negative.
pub open spec fn extent(c: int) -> int {
    if c < 0 {
        0
    } else {
        whole(c)
    }
}

/// A rectangle of pixels: left, top, width and height.
pub struct PixelRect {
    pub x: i32,
    pub y: i32,
    pub width: u32,
    pub height: u32,
}

/// The pixel of a coordinate.
pub fn pixel(c: i32) -> (px: i16)
    ensures
        px == whole(c as int),
{
    (c / UNIT) as i16
}

/// The rectangle of pixels that a square covers: its corner of least coordinates, and
/// twice the whole units of its half side each way.
pub fn frame(square: &AABB) -> (r: PixelRect)
    ensures
        r.x == whole(square.center.x - square.half_dimension),
        r.y == whole(square.center.y - square.half_dimension),
        r.width == 2 * extent(square.half_dimension as int),
        r.height == 2 * extent(square.half_dimension as int),
{
    let h: i64 = square.half_dimension as i64;
    let side: u32 = if h < 0 {
        0
    } else {
        (h / UNIT as i64) as u32 * 2
    };
    PixelRect {
        x: divide((square.center.x as i64 - h) as i128, UNIT as i128) as i32,
        y: divide((square.center.y as i64 - h) as i128, UNIT as i128) as i32,
        width: side,
        height: side,
    }
}

/// The rectangle of pixels that marks a point: ten pixels wide and high, around it.
pub fn marker(at: &XY) -> (r: PixelRect)
    ensures
        r.x == whole(at.x - MARKER_HALF),
        r.y == whole(at.y - MARKER_HALF),
        r.width == 10,
        r.height == 10,
{
    PixelRect {
        x: divide((at.x as i64 - MARKER_HALF as i64) as i128, UNIT as i128) as i32,
        y: divide((at.y as i64 - MARKER_HALF as i64) as i128, UNIT as i128) as i32,
        width: 10,
        height: 10,
    }
}

} // verus!
