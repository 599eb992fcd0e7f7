//! Points, and the keys under which points and segments are compared.

use crate::error::OverlineError;
use vstd::prelude::*;

verus! {

/// The bit that carries the sign of a double-precision number.
pub const SIGN_BIT: u64 = 0x8000_0000_0000_0000;

/// The bit pattern of positive infinity; every larger magnitude is not a number.
pub const INFINITY_BITS: u64 = 0x7ff0_0000_0000_0000;

/// The bit pattern without its sign.
pub open spec fn magnitude(bits: u64) -> u64 {
    if bits >= SIGN_BIT {
        (bits - SIGN_BIT) as u64
    } else {
        bits
    }
}

/// Whether the bit pattern stands for no number at all.
pub open spec fn is_nan(bits: u64) -> bool {
    magnitude(bits) > INFINITY_BITS
}

/// Whether the bit pattern is one of the two zeros.
pub open spec fn is_zero(bits: u64) -> bool {
    magnitude(bits) == 0
}

/// Whether two bit patterns stand for equal numbers: neither is a
/// not-a-number, and they are the same pattern or the two zeros.
pub open spec fn same_number(a: u64, b: u64) -> bool {
    &&& !is_nan(a)
    &&& !is_nan(b)
    &&& (a == b || (is_zero(a) && is_zero(b)))
}

/// The pattern that stands for a number in a key: negative zero becomes zero,
/// every other pattern stays.
pub open spec fn canonical(bits: u64) -> u64 {
    if bits == SIGN_BIT {
        0
    } else {
        bits
    }
}

/// A point of the plane, each ordinate as the bit pattern of a
/// double-precision number.
#[derive(Clone, Copy, Debug, PartialEq, Eq, Structural)]
pub struct Point {
    pub x: u64,
    pub y: u64,
}

/// A point in the form under which it is compared and looked up. Two points
/// have the same key exactly if their ordinates are equal as numbers.
#[derive(Clone, Copy, Debug, PartialEq, Eq, Structural, Hash)]
pub struct CoordinateKey {
    pub x: u64,
    pub y: u64,
}

/// The directed edge from one key to the next.
#[derive(Clone, Copy, Debug, PartialEq, Eq, Structural, Hash)]
pub struct SegmentKey {
    pub start: CoordinateKey,
    pub end: CoordinateKey,
}

/// Whether either ordinate of the point is not a number.
pub open spec fn has_nan(point: Point) -> bool {
    is_nan(point.x) || is_nan(point.y)
}

/// The key of a point whose ordinates are numbers.
pub open spec fn key_of(point: Point) -> CoordinateKey {
    CoordinateKey { x: canonical(point.x), y: canonical(point.y) }
}

/// Whether two points are the same location: equal as numbers in both ordinates.
pub open spec fn same_location(a: Point, b: Point) -> bool {
    same_number(a.x, b.x) && same_number(a.y, b.y)
}

/// Tells whether a bit pattern is not a number.
pub fn bits_are_nan(bits: u64) -> (r: bool)
    ensures
        r == is_nan(bits),
{
    let unsigned: u64 = if bits >= SIGN_BIT {
        bits - SIGN_BIT
    } else {
        bits
    };
    unsigned > INFINITY_BITS
}

/// The key of a point, or `InvalidCoordinate` if an ordinate is not a number.
/// Nothing is rounded: points that differ in the last bit have different keys.
pub fn to_key(point: Point) -> (r: Result<CoordinateKey, OverlineError>)
    ensures
        has_nan(point) ==> r == Err::<CoordinateKey, OverlineError>(
            OverlineError::InvalidCoordinate,
        ),
        !has_nan(point) ==> r == Ok::<CoordinateKey, OverlineError>(key_of(point)),
{
    if bits_are_nan(point.x) || bits_are_nan(point.y) {
        return Err(OverlineError::InvalidCoordinate);
    }
    let x: u64 = if point.x == SIGN_BIT {
        0
    } else {
        point.x
    };
    let y: u64 = if point.y == SIGN_BIT {
        0
    } else {
        point.y
    };
    Ok(CoordinateKey { x, y })
}

/// Keys are equal exactly where the points are equal as numbers.
pub proof fn lemma_key_equality(a: Point, b: Point)
    requires
        !has_nan(a),
        !has_nan(b),
    ensures
        key_of(a) == key_of(b) <==> same_location(a, b),
{
}

} // verus!
