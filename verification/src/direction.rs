//! The direction normalizer: rewrites a line into its canonical direction, so
//! that lines drawn against each other can be matched.

use crate::coordinate::{magnitude, Point, INFINITY_BITS, SIGN_BIT};
use crate::error::OverlineError;
use vstd::prelude::*;

verus! {

/// The sense in which a closed line turns.
#[derive(Clone, Copy, Debug, PartialEq, Eq, Structural)]
pub enum Winding {
    Clockwise,
    CounterClockwise,
}

/// What the direction normalizer has to know of one line. The library does
/// no trigonometry: its caller measures the line and hands the results in.
#[derive(Clone, Copy, Debug, PartialEq, Eq)]
pub struct Orientation {
    /// The winding of the points as given, if they have one.
    pub winding: Option<Winding>,
    /// The bearing in degrees from the first point to the last, as the bit
    /// pattern of a double-precision number.
    pub bearing: u64,
    /// The bearing in degrees from the last point to the first, likewise.
    pub reverse_bearing: u64,
}

/// Whether the bit pattern stands for a number below zero.
pub open spec fn is_negative(bits: u64) -> bool {
    bits > SIGN_BIT && magnitude(bits) <= INFINITY_BITS
}

/// Whether the bit pattern stands for a number that is neither infinite nor
/// not a number.
pub open spec fn is_finite(bits: u64) -> bool {
    magnitude(bits) < INFINITY_BITS
}

/// The points after the first step: turned round if they wind counter-clockwise.
pub open spec fn rewound(points: Seq<Point>, orientation: Orientation) -> Seq<Point> {
    if orientation.winding == Some(Winding::CounterClockwise) {
        points.reverse()
    } else {
        points
    }
}

/// The bearing from first to last point after the first step.
pub open spec fn bearing_after_rewinding(orientation: Orientation) -> u64 {
    if orientation.winding == Some(Winding::CounterClockwise) {
        orientation.reverse_bearing
    } else {
        orientation.bearing
    }
}

/// Whether the line cannot be given a direction: it has fewer than two
/// points, or the bearing that decides is not finite.
pub open spec fn degenerate(points: Seq<Point>, orientation: Orientation) -> bool {
    points.len() < 2 || !is_finite(bearing_after_rewinding(orientation))
}

/// The points in canonical direction: wound clockwise, and then turned round
/// if the bearing from first to last is below zero.
pub open spec fn normalized(points: Seq<Point>, orientation: Orientation) -> Seq<Point> {
    if is_negative(bearing_after_rewinding(orientation)) {
        rewound(points, orientation).reverse()
    } else {
        rewound(points, orientation)
    }
}

/// Whether a line is in canonical direction already: it does not wind
/// counter-clockwise and its bearing is not below zero.
pub open spec fn canonical_direction(orientation: Orientation) -> bool {
    orientation.winding != Some(Winding::CounterClockwise) && !is_negative(orientation.bearing)
}

/// Tells whether the bit pattern stands for a number below zero.
pub fn bits_are_negative(bits: u64) -> (r: bool)
    ensures
        r == is_negative(bits),
{
    bits > SIGN_BIT && bits - SIGN_BIT <= INFINITY_BITS
}

/// Tells whether the bit pattern stands for a finite number.
pub fn bits_are_finite(bits: u64) -> (r: bool)
    ensures
        r == is_finite(bits),
{
    let unsigned: u64 = if bits >= SIGN_BIT {
        bits - SIGN_BIT
    } else {
        bits
    };
    unsigned < INFINITY_BITS
}

/// A copy of the points in the same order.
pub fn copy_points(points: &Vec<Point>) -> (copy: Vec<Point>)
    ensures
        copy@ == points@,
{
    let mut copy: Vec<Point> = Vec::new();
    let mut i: usize = 0;
    while i < points.len()
        invariant
            i <= points.len(),
            copy@ == points@.take(i as int),
        decreases points.len() - i,
    {
        copy.push(points[i]);
        assert(points@.take(i + 1) =~= points@.take(i as int).push(points[i as int]));
        i += 1;
    }
    assert(points@.take(points.len() as int) =~= points@);
    copy
}

/// A copy of the points in the opposite order.
pub fn reversed_points(points: &Vec<Point>) -> (copy: Vec<Point>)
    ensures
        copy@ == points@.reverse(),
{
    let mut copy: Vec<Point> = Vec::new();
    let mut i: usize = points.len();
    while i > 0
        invariant
            i <= points.len(),
            copy.len() == points.len() - i,
            forall|k: int| 0 <= k < copy.len() ==> copy[k] == points[points.len() - 1 - k],
        decreases i,
    {
        i -= 1;
        copy.push(points[i]);
    }
    assert(copy@ =~= points@.reverse());
    copy
}

/// Rewrites one line into its canonical direction. The line is first wound
/// clockwise; then, if the bearing from its first to its last point is below
/// zero, it is turned round. Nothing but the order of the points changes.
///
/// Fails with `DegenerateGeometry` exactly if the line has fewer than two
/// points or the deciding bearing is not finite.
pub fn normalize(points: &Vec<Point>, orientation: &Orientation) -> (r: Result<
    Vec<Point>,
    OverlineError,
>)
    ensures
        match r {
            Ok(line) => !degenerate(points@, *orientation) && line@ == normalized(
                points@,
                *orientation,
            ),
            Err(e) => degenerate(points@, *orientation) && e == OverlineError::DegenerateGeometry,
        },
{
    let turned: bool = match orientation.winding {
        Some(Winding::CounterClockwise) => true,
        _ => false,
    };
    let bearing: u64 = if turned {
        orientation.reverse_bearing
    } else {
        orientation.bearing
    };
    if points.len() < 2 || !bits_are_finite(bearing) {
        return Err(OverlineError::DegenerateGeometry);
    }
    if turned != bits_are_negative(bearing) {
        let line = reversed_points(points);
        proof {
            if turned {
                assert(line@ == rewound(points@, *orientation));
            } else {
                assert(line@ == rewound(points@, *orientation).reverse());
            }
        }
        Ok(line)
    } else {
        let line = copy_points(points);
        proof {
            if turned {
                assert(points@.reverse().reverse() =~= points@);
            }
        }
        Ok(line)
    }
}

/// Normalizing a line that is in canonical direction already yields the same
/// points.
pub proof fn lemma_normalize_canonical(points: Seq<Point>, orientation: Orientation)
    requires
        canonical_direction(orientation),
    ensures
        normalized(points, orientation) == points,
{
}

/// Normalizing keeps the points and changes at most their order: the result
/// is the line itself or the line turned round.
pub proof fn lemma_normalize_keeps_points(points: Seq<Point>, orientation: Orientation)
    ensures
        normalized(points, orientation) == points || normalized(points, orientation)
            == points.reverse(),
{
    assert(points.reverse().reverse() =~= points);
}

} // verus!
