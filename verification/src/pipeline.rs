//! From input lines to pieces: normalizer, index builder and scanner in turn.

use crate::coordinate::Point;
use crate::direction::{copy_points, degenerate, normalize, normalized, Orientation};
use crate::coverage::lemma_piece_owner;
use crate::grouping::{covers, group, in_range, piece_views, pieces, Output, Piece};
use crate::property::Property;
use crate::segment_index::{
    lemma_segment_map_complete,
    line_views,
    segment_map,
    segments_of,
    SegmentIndex,
};
use vstd::prelude::*;

verus! {

/// One input record: a line, what was measured of its direction, and its
/// property bag. A record without a linear geometry has no points. The
/// number of a record is its place in the input collection.
#[derive(Clone, Debug, PartialEq, Eq)]
pub struct InputLine {
    pub points: Vec<Point>,
    pub orientation: Orientation,
    pub properties: Vec<Property>,
}

/// How the lines are matched.
#[derive(Clone, Copy, Debug)]
pub struct Options {
    /// Whether lines drawn in opposite directions count as overlapping. Each
    /// line is then brought into its canonical direction before it is indexed.
    pub ignore_direction: bool,
}

impl Default for Options {
    fn default() -> (options: Options)
        ensures
            !options.ignore_direction,
    {
        Options { ignore_direction: false }
    }
}

/// The points with which an input line takes part: as given, or in canonical
/// direction if direction is ignored. A line that cannot be given a
/// direction takes part with no points.
pub open spec fn prepared_line(line: InputLine, options: Options) -> Seq<Point> {
    if !options.ignore_direction {
        line.points@
    } else if degenerate(line.points@, line.orientation) {
        Seq::empty()
    } else {
        normalized(line.points@, line.orientation)
    }
}

/// The points with which each input line takes part.
pub open spec fn prepared_lines(input: Seq<InputLine>, options: Options) -> Seq<Seq<Point>> {
    Seq::new(input.len(), |i: int| prepared_line(input[i], options))
}

/// The pieces into which a collection of lines falls: the lines are indexed
/// by segment, and every line is cut into its runs against that index.
pub open spec fn overline_pieces(lines: Seq<Seq<Point>>) -> Seq<Piece> {
    pieces(lines, segment_map(lines), lines.len() as int)
}

/// Brings every input line into the form in which it is indexed and scanned.
pub fn prepare(input: &Vec<InputLine>, options: Options) -> (lines: Vec<Vec<Point>>)
    ensures
        line_views(lines@) == prepared_lines(input@, options),
{
    let mut lines: Vec<Vec<Point>> = Vec::new();
    let mut i: usize = 0;
    while i < input.len()
        invariant
            i <= input.len(),
            lines.len() == i,
            forall|k: int| 0 <= k < i ==> (#[trigger] lines[k])@ == prepared_line(input[k], options),
        decreases input.len() - i,
    {
        let line: Vec<Point> = if options.ignore_direction {
            match normalize(&input[i].points, &input[i].orientation) {
                Ok(line) => line,
                Err(_) => Vec::new(),
            }
        } else {
            copy_points(&input[i].points)
        };
        lines.push(line);
        i += 1;
    }
    assert(line_views(lines@) =~= prepared_lines(input@, options));
    lines
}

/// The index built from a collection of lines has a list for every segment
/// of every one of them.
pub proof fn lemma_index_covers(lines: Seq<Seq<Point>>)
    requires
        lines.len() <= usize::MAX,
    ensures
        covers(segment_map(lines), lines),
{
    assert forall|i: int, j: int|
        0 <= i < lines.len() && 0 <= j < segments_of(lines[i]).len() implies segment_map(
        lines,
    ).contains_key(#[trigger] segments_of(lines[i])[j]) by {
        lemma_segment_map_complete(lines, i, j);
    }
}

/// Chops the input lines up to remove overlap. Every line is cut into its
/// maximal stretches that one and the same list of lines traverses, segment
/// for segment and in the same direction; each such stretch comes out once,
/// with the points of the first line of its list and with that list. A line
/// with fewer than two points, or with an ordinate that is not a number, is
/// passed over.
pub fn overline(input: &Vec<InputLine>, options: Options) -> (out: Vec<Output>)
    ensures
        piece_views(out@) == overline_pieces(prepared_lines(input@, options)),
        forall|p: int| 0 <= p < out.len() ==> in_range((#[trigger] out[p]).indices@, input@.len()),
{
    let lines = prepare(input, options);
    let index = SegmentIndex::build(&lines);
    proof {
        assert(line_views(lines@).len() == lines.len());
        lemma_index_covers(line_views(lines@));
    }
    match group(&lines, &index) {
        Ok(out) => {
            proof {
                assert forall|p: int| 0 <= p < out.len() implies in_range(
                    (#[trigger] out[p]).indices@,
                    input@.len(),
                ) by {
                    lemma_piece_owner(line_views(lines@), p);
                    assert(piece_views(out@)[p] == out[p]@);
                }
            }
            out
        },
        Err(_) => Vec::new(),
    }
}

} // verus!
