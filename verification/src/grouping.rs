//! The grouping scanner: cuts each line into maximal runs of segments that
//! the same lines traverse, and emits each run once.

use crate::coordinate::{Point, SegmentKey};
use crate::error::OverlineError;
use crate::segment_index::{line_segments, line_views, list_of, segments_of, SegmentIndex};
use vstd::prelude::*;

verus! {

/// One piece of the result: a stretch of one input line, and the numbers of
/// the input lines that all pass through exactly this stretch.
#[derive(Clone, Debug, PartialEq, Eq)]
pub struct Output {
    pub geometry: Vec<Point>,
    /// The numbers of the input lines that share this stretch.
    pub indices: Vec<usize>,
}

/// What an `Output` holds.
pub ghost struct Piece {
    pub geometry: Seq<Point>,
    pub indices: Seq<usize>,
}

impl View for Output {
    type V = Piece;

    open spec fn view(&self) -> Piece {
        Piece { geometry: self.geometry@, indices: self.indices@ }
    }
}

/// What each piece of a list holds.
pub open spec fn piece_views(pieces: Seq<Output>) -> Seq<Piece> {
    Seq::new(pieces.len(), |i: int| pieces[i]@)
}

/// The contributor list of each segment of a line, in order.
pub open spec fn contributor_lists(
    line: Seq<Point>,
    map: Map<SegmentKey, Seq<usize>>,
) -> Seq<Seq<usize>> {
    Seq::new(segments_of(line).len(), |j: int| list_of(map, segments_of(line)[j]))
}

/// Whether every segment of the line has a list in the map.
pub open spec fn covers_line(map: Map<SegmentKey, Seq<usize>>, line: Seq<Point>) -> bool {
    forall|j: int|
        0 <= j < segments_of(line).len() ==> map.contains_key(#[trigger] segments_of(line)[j])
}

/// Whether every segment of every line has a list in the map.
pub open spec fn covers(map: Map<SegmentKey, Seq<usize>>, lines: Seq<Seq<Point>>) -> bool {
    forall|i: int| 0 <= i < lines.len() ==> covers_line(map, #[trigger] lines[i])
}

/// Whether a run begins at segment `j`: it is the first segment, or its list
/// differs from that of the segment before.
pub open spec fn starts_run(lists: Seq<Seq<usize>>, j: int) -> bool {
    j == 0 || lists[j - 1] != lists[j]
}

/// The segment after the last one of the run through segment `j`: the first
/// later segment whose list differs, or the number of segments.
pub open spec fn run_end(lists: Seq<Seq<usize>>, j: int) -> int
    decreases lists.len() - j,
{
    if 0 <= j && j + 1 < lists.len() && lists[j + 1] == lists[j] {
        run_end(lists, j + 1)
    } else {
        j + 1
    }
}

/// Whether a run with this contributor list is emitted while line `idx` is
/// scanned: no contributor has a smaller number.
pub open spec fn keeps(list: Seq<usize>, idx: usize) -> bool {
    forall|k: int| 0 <= k < list.len() ==> #[trigger] list[k] >= idx
}

/// Whether every line number of the list is that of one of `count` lines.
pub open spec fn in_range(indices: Seq<usize>, count: nat) -> bool {
    forall|k: int| 0 <= k < indices.len() ==> #[trigger] indices[k] < count
}

/// The piece for the run that begins at segment `start` of the line.
pub open spec fn run_piece(line: Seq<Point>, lists: Seq<Seq<usize>>, start: int) -> Piece {
    Piece { geometry: line.subrange(start, run_end(lists, start) + 1), indices: lists[start] }
}

/// The pieces that the scan of line `idx` emits for the runs that begin
/// before segment `upto`, in order.
pub open spec fn line_pieces(
    line: Seq<Point>,
    lists: Seq<Seq<usize>>,
    idx: usize,
    upto: int,
) -> Seq<Piece>
    decreases upto,
{
    if upto <= 0 {
        Seq::empty()
    } else {
        let before = line_pieces(line, lists, idx, upto - 1);
        if starts_run(lists, upto - 1) && keeps(lists[upto - 1], idx) {
            before.push(run_piece(line, lists, upto - 1))
        } else {
            before
        }
    }
}

/// All the pieces that the scan of a line emits when it is line `idx`.
pub open spec fn scan_pieces(
    line: Seq<Point>,
    map: Map<SegmentKey, Seq<usize>>,
    idx: usize,
) -> Seq<Piece> {
    let lists = contributor_lists(line, map);
    line_pieces(line, lists, idx, lists.len() as int)
}

/// All the pieces that the scan of line `idx` of a collection emits.
pub open spec fn pieces_of_line(
    lines: Seq<Seq<Point>>,
    map: Map<SegmentKey, Seq<usize>>,
    idx: int,
) -> Seq<Piece> {
    scan_pieces(lines[idx], map, idx as usize)
}

/// The pieces that the scans of the first `n` lines emit, line after line.
pub open spec fn pieces(lines: Seq<Seq<Point>>, map: Map<SegmentKey, Seq<usize>>, n: int) -> Seq<
    Piece,
>
    decreases n,
{
    if n <= 0 {
        Seq::empty()
    } else {
        pieces(lines, map, n - 1) + pieces_of_line(lines, map, n - 1)
    }
}

/// Where no run begins between `from` and `upto`, no piece is added.
pub proof fn lemma_no_start_no_piece(
    line: Seq<Point>,
    lists: Seq<Seq<usize>>,
    idx: usize,
    from: int,
    upto: int,
)
    requires
        0 <= from <= upto,
        forall|t: int| from <= t < upto ==> !starts_run(lists, t),
    ensures
        line_pieces(line, lists, idx, upto) == line_pieces(line, lists, idx, from),
    decreases upto - from,
{
    if from < upto {
        lemma_no_start_no_piece(line, lists, idx, from, upto - 1);
    }
}

/// A run whose segments from `start` up to `j` share one list, and which
/// ends after `j`, has its end after `j`.
pub proof fn lemma_run_end(lists: Seq<Seq<usize>>, start: int, j: int)
    requires
        0 <= start <= j < lists.len(),
        forall|t: int| start <= t <= j ==> lists[t] == lists[start],
        j + 1 == lists.len() || lists[j + 1] != lists[start],
    ensures
        run_end(lists, start) == j + 1,
    decreases j - start,
{
    if start < j {
        assert(lists[start + 1] == lists[start]);
        lemma_run_end(lists, start + 1, j);
    }
}

/// Tells whether two lists hold the same numbers in the same order.
pub fn same_list(a: &Vec<usize>, b: &Vec<usize>) -> (same: bool)
    ensures
        same == (a@ == b@),
{
    if a.len() != b.len() {
        return false;
    }
    let mut i: usize = 0;
    while i < a.len()
        invariant
            i <= a.len(),
            a.len() == b.len(),
            forall|k: int| 0 <= k < i ==> a[k] == b[k],
        decreases a.len() - i,
    {
        if a[i] != b[i] {
            return false;
        }
        i += 1;
    }
    assert(a@ =~= b@);
    true
}

/// Tells whether no number of the list is smaller than `idx`.
pub fn all_at_least(list: &Vec<usize>, idx: usize) -> (all: bool)
    ensures
        all == keeps(list@, idx),
{
    let mut i: usize = 0;
    while i < list.len()
        invariant
            i <= list.len(),
            forall|k: int| 0 <= k < i ==> list[k] >= idx,
        decreases list.len() - i,
    {
        if list[i] < idx {
            return false;
        }
        i += 1;
    }
    true
}

/// A copy of a list.
fn copy_list(list: &Vec<usize>) -> (copy: Vec<usize>)
    ensures
        copy@ == list@,
{
    let mut copy: Vec<usize> = Vec::new();
    let mut i: usize = 0;
    while i < list.len()
        invariant
            i <= list.len(),
            copy@ == list@.take(i as int),
        decreases list.len() - i,
    {
        copy.push(list[i]);
        assert(list@.take(i + 1) =~= list@.take(i as int).push(list[i as int]));
        i += 1;
    }
    assert(list@.take(list.len() as int) =~= list@);
    copy
}

/// Walks the segments of line `idx` in order and cuts the line into maximal
/// runs of segments with one and the same contributor list. A run is emitted,
/// with the points it passes and that list, if no contributor has a smaller
/// number than `idx`: so a shared run comes out once, from its first line.
///
/// Fails with `InternalConsistencyFault` exactly if a segment of the line has
/// no list in the index.
pub fn group_line(line: &Vec<Point>, idx: usize, index: &SegmentIndex) -> (r: Result<
    Vec<Output>,
    OverlineError,
>)
    requires
        index.wf(),
    ensures
        match r {
            Ok(out) => covers_line(index@, line@) && piece_views(out@) == scan_pieces(
                line@,
                index@,
                idx,
            ),
            Err(e) => !covers_line(index@, line@) && e == OverlineError::InternalConsistencyFault,
        },
{
    let segments = line_segments(line);
    let n: usize = segments.len();
    let ghost lists = contributor_lists(line@, index@);
    let mut out: Vec<Output> = Vec::new();
    let mut points_so_far: Vec<Point> = Vec::new();
    let mut indices_so_far: Vec<usize> = Vec::new();
    let mut keep_this_run: bool = false;
    let ghost mut start: int = 0;
    let mut j: usize = 0;
    assert(piece_views(out@) =~= Seq::<Piece>::empty());
    while j < n
        invariant
            j <= n,
            index.wf(),
            segments@ == segments_of(line@),
            lists == contributor_lists(line@, index@),
            n == lists.len(),
            n > 0 ==> line.len() == n + 1,
            forall|t: int| 0 <= t < j ==> index@.contains_key(#[trigger] segments@[t]),
            j == 0 ==> piece_views(out@) == Seq::<Piece>::empty(),
            j > 0 ==> {
                &&& 0 <= start < j
                &&& starts_run(lists, start)
                &&& forall|t: int| start <= t < j ==> lists[t] == lists[start]
                &&& indices_so_far@ == lists[start]
                &&& keep_this_run == keeps(lists[start], idx)
                &&& points_so_far@ == line@.subrange(start, j + 1)
                &&& piece_views(out@) == line_pieces(line@, lists, idx, start)
            },
        decreases n - j,
    {
        let list = match index.get(&segments[j]) {
            Some(list) => list,
            None => {
                assert(!index@.contains_key(segments_of(line@)[j as int]));
                return Err(OverlineError::InternalConsistencyFault);
            },
        };
        assert(list@ == lists[j as int]);
        if j > 0 && same_list(&indices_so_far, list) {
            points_so_far.push(line[j + 1]);
            assert(points_so_far@ =~= line@.subrange(start, j + 2));
        } else {
            if j > 0 {
                // The run ends here.
                let ghost before = piece_views(out@);
                proof {
                    lemma_run_end(lists, start, j - 1);
                    lemma_no_start_no_piece(line@, lists, idx, start + 1, j as int);
                }
                if keep_this_run {
                    out.push(Output { geometry: points_so_far, indices: indices_so_far });
                    assert(piece_views(out@) =~= before.push(run_piece(line@, lists, start)));
                }
                assert(piece_views(out@) == line_pieces(line@, lists, idx, j as int));
            }
            points_so_far = Vec::new();
            points_so_far.push(line[j]);
            points_so_far.push(line[j + 1]);
            indices_so_far = copy_list(list);
            keep_this_run = all_at_least(&indices_so_far, idx);
            proof {
                start = j as int;
                assert(points_so_far@ =~= line@.subrange(start, j + 2));
            }
        }
        j += 1;
    }
    if n > 0 {
        let ghost before = piece_views(out@);
        proof {
            lemma_run_end(lists, start, n - 1);
            lemma_no_start_no_piece(line@, lists, idx, start + 1, n as int);
        }
        if keep_this_run {
            out.push(Output { geometry: points_so_far, indices: indices_so_far });
            assert(piece_views(out@) =~= before.push(run_piece(line@, lists, start)));
        }
    }
    Ok(out)
}

/// Scans the lines in order and returns the pieces of all of them, those of
/// an earlier line first.
///
/// Fails with `InternalConsistencyFault` exactly if a segment of some line has
/// no list in the index, which cannot happen with the index built from these
/// lines.
pub fn group(lines: &Vec<Vec<Point>>, index: &SegmentIndex) -> (r: Result<
    Vec<Output>,
    OverlineError,
>)
    requires
        index.wf(),
    ensures
        match r {
            Ok(out) => covers(index@, line_views(lines@)) && piece_views(out@) == pieces(
                line_views(lines@),
                index@,
                lines.len() as int,
            ),
            Err(e) => !covers(index@, line_views(lines@)) && e
                == OverlineError::InternalConsistencyFault,
        },
{
    let ghost views = line_views(lines@);
    let mut out: Vec<Output> = Vec::new();
    let mut i: usize = 0;
    assert(piece_views(out@) =~= Seq::<Piece>::empty());
    while i < lines.len()
        invariant
            i <= lines.len(),
            index.wf(),
            views == line_views(lines@),
            forall|t: int| 0 <= t < i ==> covers_line(index@, #[trigger] views[t]),
            piece_views(out@) == pieces(views, index@, i as int),
        decreases lines.len() - i,
    {
        match group_line(&lines[i], i, index) {
            Ok(mut more) => {
                let ghost before = piece_views(out@);
                let ghost added = piece_views(more@);
                out.append(&mut more);
                assert(piece_views(out@) =~= before + added);
            },
            Err(e) => {
                assert(!covers_line(index@, views[i as int]));
                return Err(e);
            },
        }
        i += 1;
    }
    Ok(out)
}

} // verus!
