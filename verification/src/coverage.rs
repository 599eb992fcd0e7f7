//! What holds of the pieces as a whole: every step of every line is covered,
//! no run comes out twice, and every piece belongs to the first of its lines.

use crate::coordinate::{Point, SegmentKey};
use crate::grouping::{
    contributor_lists,
    keeps,
    lemma_no_start_no_piece,
    lemma_run_end,
    line_pieces,
    pieces,
    pieces_of_line,
    run_end,
    run_piece,
    starts_run,
    Piece,
};
use crate::pipeline::overline_pieces;
use crate::segment_index::{
    contributors,
    lemma_contributors,
    lemma_segment_map_complete,
    segment_at,
    segment_map,
    segments_of,
    usable,
};
use vstd::prelude::*;

verus! {

/// The segment at which the run through segment `j` begins.
pub open spec fn run_start(lists: Seq<Seq<usize>>, j: int) -> int
    decreases j,
{
    if j <= 0 || lists[j - 1] != lists[j] {
        j
    } else {
        run_start(lists, j - 1)
    }
}

/// Whether the piece passes, from its point `t` to the next, along `key`.
pub open spec fn has_step(piece: Piece, t: int, key: SegmentKey) -> bool {
    0 <= t < piece.geometry.len() - 1 && segment_at(piece.geometry, t) == key
}

/// A run begins at its start, not after the segment it runs through, and
/// every segment between has the same list.
pub proof fn lemma_run_start(lists: Seq<Seq<usize>>, j: int)
    requires
        0 <= j < lists.len(),
    ensures
        0 <= run_start(lists, j) <= j,
        starts_run(lists, run_start(lists, j)),
        forall|t: int| run_start(lists, j) <= t <= j ==> lists[t] == lists[j],
    decreases j,
{
    if j > 0 && lists[j - 1] == lists[j] {
        lemma_run_start(lists, j - 1);
    }
}

/// A run ends after its start and not after the last segment, every segment
/// before its end has the list of its start, and the segment at its end,
/// if there is one, has another list.
pub proof fn lemma_run_extent(lists: Seq<Seq<usize>>, s: int)
    requires
        0 <= s < lists.len(),
    ensures
        s < run_end(lists, s) <= lists.len(),
        forall|t: int| s <= t < run_end(lists, s) ==> lists[t] == lists[s],
        run_end(lists, s) < lists.len() ==> lists[run_end(lists, s)] != lists[s],
    decreases lists.len() - s,
{
    if s + 1 < lists.len() && lists[s + 1] == lists[s] {
        lemma_run_extent(lists, s + 1);
    }
}

/// A run that begins at `s` and reaches segment `j` is the run through `j`.
pub proof fn lemma_run_start_unique(lists: Seq<Seq<usize>>, s: int, j: int)
    requires
        0 <= s <= j < lists.len(),
        starts_run(lists, s),
        j < run_end(lists, s),
    ensures
        run_start(lists, j) == s,
    decreases j - s,
{
    lemma_run_extent(lists, s);
    if s < j {
        assert(lists[j - 1] == lists[s]);
        assert(lists[j] == lists[s]);
        if j - 1 < run_end(lists, s) {
            lemma_run_start_unique(lists, s, j - 1);
        }
    }
}

/// The pieces of the runs that begin before `from` come first among those of
/// the runs that begin before `upto`.
pub proof fn lemma_line_pieces_grow(
    line: Seq<Point>,
    lists: Seq<Seq<usize>>,
    idx: usize,
    from: int,
    upto: int,
)
    requires
        0 <= from <= upto,
    ensures
        line_pieces(line, lists, idx, from).is_prefix_of(line_pieces(line, lists, idx, upto)),
    decreases upto - from,
{
    if from < upto {
        lemma_line_pieces_grow(line, lists, idx, from, upto - 1);
    }
}

/// The run that begins at `s` and is kept has its piece among those of the
/// line, at the place that the number of kept runs before it gives.
pub proof fn lemma_piece_at(
    line: Seq<Point>,
    lists: Seq<Seq<usize>>,
    idx: usize,
    upto: int,
    s: int,
)
    requires
        0 <= s < upto <= lists.len(),
        starts_run(lists, s),
        keeps(lists[s], idx),
    ensures
        line_pieces(line, lists, idx, s).len() < line_pieces(line, lists, idx, upto).len(),
        line_pieces(line, lists, idx, upto)[line_pieces(line, lists, idx, s).len() as int]
            == run_piece(line, lists, s),
{
    lemma_line_pieces_grow(line, lists, idx, s + 1, upto);
    let k = line_pieces(line, lists, idx, s).len() as int;
    assert(line_pieces(line, lists, idx, s + 1) == line_pieces(line, lists, idx, s).push(
        run_piece(line, lists, s),
    ));
    assert(line_pieces(line, lists, idx, s + 1)[k] == run_piece(line, lists, s));
    assert(line_pieces(line, lists, idx, s + 1)[k] == line_pieces(line, lists, idx, upto)[k]);
}

/// Every piece of a line is that of a kept run, and its place is the number
/// of kept runs before that run. Returns the segment at which the run begins.
pub proof fn lemma_piece_origin(
    line: Seq<Point>,
    lists: Seq<Seq<usize>>,
    idx: usize,
    upto: int,
    p: int,
) -> (s: int)
    requires
        upto <= lists.len(),
        0 <= p < line_pieces(line, lists, idx, upto).len(),
    ensures
        0 <= s < upto,
        starts_run(lists, s),
        keeps(lists[s], idx),
        p == line_pieces(line, lists, idx, s).len(),
        line_pieces(line, lists, idx, upto)[p] == run_piece(line, lists, s),
    decreases upto,
{
    let before = line_pieces(line, lists, idx, upto - 1);
    if p < before.len() {
        lemma_piece_origin(line, lists, idx, upto - 1, p)
    } else {
        upto - 1
    }
}

/// The pieces of line `i` stand together among the pieces of the first `n`
/// lines, after those of the lines before it.
pub proof fn lemma_pieces_of_line_at(
    lines: Seq<Seq<Point>>,
    map: Map<SegmentKey, Seq<usize>>,
    n: int,
    i: int,
    p: int,
)
    requires
        0 <= i < n,
        0 <= p < pieces_of_line(lines, map, i).len(),
    ensures
        pieces(lines, map, i).len() + p < pieces(lines, map, n).len(),
        pieces(lines, map, n)[pieces(lines, map, i).len() + p] == pieces_of_line(lines, map, i)[p],
    decreases n,
{
    if i < n - 1 {
        lemma_pieces_of_line_at(lines, map, n - 1, i, p);
    }
}

/// Every piece of the first `n` lines is a piece of one of them. Returns the
/// number of that line and the place of the piece among the line's pieces.
pub proof fn lemma_piece_line(
    lines: Seq<Seq<Point>>,
    map: Map<SegmentKey, Seq<usize>>,
    n: int,
    q: int,
) -> (at: (int, int))
    requires
        0 <= q < pieces(lines, map, n).len(),
    ensures
        0 <= at.0 < n,
        0 <= at.1 < pieces_of_line(lines, map, at.0).len(),
        q == pieces(lines, map, at.0).len() + at.1,
        pieces(lines, map, n)[q] == pieces_of_line(lines, map, at.0)[at.1],
    decreases n,
{
    let before = pieces(lines, map, n - 1);
    if q < before.len() {
        lemma_piece_line(lines, map, n - 1, q)
    } else {
        (n - 1, q - before.len())
    }
}

/// The contributor list of each segment of a line of the collection is the
/// list of the lines that traverse it, and holds the line's own number.
pub proof fn lemma_lists_of_line(lines: Seq<Seq<Point>>, i: int)
    requires
        lines.len() <= usize::MAX,
        0 <= i < lines.len(),
    ensures
        contributor_lists(lines[i], segment_map(lines)).len() == segments_of(lines[i]).len(),
        forall|j: int|
            0 <= j < segments_of(lines[i]).len() ==> {
                &&& (#[trigger] contributor_lists(lines[i], segment_map(lines))[j]) == contributors(
                    lines,
                    segments_of(lines[i])[j],
                )
                &&& contributors(lines, segments_of(lines[i])[j]).contains(i as usize)
            },
{
    assert forall|j: int| 0 <= j < segments_of(lines[i]).len() implies {
        &&& (#[trigger] contributor_lists(lines[i], segment_map(lines))[j]) == contributors(
            lines,
            segments_of(lines[i])[j],
        )
        &&& contributors(lines, segments_of(lines[i])[j]).contains(i as usize)
    } by {
        lemma_segment_map_complete(lines, i, j);
    }
}

/// A contributor list that holds the number of a line and no smaller number
/// begins with that number.
pub proof fn lemma_first_contributor(lines: Seq<Seq<Point>>, key: SegmentKey, idx: usize)
    requires
        lines.len() <= usize::MAX,
        contributors(lines, key).contains(idx),
        keeps(contributors(lines, key), idx),
    ensures
        contributors(lines, key).len() > 0,
        contributors(lines, key)[0] == idx,
{
    lemma_contributors(lines, key);
    let list = contributors(lines, key);
    let t = choose|t: int| 0 <= t < list.len() && list[t] == idx;
    assert(list[0] <= list[t]);
}

/// Every piece is a run of the line whose number comes first in its list.
/// The list is not empty and holds numbers of lines only, none smaller than
/// the first. The points of the piece are those of that line from point
/// `span.0` to point `span.1`, at least two, and every segment between has
/// exactly the piece's list as its contributors. The run is maximal: the
/// segment before it, and the one after it, has another list.
pub proof fn lemma_piece_owner(lines: Seq<Seq<Point>>, q: int) -> (span: (int, int))
    requires
        lines.len() <= usize::MAX,
        0 <= q < overline_pieces(lines).len(),
    ensures
        overline_pieces(lines)[q].indices.len() > 0,
        forall|k: int|
            0 <= k < overline_pieces(lines)[q].indices.len() ==> overline_pieces(
                lines,
            )[q].indices[0] <= #[trigger] overline_pieces(lines)[q].indices[k] < lines.len(),
        usable(lines[overline_pieces(lines)[q].indices[0] as int]),
        0 <= span.0 < span.1 < lines[overline_pieces(lines)[q].indices[0] as int].len(),
        overline_pieces(lines)[q].geometry == lines[overline_pieces(
            lines,
        )[q].indices[0] as int].subrange(span.0, span.1 + 1),
        forall|t: int|
            span.0 <= t < span.1 ==> contributors(
                lines,
                #[trigger] segment_at(lines[overline_pieces(lines)[q].indices[0] as int], t),
            ) == overline_pieces(lines)[q].indices,
        span.0 > 0 ==> contributors(
            lines,
            segment_at(lines[overline_pieces(lines)[q].indices[0] as int], span.0 - 1),
        ) != overline_pieces(lines)[q].indices,
        span.1 + 1 < lines[overline_pieces(lines)[q].indices[0] as int].len() ==> contributors(
            lines,
            segment_at(lines[overline_pieces(lines)[q].indices[0] as int], span.1),
        ) != overline_pieces(lines)[q].indices,
{
    let map = segment_map(lines);
    let n = lines.len() as int;
    let at = lemma_piece_line(lines, map, n, q);
    let i = at.0;
    let line = lines[i];
    let lists = contributor_lists(line, map);
    let s = lemma_piece_origin(line, lists, i as usize, lists.len() as int, at.1);
    let e = run_end(lists, s);
    let piece = overline_pieces(lines)[q];
    assert(piece == run_piece(line, lists, s));
    lemma_lists_of_line(lines, i);
    lemma_run_extent(lists, s);
    let key = segments_of(line)[s];
    assert(lists[s] == contributors(lines, key));
    lemma_contributors(lines, key);
    lemma_first_contributor(lines, key, i as usize);
    assert(piece.indices[0] == i as usize);
    assert forall|t: int| s <= t < e implies contributors(lines, #[trigger] segment_at(line, t))
        == piece.indices by {
        assert(lists[t] == lists[s]);
        assert(segments_of(line)[t] == segment_at(line, t));
    }
    if s > 0 {
        assert(lists[s - 1] == contributors(lines, segments_of(line)[s - 1]));
        assert(segments_of(line)[s - 1] == segment_at(line, s - 1));
    }
    if e + 1 < line.len() {
        assert(lists[e] == contributors(lines, segments_of(line)[e]));
        assert(segments_of(line)[e] == segment_at(line, e));
    }
    (s, e)
}

/// No segment is dropped: for every step from a point to the next of every
/// line that takes part, some piece passes along that step, and its list is
/// the list of all the lines that traverse the step. Returns the place of
/// such a piece and the place of the step among the piece's points.
pub proof fn lemma_coverage(lines: Seq<Seq<Point>>, i: int, j: int) -> (at: (int, int))
    requires
        lines.len() <= usize::MAX,
        0 <= i < lines.len(),
        0 <= j < segments_of(lines[i]).len(),
    ensures
        0 <= at.0 < overline_pieces(lines).len(),
        has_step(overline_pieces(lines)[at.0], at.1, segments_of(lines[i])[j]),
        overline_pieces(lines)[at.0].indices == contributors(lines, segments_of(lines[i])[j]),
{
    let map = segment_map(lines);
    let n = lines.len() as int;
    let key = segments_of(lines[i])[j];
    let list = contributors(lines, key);
    lemma_segment_map_complete(lines, i, j);
    lemma_contributors(lines, key);
    // The first line of the list is the one that emits the piece.
    let first = list[0];
    let o = first as int;
    assert(list.contains(first));
    assert(segments_of(lines[o]).contains(key));
    let line = lines[o];
    let at_line = choose|t: int| 0 <= t < segments_of(line).len() && segments_of(line)[t] == key;
    let lists = contributor_lists(line, map);
    lemma_lists_of_line(lines, o);
    assert(lists[at_line] == list);
    lemma_run_start(lists, at_line);
    let s = run_start(lists, at_line);
    assert(lists[s] == list);
    assert(keeps(list, first)) by {
        assert forall|k: int| 0 <= k < list.len() implies #[trigger] list[k] >= first by {
            assert(list[0] <= list[k]);
        }
    }
    lemma_piece_at(line, lists, first, lists.len() as int, s);
    let p = line_pieces(line, lists, first, s).len() as int;
    lemma_pieces_of_line_at(lines, map, n, o, p);
    let q = pieces(lines, map, o).len() + p;
    lemma_run_end_reaches(lists, s, at_line);
    lemma_run_extent(lists, s);
    let piece = run_piece(line, lists, s);
    assert(overline_pieces(lines)[q] == piece);
    let t = at_line - s;
    assert(piece.geometry[t] == line[at_line]);
    assert(piece.geometry[t + 1] == line[at_line + 1]);
    assert(segment_at(piece.geometry, t) == segment_at(line, at_line));
    (q, t)
}

/// A run does not end before a segment up to which every list is that of
/// its start.
pub proof fn lemma_run_end_reaches(lists: Seq<Seq<usize>>, s: int, j: int)
    requires
        0 <= s <= j < lists.len(),
        forall|t: int| s <= t <= j ==> lists[t] == lists[s],
    ensures
        j < run_end(lists, s),
    decreases j - s,
{
    if s < j {
        assert(lists[s + 1] == lists[s]);
        lemma_run_end_reaches(lists, s + 1, j);
    } else {
        lemma_run_extent(lists, s);
    }
}

/// Whether the line traverses `key` at most once.
pub open spec fn traverses_once(line: Seq<Point>, key: SegmentKey) -> bool {
    forall|a: int, b: int|
        0 <= a < segments_of(line).len() && 0 <= b < segments_of(line).len() && segments_of(
            line,
        )[a] == key && segments_of(line)[b] == key ==> a == b
}

/// A piece that passes along `key` is a run of the first line that traverses
/// `key`. Returns the segment of that line at which the run begins: the
/// step `t` of the piece is segment `start + t` of the line, and the place
/// of the piece follows from the line and the start.
pub proof fn lemma_locate_step(lines: Seq<Seq<Point>>, key: SegmentKey, q: int, t: int) -> (start:
    int)
    requires
        lines.len() <= usize::MAX,
        0 <= q < overline_pieces(lines).len(),
        has_step(overline_pieces(lines)[q], t, key),
    ensures
        contributors(lines, key).len() > 0,
        contributors(lines, key)[0] < lines.len(),
        overline_pieces(lines)[q].indices == contributors(lines, key),
        ({
            let o = contributors(lines, key)[0];
            let line = lines[o as int];
            let lists = contributor_lists(line, segment_map(lines));
            &&& 0 <= start
            &&& start + t < segments_of(line).len()
            &&& segments_of(line)[start + t] == key
            &&& starts_run(lists, start)
            &&& start + t < run_end(lists, start)
            &&& q == pieces(lines, segment_map(lines), o as int).len() + line_pieces(
                line,
                lists,
                o,
                start,
            ).len()
        }),
{
    let map = segment_map(lines);
    let n = lines.len() as int;
    let at = lemma_piece_line(lines, map, n, q);
    let i = at.0;
    let line = lines[i];
    let lists = contributor_lists(line, map);
    let s = lemma_piece_origin(line, lists, i as usize, lists.len() as int, at.1);
    let piece = overline_pieces(lines)[q];
    assert(piece == run_piece(line, lists, s));
    lemma_lists_of_line(lines, i);
    lemma_run_extent(lists, s);
    let j = s + t;
    assert(piece.geometry[t] == line[j]);
    assert(piece.geometry[t + 1] == line[j + 1]);
    assert(segments_of(line)[j] == segment_at(line, j));
    assert(lists[j] == lists[s]);
    assert(lists[j] == contributors(lines, key));
    lemma_first_contributor(lines, key, i as usize);
    s
}

/// Each step is in exactly one piece: where the first line that traverses
/// `key` traverses it once, two pieces that pass along `key` are the same
/// piece, and they pass along it at the same place.
pub proof fn lemma_coverage_unique(
    lines: Seq<Seq<Point>>,
    key: SegmentKey,
    q1: int,
    t1: int,
    q2: int,
    t2: int,
)
    requires
        lines.len() <= usize::MAX,
        0 <= q1 < overline_pieces(lines).len(),
        0 <= q2 < overline_pieces(lines).len(),
        has_step(overline_pieces(lines)[q1], t1, key),
        has_step(overline_pieces(lines)[q2], t2, key),
        traverses_once(lines[contributors(lines, key)[0] as int], key),
    ensures
        q1 == q2,
        t1 == t2,
{
    let s1 = lemma_locate_step(lines, key, q1, t1);
    let s2 = lemma_locate_step(lines, key, q2, t2);
    let o = contributors(lines, key)[0];
    let line = lines[o as int];
    let lists = contributor_lists(line, segment_map(lines));
    assert(s1 + t1 == s2 + t2);
    lemma_run_start_unique(lists, s1, s1 + t1);
    lemma_run_start_unique(lists, s2, s2 + t2);
}

/// A line emits nothing where no list of its segments is kept.
pub proof fn lemma_nothing_kept(line: Seq<Point>, lists: Seq<Seq<usize>>, idx: usize, upto: int)
    requires
        forall|s: int| 0 <= s < upto ==> !keeps(#[trigger] lists[s], idx),
    ensures
        line_pieces(line, lists, idx, upto).len() == 0,
    decreases upto,
{
    if upto > 0 {
        lemma_nothing_kept(line, lists, idx, upto - 1);
    }
}

/// No duplicate emission: of two lines with the same segments throughout,
/// the later one emits no piece at all. What they share comes out with the
/// earlier line, or with a line before it.
pub proof fn lemma_no_duplicate_emission(lines: Seq<Seq<Point>>, a: int, b: int)
    requires
        lines.len() <= usize::MAX,
        0 <= a < b < lines.len(),
        segments_of(lines[a]) == segments_of(lines[b]),
    ensures
        pieces_of_line(lines, segment_map(lines), b).len() == 0,
{
    let map = segment_map(lines);
    let line = lines[b];
    let lists = contributor_lists(line, map);
    lemma_lists_of_line(lines, b);
    assert forall|s: int| 0 <= s < lists.len() implies !keeps(#[trigger] lists[s], b as usize) by {
        let key = segments_of(line)[s];
        lemma_segment_map_complete(lines, a, s);
        let list = contributors(lines, key);
        let k = choose|k: int| 0 <= k < list.len() && list[k] == a as usize;
        assert(lists[s][k] < b as usize);
    }
    lemma_nothing_kept(line, lists, b as usize, lists.len() as int);
}

/// A line that is the first of one and the same contributor list in every
/// one of its segments comes out as exactly one piece, whole, with that list.
pub proof fn lemma_whole_line_emitted(lines: Seq<Seq<Point>>, i: int)
    requires
        lines.len() <= usize::MAX,
        0 <= i < lines.len(),
        usable(lines[i]),
        contributors(lines, segments_of(lines[i])[0])[0] == i,
        forall|j: int|
            0 <= j < segments_of(lines[i]).len() ==> contributors(
                lines,
                #[trigger] segments_of(lines[i])[j],
            ) == contributors(lines, segments_of(lines[i])[0]),
    ensures
        pieces_of_line(lines, segment_map(lines), i) == seq![
            Piece {
                geometry: lines[i],
                indices: contributors(lines, segments_of(lines[i])[0]),
            },
        ],
{
    let map = segment_map(lines);
    let line = lines[i];
    let lists = contributor_lists(line, map);
    let n = lists.len() as int;
    let list = contributors(lines, segments_of(line)[0]);
    lemma_lists_of_line(lines, i);
    lemma_contributors(lines, segments_of(line)[0]);
    assert forall|j: int| 0 <= j < n implies lists[j] == list by {
        assert(lists[j] == contributors(lines, segments_of(line)[j]));
    }
    assert(keeps(list, i as usize)) by {
        assert forall|k: int| 0 <= k < list.len() implies #[trigger] list[k] >= i as usize by {
            assert(list[0] <= list[k]);
        }
    }
    lemma_run_end(lists, 0, n - 1);
    assert(line.subrange(0, n + 1) =~= line);
    assert(line_pieces(line, lists, i as usize, 0) =~= Seq::<Piece>::empty());
    assert(line_pieces(line, lists, i as usize, 1) =~= seq![run_piece(line, lists, 0)]);
    lemma_no_start_no_piece(line, lists, i as usize, 1, n);
}

/// Two lines that share a run over their whole length: where the earlier is
/// the first of one and the same contributor list in every segment, exactly
/// one piece comes out for the run. It comes out with the earlier line, holds
/// that line whole, and lists both lines; the later line emits nothing.
pub proof fn lemma_shared_line_emitted_once(lines: Seq<Seq<Point>>, a: int, b: int)
    requires
        lines.len() <= usize::MAX,
        0 <= a < b < lines.len(),
        usable(lines[a]),
        segments_of(lines[a]) == segments_of(lines[b]),
        contributors(lines, segments_of(lines[a])[0])[0] == a,
        forall|j: int|
            0 <= j < segments_of(lines[a]).len() ==> contributors(
                lines,
                #[trigger] segments_of(lines[a])[j],
            ) == contributors(lines, segments_of(lines[a])[0]),
    ensures
        pieces_of_line(lines, segment_map(lines), a) == seq![
            Piece {
                geometry: lines[a],
                indices: contributors(lines, segments_of(lines[a])[0]),
            },
        ],
        contributors(lines, segments_of(lines[a])[0]).contains(a as usize),
        contributors(lines, segments_of(lines[a])[0]).contains(b as usize),
        pieces_of_line(lines, segment_map(lines), b).len() == 0,
{
    lemma_whole_line_emitted(lines, a);
    lemma_no_duplicate_emission(lines, a, b);
    lemma_segment_map_complete(lines, a, 0);
    lemma_segment_map_complete(lines, b, 0);
}

} // verus!
