//! The segment index: for every directed segment, the lines that traverse it.

use crate::coordinate::{has_nan, key_of, to_key, Point, SegmentKey};
use std::collections::HashMap;
use vstd::prelude::*;

verus! {

/// Whether a line takes part: it has at least two points and every ordinate
/// is a number. Any other line contributes no segment.
pub open spec fn usable(line: Seq<Point>) -> bool {
    &&& line.len() >= 2
    &&& forall|i: int| 0 <= i < line.len() ==> !has_nan(#[trigger] line[i])
}

/// The directed segment from point `j` of the line to the next.
pub open spec fn segment_at(line: Seq<Point>, j: int) -> SegmentKey {
    SegmentKey { start: key_of(line[j]), end: key_of(line[j + 1]) }
}

/// The segments of a line in order: one per pair of consecutive points, and
/// none at all if the line is not usable.
pub open spec fn segments_of(line: Seq<Point>) -> Seq<SegmentKey> {
    if usable(line) {
        Seq::new((line.len() - 1) as nat, |j: int| segment_at(line, j))
    } else {
        Seq::empty()
    }
}

/// The points of each line of a collection.
pub open spec fn line_views(lines: Seq<Vec<Point>>) -> Seq<Seq<Point>> {
    Seq::new(lines.len(), |i: int| lines[i]@)
}

/// The line number `idx`, once for each time `key` occurs among `segments`.
pub open spec fn traversals(segments: Seq<SegmentKey>, key: SegmentKey, idx: usize) -> Seq<usize>
    decreases segments.len(),
{
    if segments.len() == 0 {
        Seq::empty()
    } else if segments.last() == key {
        traversals(segments.drop_last(), key, idx).push(idx)
    } else {
        traversals(segments.drop_last(), key, idx)
    }
}

/// The numbers of the lines that traverse `key`, in the order in which a scan
/// of the lines from first to last meets them.
pub open spec fn contributors(lines: Seq<Seq<Point>>, key: SegmentKey) -> Seq<usize>
    decreases lines.len(),
{
    if lines.len() == 0 {
        Seq::empty()
    } else {
        contributors(lines.drop_last(), key) + traversals(
            segments_of(lines.last()),
            key,
            (lines.len() - 1) as usize,
        )
    }
}

/// The index of a collection of lines: every segment that some line
/// traverses, with its contributors.
pub open spec fn segment_map(lines: Seq<Seq<Point>>) -> Map<SegmentKey, Seq<usize>> {
    Map::new(
        |key: SegmentKey| contributors(lines, key).len() > 0,
        |key: SegmentKey| contributors(lines, key),
    )
}

/// The list that `key` has in `map`, or the empty list if it has none.
pub open spec fn list_of(map: Map<SegmentKey, Seq<usize>>, key: SegmentKey) -> Seq<usize> {
    if map.contains_key(key) {
        map[key]
    } else {
        Seq::empty()
    }
}

/// The contributors of `key` when the scan has passed the first `i` lines and
/// the first `j` segments of line `i`.
pub open spec fn contributors_so_far(
    lines: Seq<Seq<Point>>,
    i: int,
    j: int,
    key: SegmentKey,
) -> Seq<usize> {
    contributors(lines.take(i), key) + traversals(
        segments_of(lines[i]).take(j),
        key,
        i as usize,
    )
}

/// The traversals of a key by one line hold nothing but the line's number,
/// and there is one exactly if the key is among the line's segments.
pub proof fn lemma_traversals(segments: Seq<SegmentKey>, key: SegmentKey, idx: usize)
    ensures
        forall|t: int|
            0 <= t < traversals(segments, key, idx).len() ==> #[trigger] traversals(
                segments,
                key,
                idx,
            )[t] == idx,
        traversals(segments, key, idx).len() > 0 <==> segments.contains(key),
    decreases segments.len(),
{
    if segments.len() > 0 {
        let shorter = segments.drop_last();
        lemma_traversals(shorter, key, idx);
        if segments.last() == key {
            assert(segments[segments.len() - 1] == key);
        } else if shorter.contains(key) {
            let t = choose|t: int| 0 <= t < shorter.len() && shorter[t] == key;
            assert(segments[t] == key);
        } else if segments.contains(key) {
            let t = choose|t: int| 0 <= t < segments.len() && segments[t] == key;
            assert(shorter[t] == key);
        }
    }
}

/// The contributor list of a key holds numbers of lines only, never falls
/// from one place to the next, and holds a line's number exactly if the key
/// is among that line's segments.
pub proof fn lemma_contributors(lines: Seq<Seq<Point>>, key: SegmentKey)
    requires
        lines.len() <= usize::MAX,
    ensures
        forall|t: int|
            0 <= t < contributors(lines, key).len() ==> #[trigger] contributors(lines, key)[t]
                < lines.len(),
        forall|s: int, t: int|
            0 <= s <= t < contributors(lines, key).len() ==> contributors(lines, key)[s]
                <= contributors(lines, key)[t],
        forall|i: int|
            0 <= i < lines.len() ==> (contributors(lines, key).contains(i as usize)
                <==> #[trigger] segments_of(lines[i]).contains(key)),
    decreases lines.len(),
{
    if lines.len() > 0 {
        let shorter = lines.drop_last();
        let last = (lines.len() - 1) as usize;
        let head = contributors(shorter, key);
        let tail = traversals(segments_of(lines.last()), key, last);
        let all = contributors(lines, key);
        lemma_contributors(shorter, key);
        lemma_traversals(segments_of(lines.last()), key, last);
        assert(all == head + tail);
        assert forall|i: int| 0 <= i < lines.len() implies (all.contains(i as usize)
            <==> #[trigger] segments_of(lines[i]).contains(key)) by {
            if i < lines.len() - 1 {
                assert(shorter[i] == lines[i]);
                if head.contains(i as usize) {
                    let t = choose|t: int| 0 <= t < head.len() && head[t] == i as usize;
                    assert(all[t] == i as usize);
                }
                if all.contains(i as usize) {
                    let t = choose|t: int| 0 <= t < all.len() && all[t] == i as usize;
                    if t >= head.len() {
                        assert(tail[t - head.len()] == last);
                    } else {
                        assert(head[t] == i as usize);
                    }
                }
            } else {
                if tail.len() > 0 {
                    assert(all[head.len() as int] == tail[0]);
                }
                if all.contains(i as usize) {
                    let t = choose|t: int| 0 <= t < all.len() && all[t] == i as usize;
                    if t < head.len() {
                        assert(head[t] < shorter.len());
                    }
                }
            }
        }
    }
}

/// The index of a collection of lines has a list for every segment of every
/// one of them, and that list holds the line's number.
pub proof fn lemma_segment_map_complete(lines: Seq<Seq<Point>>, i: int, j: int)
    requires
        lines.len() <= usize::MAX,
        0 <= i < lines.len(),
        0 <= j < segments_of(lines[i]).len(),
    ensures
        segment_map(lines).contains_key(segments_of(lines[i])[j]),
        segment_map(lines)[segments_of(lines[i])[j]] == contributors(
            lines,
            segments_of(lines[i])[j],
        ),
        contributors(lines, segments_of(lines[i])[j]).contains(i as usize),
{
    let key = segments_of(lines[i])[j];
    lemma_contributors(lines, key);
    assert(segments_of(lines[i]).contains(key));
}

/// Every segment of the index was produced by a line: its list is not
/// empty, and the first line of the list traverses it.
pub proof fn lemma_segment_map_sound(lines: Seq<Seq<Point>>, key: SegmentKey)
    requires
        lines.len() <= usize::MAX,
        segment_map(lines).contains_key(key),
    ensures
        segment_map(lines)[key].len() > 0,
        segment_map(lines)[key][0] < lines.len(),
        segments_of(lines[segment_map(lines)[key][0] as int]).contains(key),
{
    lemma_contributors(lines, key);
    let list = contributors(lines, key);
    assert(list.contains(list[0]));
}

/// The segments of a line as keys, or no segment if the line is not usable.
pub fn line_segments(line: &Vec<Point>) -> (segments: Vec<SegmentKey>)
    ensures
        segments@ == segments_of(line@),
{
    let mut segments: Vec<SegmentKey> = Vec::new();
    if line.len() < 2 {
        return segments;
    }
    let first = match to_key(line[0]) {
        Ok(key) => key,
        Err(_) => {
            return segments;
        },
    };
    let mut previous = first;
    let mut j: usize = 1;
    while j < line.len()
        invariant
            1 <= j <= line.len(),
            segments.len() == j - 1,
            forall|i: int| 0 <= i < j ==> !has_nan(#[trigger] line[i]),
            previous == key_of(line[j - 1]),
            forall|i: int| 0 <= i < j - 1 ==> segments[i] == segment_at(line@, i),
        decreases line.len() - j,
    {
        match to_key(line[j]) {
            Ok(key) => {
                segments.push(SegmentKey { start: previous, end: key });
                previous = key;
            },
            Err(_) => {
                return Vec::new();
            },
        }
        j += 1;
    }
    assert(segments@ =~= segments_of(line@));
    segments
}

/// One segment with the lines that traverse it.
struct Entry {
    key: SegmentKey,
    contributors: Vec<usize>,
}

/// The number under which the segments that leave one point are filed: the
/// two ordinates of the start, side by side.
spec fn bucket_key(key: SegmentKey) -> u128 {
    ((key.start.x as u128) << 64) | (key.start.y as u128)
}

fn bucket_key_of(key: &SegmentKey) -> (filed: u128)
    ensures
        filed == bucket_key(*key),
{
    ((key.start.x as u128) << 64) | (key.start.y as u128)
}

/// A mapping from directed segment to the list of the lines that traverse it,
/// in the order in which they were recorded. No list is empty.
///
/// The segments are filed by their start: a lookup hashes the start point
/// and then compares the few segments that leave it.
pub struct SegmentIndex {
    buckets: HashMap<u128, usize>,
    entries: Vec<Vec<Entry>>,
    map: Ghost<Map<SegmentKey, Seq<usize>>>,
}

impl View for SegmentIndex {
    type V = Map<SegmentKey, Seq<usize>>;

    closed spec fn view(&self) -> Map<SegmentKey, Seq<usize>> {
        self.map@
    }
}

impl SegmentIndex {
    /// The entries are exactly the pairs of the mapping, each key once, and
    /// each entry lies in the bucket of its start.
    pub closed spec fn wf(&self) -> bool {
        &&& forall|filed: u128| #[trigger]
            self.buckets@.contains_key(filed) ==> self.buckets@[filed] < self.entries.len()
        &&& forall|b: int, e: int|
            0 <= b < self.entries.len() && 0 <= e < self.entries[b].len() ==> {
                &&& self.map@.contains_key((#[trigger] self.entries[b][e]).key)
                &&& self.map@[self.entries[b][e].key] == self.entries[b][e].contributors@
                &&& self.entries[b][e].contributors@.len() > 0
                &&& self.buckets@.contains_key(bucket_key(self.entries[b][e].key))
                &&& self.buckets@[bucket_key(self.entries[b][e].key)] == b
            }
        &&& forall|b: int, e: int, f: int|
            0 <= b < self.entries.len() && 0 <= e < f < self.entries[b].len() ==> (
            #[trigger] self.entries[b][e]).key != (#[trigger] self.entries[b][f]).key
        &&& forall|key: SegmentKey|
            self.map@.contains_key(key) ==> exists|b: int, e: int|
                0 <= b < self.entries.len() && 0 <= e < self.entries[b].len() && (
                #[trigger] self.entries[b][e]).key == key
    }

    /// Every list of the index has at least one line.
    pub proof fn lemma_lists_nonempty(&self, key: SegmentKey)
        requires
            self.wf(),
            self@.contains_key(key),
        ensures
            self@[key].len() > 0,
    {
        let (b, e) = choose|b: int, e: int|
            0 <= b < self.entries.len() && 0 <= e < self.entries[b].len() && (
            #[trigger] self.entries[b][e]).key == key;
        assert(self.entries[b][e].key == key);
    }

    /// An index without segments.
    pub fn new() -> (index: SegmentIndex)
        ensures
            index.wf(),
            index@ == Map::<SegmentKey, Seq<usize>>::empty(),
    {
        SegmentIndex { buckets: HashMap::new(), entries: Vec::new(), map: Ghost(Map::empty()) }
    }

    /// The bucket in which `key` would lie.
    fn bucket(&self, key: &SegmentKey) -> (found: Option<usize>)
        requires
            self.wf(),
        ensures
            match found {
                Some(b) => b < self.entries.len() && self.buckets@.contains_key(bucket_key(*key))
                    && self.buckets@[bucket_key(*key)] == b,
                None => !self.buckets@.contains_key(bucket_key(*key)),
            },
    {
        let filed: u128 = bucket_key_of(key);
        match self.buckets.get(&filed) {
            Some(b) => Some(*b),
            None => None,
        }
    }

    /// The place of `key` among the entries of bucket `b`.
    fn position(&self, b: usize, key: &SegmentKey) -> (found: Option<usize>)
        requires
            self.wf(),
            b < self.entries.len(),
            self.buckets@.contains_key(bucket_key(*key)),
            self.buckets@[bucket_key(*key)] == b,
        ensures
            match found {
                Some(e) => e < self.entries[b as int].len() && self.entries[b as int][e as int].key
                    == *key,
                None => !self@.contains_key(*key),
            },
    {
        let bucket = &self.entries[b];
        let mut e: usize = 0;
        while e < bucket.len()
            invariant
                e <= bucket.len(),
                bucket == self.entries[b as int],
                forall|f: int| 0 <= f < e ==> (#[trigger] self.entries[b as int][f]).key != *key,
            decreases bucket.len() - e,
        {
            if bucket[e].key == *key {
                return Some(e);
            }
            e += 1;
        }
        proof {
            if self@.contains_key(*key) {
                let (c, f) = choose|c: int, f: int|
                    0 <= c < self.entries.len() && 0 <= f < self.entries[c].len() && (
                    #[trigger] self.entries[c][f]).key == *key;
                assert(self.entries[c][f].key == *key);
                assert(c == b);
            }
        }
        None
    }

    /// The lines recorded for `key`, if any.
    pub fn get(&self, key: &SegmentKey) -> (found: Option<&Vec<usize>>)
        requires
            self.wf(),
        ensures
            match found {
                Some(list) => self@.contains_key(*key) && list@ == self@[*key],
                None => !self@.contains_key(*key),
            },
    {
        match self.bucket(key) {
            Some(b) => match self.position(b, key) {
                Some(e) => Some(&self.entries[b][e].contributors),
                None => None,
            },
            None => {
                proof {
                    if self@.contains_key(*key) {
                        let (c, f) = choose|c: int, f: int|
                            0 <= c < self.entries.len() && 0 <= f < self.entries[c].len() && (
                            #[trigger] self.entries[c][f]).key == *key;
                        assert(self.entries[c][f].key == *key);
                    }
                }
                None
            },
        }
    }

    /// Appends line `idx` to the list of `key`, which is created on first sight.
    pub fn record(&mut self, key: SegmentKey, idx: usize)
        requires
            old(self).wf(),
        ensures
            final(self).wf(),
            final(self)@ == old(self)@.insert(key, list_of(old(self)@, key).push(idx)),
    {
        let ghost then = *self;
        let found = self.bucket(&key);
        match found {
            Some(b) => {
                match self.position(b, &key) {
                    Some(e) => {
                        self.entries[b][e].contributors.push(idx);
                        proof {
                            self.map@ = self.map@.insert(
                                key,
                                self.entries[b as int][e as int].contributors@,
                            );
                        }
                        assert forall|k: SegmentKey| self.map@.contains_key(k) implies exists|
                            c: int,
                            f: int,
                        |
                            0 <= c < self.entries.len() && 0 <= f < self.entries[c].len() && (
                            #[trigger] self.entries[c][f]).key == k by {
                            if k == key {
                                assert(self.entries[b as int][e as int].key == k);
                            } else {
                                let (c, f) = choose|c: int, f: int|
                                    0 <= c < then.entries.len() && 0 <= f < then.entries[c].len()
                                        && (#[trigger] then.entries[c][f]).key == k;
                                assert(self.entries[c][f].key == k);
                            }
                        }
                    },
                    None => {
                        let mut contributors: Vec<usize> = Vec::new();
                        contributors.push(idx);
                        self.entries[b].push(Entry { key, contributors });
                        proof {
                            self.map@ = self.map@.insert(key, seq![idx]);
                        }
                        assert(Seq::<usize>::empty().push(idx) =~= seq![idx]);
                        let ghost last = self.entries[b as int].len() - 1;
                        assert forall|k: SegmentKey| self.map@.contains_key(k) implies exists|
                            c: int,
                            f: int,
                        |
                            0 <= c < self.entries.len() && 0 <= f < self.entries[c].len() && (
                            #[trigger] self.entries[c][f]).key == k by {
                            if k == key {
                                assert(self.entries[b as int][last].key == k);
                            } else {
                                let (c, f) = choose|c: int, f: int|
                                    0 <= c < then.entries.len() && 0 <= f < then.entries[c].len()
                                        && (#[trigger] then.entries[c][f]).key == k;
                                assert(self.entries[c][f].key == k);
                            }
                        }
                    },
                }
            },
            None => {
                let mut contributors: Vec<usize> = Vec::new();
                contributors.push(idx);
                let mut bucket: Vec<Entry> = Vec::new();
                bucket.push(Entry { key, contributors });
                let b: usize = self.entries.len();
                self.entries.push(bucket);
                self.buckets.insert(bucket_key_of(&key), b);
                proof {
                    self.map@ = self.map@.insert(key, seq![idx]);
                    if then@.contains_key(key) {
                        let (c, f) = choose|c: int, f: int|
                            0 <= c < then.entries.len() && 0 <= f < then.entries[c].len() && (
                            #[trigger] then.entries[c][f]).key == key;
                        assert(then.entries[c][f].key == key);
                    }
                }
                assert(Seq::<usize>::empty().push(idx) =~= seq![idx]);
                assert forall|k: SegmentKey| self.map@.contains_key(k) implies exists|
                    c: int,
                    f: int,
                |
                    0 <= c < self.entries.len() && 0 <= f < self.entries[c].len() && (
                    #[trigger] self.entries[c][f]).key == k by {
                    if k == key {
                        assert(self.entries[b as int][0].key == k);
                    } else {
                        let (c, f) = choose|c: int, f: int|
                            0 <= c < then.entries.len() && 0 <= f < then.entries[c].len() && (
                            #[trigger] then.entries[c][f]).key == k;
                        assert(self.entries[c][f].key == k);
                    }
                }
            },
        }
    }

    /// Scans every line in order and, for every pair of consecutive points,
    /// appends the line's number to the list of that segment.
    pub fn build(lines: &Vec<Vec<Point>>) -> (index: SegmentIndex)
        ensures
            index.wf(),
            index@ == segment_map(line_views(lines@)),
    {
        let ghost views = line_views(lines@);
        let mut index = SegmentIndex::new();
        let mut i: usize = 0;
        assert(views.take(0) =~= Seq::<Seq<Point>>::empty());
        while i < lines.len()
            invariant
                i <= lines.len(),
                views == line_views(lines@),
                index.wf(),
                forall|key: SegmentKey| list_of(index@, key) == contributors(views.take(i as int), key),
            decreases lines.len() - i,
        {
            let segments = line_segments(&lines[i]);
            let mut j: usize = 0;
            assert(segments@.take(0) =~= Seq::<SegmentKey>::empty());
            while j < segments.len()
                invariant
                    i < lines.len(),
                    j <= segments.len(),
                    views == line_views(lines@),
                    segments@ == segments_of(views[i as int]),
                    index.wf(),
                    forall|key: SegmentKey|
                        list_of(index@, key) == contributors_so_far(views, i as int, j as int, key),
                decreases segments.len() - j,
            {
                let ghost before = index@;
                index.record(segments[j], i);
                proof {
                    let taken = segments@.take(j + 1);
                    assert(taken.drop_last() =~= segments@.take(j as int));
                    assert(taken.last() == segments@[j as int]);
                    assert forall|key: SegmentKey|
                        list_of(index@, key) == contributors_so_far(
                            views,
                            i as int,
                            j + 1,
                            key,
                        ) by {
                        assert(list_of(before, key) == contributors_so_far(
                            views,
                            i as int,
                            j as int,
                            key,
                        ));
                        if key == segments@[j as int] {
                            assert(list_of(index@, key) =~= contributors_so_far(
                                views,
                                i as int,
                                j + 1,
                                key,
                            ));
                        }
                    }
                }
                j += 1;
            }
            proof {
                assert(segments@.take(segments@.len() as int) =~= segments@);
                let next = views.take(i + 1);
                assert(next.drop_last() =~= views.take(i as int));
                assert(next.last() == views[i as int]);
            }
            i += 1;
        }
        proof {
            assert(views.take(lines.len() as int) =~= views);
            assert forall|key: SegmentKey| index@.contains_key(key) implies index@[key].len()
                > 0 by {
                index.lemma_lists_nonempty(key);
            }
            assert forall|key: SegmentKey| index@.contains_key(key) implies index@[key]
                == contributors(views, key) by {
                assert(list_of(index@, key) == contributors(views, key));
            }
            assert forall|key: SegmentKey|
                index@.contains_key(key) <==> contributors(views, key).len() > 0 by {
                assert(list_of(index@, key) == contributors(views, key));
            }
            assert(index@ =~= segment_map(views));
        }
        index
    }
}

} // verus!
