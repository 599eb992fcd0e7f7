//! The aggregation engine: the value that each piece has for each requested
//! property, computed from the property bags of the lines of the piece.

use crate::coordinate::{is_nan, bits_are_nan, magnitude, Point, SIGN_BIT};
use crate::direction::copy_points;
use crate::grouping::{in_range, Output, Piece};
use crate::pipeline::InputLine;
use crate::property::{find_property, lookup, number_of, PropertyValue};
use vstd::prelude::*;

verus! {

/// How the values that a property has in the lines of one piece become the
/// value that the piece has.
#[derive(Clone, Copy, Debug, PartialEq, Eq, Structural)]
pub enum Aggregation {
    /// The value of the first line that has the property, as it is.
    KeepAny,
    /// The sum of the numbers.
    Sum,
    /// The least of the numbers.
    Min,
    /// The greatest of the numbers.
    Max,
    /// The sum of the numbers divided by their count.
    Mean,
}

/// The value that a piece has for one requested property. The library adds
/// and divides no double-precision numbers: for a sum and a mean it hands out
/// the numbers to combine, in the order in which they are to be added.
#[derive(Clone, Debug, PartialEq, Eq)]
pub enum Aggregate {
    /// A value kept as it is.
    Value(PropertyValue),
    /// The least or the greatest number, as its bit pattern.
    Number(u64),
    /// The terms of a sum, at least one.
    SumOf(Vec<u64>),
    /// The terms of a mean, at least one.
    MeanOf(Vec<u64>),
}

/// What an `Aggregate` holds.
pub ghost enum Summary {
    Value(PropertyValue),
    Number(u64),
    SumOf(Seq<u64>),
    MeanOf(Seq<u64>),
}

impl View for Aggregate {
    type V = Summary;

    open spec fn view(&self) -> Summary {
        match self {
            Aggregate::Value(value) => Summary::Value(*value),
            Aggregate::Number(bits) => Summary::Number(*bits),
            Aggregate::SumOf(terms) => Summary::SumOf(terms@),
            Aggregate::MeanOf(terms) => Summary::MeanOf(terms@),
        }
    }
}

/// A requested property of a piece with its value.
#[derive(Clone, Debug, PartialEq, Eq)]
pub struct AggregatedProperty {
    pub name: String,
    pub value: Aggregate,
}

/// A piece with the values of the requested properties. A property that no
/// line of the piece has, or of which no value is a number where numbers
/// are asked for, is left out.
#[derive(Clone, Debug, PartialEq, Eq)]
pub struct AggregatedPiece {
    pub geometry: Vec<Point>,
    pub properties: Vec<AggregatedProperty>,
}

/// What an `AggregatedPiece` holds.
pub ghost struct AggregatedView {
    pub geometry: Seq<Point>,
    pub properties: Seq<(Seq<char>, Summary)>,
}

/// What a list of aggregated properties holds.
pub open spec fn property_views(properties: Seq<AggregatedProperty>) -> Seq<(Seq<char>, Summary)> {
    Seq::new(properties.len(), |i: int| (properties[i].name@, properties[i].value@))
}

impl View for AggregatedPiece {
    type V = AggregatedView;

    open spec fn view(&self) -> AggregatedView {
        AggregatedView {
            geometry: self.geometry@,
            properties: property_views(self.properties@),
        }
    }
}

/// The values that the lines of a piece have for a property, in the order of
/// the lines. A line without the property adds nothing.
pub open spec fn available(input: Seq<InputLine>, indices: Seq<usize>, name: Seq<char>) -> Seq<
    PropertyValue,
>
    decreases indices.len(),
{
    if indices.len() == 0 {
        Seq::empty()
    } else {
        let before = available(input, indices.drop_last(), name);
        match lookup(input[indices.last() as int].properties@, name) {
            Some(value) => before.push(value),
            None => before,
        }
    }
}

/// The numbers among the values, in order. A value that is no number adds
/// nothing.
pub open spec fn numbers(values: Seq<PropertyValue>) -> Seq<u64>
    decreases values.len(),
{
    if values.len() == 0 {
        Seq::empty()
    } else {
        let before = numbers(values.drop_last());
        match number_of(values.last()) {
            Some(bits) => before.push(bits),
            None => before,
        }
    }
}

/// The bit patterns that stand for a number, in order.
pub open spec fn without_nan(bits: Seq<u64>) -> Seq<u64>
    decreases bits.len(),
{
    if bits.len() == 0 {
        Seq::empty()
    } else if is_nan(bits.last()) {
        without_nan(bits.drop_last())
    } else {
        without_nan(bits.drop_last()).push(bits.last())
    }
}

/// The place of a number in the order of the numbers: a bit pattern stands
/// for a smaller number exactly if its rank is smaller. The two zeros have
/// the same rank.
pub open spec fn rank(bits: u64) -> int {
    if bits >= SIGN_BIT {
        -(magnitude(bits) as int)
    } else {
        bits as int
    }
}

/// The least of the numbers; of several that are equally small, the first.
pub open spec fn least(candidates: Seq<u64>) -> u64
    decreases candidates.len(),
{
    if candidates.len() <= 1 {
        candidates[0]
    } else {
        let before = least(candidates.drop_last());
        if rank(candidates.last()) < rank(before) {
            candidates.last()
        } else {
            before
        }
    }
}

/// The greatest of the numbers; of several that are equally great, the last.
pub open spec fn greatest(candidates: Seq<u64>) -> u64
    decreases candidates.len(),
{
    if candidates.len() <= 1 {
        candidates[0]
    } else {
        let before = greatest(candidates.drop_last());
        if rank(candidates.last()) >= rank(before) {
            candidates.last()
        } else {
            before
        }
    }
}

/// The value that a piece with these lines has for one request, if it has one.
pub open spec fn aggregate(
    input: Seq<InputLine>,
    indices: Seq<usize>,
    name: Seq<char>,
    kind: Aggregation,
) -> Option<Summary> {
    let values = available(input, indices, name);
    let terms = numbers(values);
    let candidates = without_nan(terms);
    match kind {
        Aggregation::KeepAny => if values.len() > 0 {
            Some(Summary::Value(values[0]))
        } else {
            None
        },
        Aggregation::Sum => if terms.len() > 0 {
            Some(Summary::SumOf(terms))
        } else {
            None
        },
        Aggregation::Mean => if terms.len() > 0 {
            Some(Summary::MeanOf(terms))
        } else {
            None
        },
        Aggregation::Min => if candidates.len() > 0 {
            Some(Summary::Number(least(candidates)))
        } else {
            None
        },
        Aggregation::Max => if candidates.len() > 0 {
            Some(Summary::Number(greatest(candidates)))
        } else {
            None
        },
    }
}

/// The properties that a piece has for the first `upto` requests: one for
/// each request that has a value, in the order of the requests.
pub open spec fn aggregates(
    input: Seq<InputLine>,
    indices: Seq<usize>,
    requests: Seq<(String, Aggregation)>,
    upto: int,
) -> Seq<(Seq<char>, Summary)>
    decreases upto,
{
    if upto <= 0 {
        Seq::empty()
    } else {
        let before = aggregates(input, indices, requests, upto - 1);
        let request = requests[upto - 1];
        match aggregate(input, indices, request.0@, request.1) {
            Some(summary) => before.push((request.0@, summary)),
            None => before,
        }
    }
}

/// A piece with its aggregated properties.
pub open spec fn aggregated(
    input: Seq<InputLine>,
    piece: Piece,
    requests: Seq<(String, Aggregation)>,
) -> AggregatedView {
    AggregatedView {
        geometry: piece.geometry,
        properties: aggregates(input, piece.indices, requests, requests.len() as int),
    }
}

/// The values of the first lines are the first of the values of all lines.
pub proof fn lemma_available_prefix(
    input: Seq<InputLine>,
    indices: Seq<usize>,
    name: Seq<char>,
    k: int,
)
    requires
        0 <= k <= indices.len(),
    ensures
        available(input, indices.take(k), name).is_prefix_of(available(input, indices, name)),
    decreases indices.len() - k,
{
    if k == indices.len() {
        assert(indices.take(k) =~= indices);
    } else {
        lemma_available_prefix(input, indices, name, k + 1);
        assert(indices.take(k + 1).drop_last() =~= indices.take(k));
    }
}

/// Tells whether the first bit pattern stands for a smaller number than the
/// second.
pub fn number_less(a: u64, b: u64) -> (less: bool)
    ensures
        less == (rank(a) < rank(b)),
{
    if a >= SIGN_BIT {
        if b >= SIGN_BIT {
            a > b
        } else {
            a > SIGN_BIT || b > 0
        }
    } else {
        if b >= SIGN_BIT {
            false
        } else {
            a < b
        }
    }
}

/// The value of the first line of the list that has the property.
pub fn first_available<'a>(input: &'a Vec<InputLine>, indices: &Vec<usize>, name: &String) -> (found:
    Option<&'a PropertyValue>)
    requires
        in_range(indices@, input@.len()),
    ensures
        match found {
            Some(value) => available(input@, indices@, name@).len() > 0 && available(
                input@,
                indices@,
                name@,
            )[0] == *value,
            None => available(input@, indices@, name@).len() == 0,
        },
{
    let mut k: usize = 0;
    assert(indices@.take(0) =~= Seq::<usize>::empty());
    while k < indices.len()
        invariant
            k <= indices.len(),
            in_range(indices@, input@.len()),
            available(input@, indices@.take(k as int), name@).len() == 0,
        decreases indices.len() - k,
    {
        proof {
            assert(indices@.take(k + 1).drop_last() =~= indices@.take(k as int));
            lemma_available_prefix(input@, indices@, name@, k + 1);
        }
        match find_property(&input[indices[k]].properties, name) {
            Some(value) => {
                proof {
                    let firsts = available(input@, indices@.take(k + 1), name@);
                    assert(firsts =~= seq![*value]);
                    assert(firsts[0] == available(input@, indices@, name@)[0]);
                }
                return Some(value);
            },
            None => {},
        }
        k += 1;
    }
    assert(indices@.take(indices.len() as int) =~= indices@);
    None
}

/// The numbers that the lines of the list have for the property, in the
/// order of the lines.
pub fn gather_numbers(input: &Vec<InputLine>, indices: &Vec<usize>, name: &String) -> (terms: Vec<
    u64,
>)
    requires
        in_range(indices@, input@.len()),
    ensures
        terms@ == numbers(available(input@, indices@, name@)),
{
    let mut terms: Vec<u64> = Vec::new();
    let mut k: usize = 0;
    assert(indices@.take(0) =~= Seq::<usize>::empty());
    while k < indices.len()
        invariant
            k <= indices.len(),
            in_range(indices@, input@.len()),
            terms@ == numbers(available(input@, indices@.take(k as int), name@)),
        decreases indices.len() - k,
    {
        let ghost before = available(input@, indices@.take(k as int), name@);
        proof {
            assert(indices@.take(k + 1).drop_last() =~= indices@.take(k as int));
        }
        match find_property(&input[indices[k]].properties, name) {
            Some(value) => {
                assert(before.push(*value).drop_last() =~= before);
                match value.as_number() {
                    Some(bits) => {
                        terms.push(bits);
                    },
                    None => {},
                }
            },
            None => {},
        }
        k += 1;
    }
    assert(indices@.take(indices.len() as int) =~= indices@);
    terms
}

/// The bit patterns of the list that stand for a number, in order.
pub fn drop_nan(bits: &Vec<u64>) -> (kept: Vec<u64>)
    ensures
        kept@ == without_nan(bits@),
{
    let mut kept: Vec<u64> = Vec::new();
    let mut k: usize = 0;
    assert(bits@.take(0) =~= Seq::<u64>::empty());
    while k < bits.len()
        invariant
            k <= bits.len(),
            kept@ == without_nan(bits@.take(k as int)),
        decreases bits.len() - k,
    {
        assert(bits@.take(k + 1).drop_last() =~= bits@.take(k as int));
        if !bits_are_nan(bits[k]) {
            kept.push(bits[k]);
        }
        k += 1;
    }
    assert(bits@.take(bits.len() as int) =~= bits@);
    kept
}

/// The least of the numbers, if there is any; of several that are equally
/// small, the first.
pub fn least_number(candidates: &Vec<u64>) -> (found: Option<u64>)
    ensures
        candidates.len() == 0 ==> found is None,
        candidates.len() > 0 ==> found == Some(least(candidates@)),
{
    if candidates.len() == 0 {
        return None;
    }
    let mut found: u64 = candidates[0];
    let mut k: usize = 1;
    assert(candidates@.take(1).len() == 1);
    while k < candidates.len()
        invariant
            1 <= k <= candidates.len(),
            found == least(candidates@.take(k as int)),
        decreases candidates.len() - k,
    {
        assert(candidates@.take(k + 1).drop_last() =~= candidates@.take(k as int));
        if number_less(candidates[k], found) {
            found = candidates[k];
        }
        k += 1;
    }
    assert(candidates@.take(candidates.len() as int) =~= candidates@);
    Some(found)
}

/// The greatest of the numbers, if there is any; of several that are equally
/// great, the last.
pub fn greatest_number(candidates: &Vec<u64>) -> (found: Option<u64>)
    ensures
        candidates.len() == 0 ==> found is None,
        candidates.len() > 0 ==> found == Some(greatest(candidates@)),
{
    if candidates.len() == 0 {
        return None;
    }
    let mut found: u64 = candidates[0];
    let mut k: usize = 1;
    assert(candidates@.take(1).len() == 1);
    while k < candidates.len()
        invariant
            1 <= k <= candidates.len(),
            found == greatest(candidates@.take(k as int)),
        decreases candidates.len() - k,
    {
        assert(candidates@.take(k + 1).drop_last() =~= candidates@.take(k as int));
        if !number_less(candidates[k], found) {
            found = candidates[k];
        }
        k += 1;
    }
    assert(candidates@.take(candidates.len() as int) =~= candidates@);
    Some(found)
}

/// The value that a piece with these lines has for one request, if it has one.
pub fn aggregate_property(
    input: &Vec<InputLine>,
    indices: &Vec<usize>,
    name: &String,
    kind: Aggregation,
) -> (found: Option<Aggregate>)
    requires
        in_range(indices@, input@.len()),
    ensures
        match found {
            Some(value) => aggregate(input@, indices@, name@, kind) == Some(value@),
            None => aggregate(input@, indices@, name@, kind) is None,
        },
{
    match kind {
        Aggregation::KeepAny => {
            match first_available(input, indices, name) {
                Some(value) => Some(Aggregate::Value(value.duplicate())),
                None => None,
            }
        },
        Aggregation::Sum => {
            let terms = gather_numbers(input, indices, name);
            if terms.len() > 0 {
                Some(Aggregate::SumOf(terms))
            } else {
                None
            }
        },
        Aggregation::Mean => {
            let terms = gather_numbers(input, indices, name);
            if terms.len() > 0 {
                Some(Aggregate::MeanOf(terms))
            } else {
                None
            }
        },
        Aggregation::Min => {
            let candidates = drop_nan(&gather_numbers(input, indices, name));
            match least_number(&candidates) {
                Some(bits) => Some(Aggregate::Number(bits)),
                None => None,
            }
        },
        Aggregation::Max => {
            let candidates = drop_nan(&gather_numbers(input, indices, name));
            match greatest_number(&candidates) {
                Some(bits) => Some(Aggregate::Number(bits)),
                None => None,
            }
        },
    }
}

/// Gives every piece the requested properties, each computed from the lines
/// of the piece alone. The geometry of a piece is copied unchanged, and no
/// property is copied that was not requested.
pub fn aggregate_properties(
    input: &Vec<InputLine>,
    grouped_indices: &Vec<Output>,
    properties: Vec<(String, Aggregation)>,
) -> (out: Vec<AggregatedPiece>)
    requires
        forall|p: int|
            0 <= p < grouped_indices.len() ==> in_range(
                (#[trigger] grouped_indices[p]).indices@,
                input@.len(),
            ),
    ensures
        out.len() == grouped_indices.len(),
        forall|p: int|
            0 <= p < out.len() ==> (#[trigger] out[p])@ == aggregated(
                input@,
                grouped_indices[p]@,
                properties@,
            ),
{
    let mut out: Vec<AggregatedPiece> = Vec::new();
    let mut p: usize = 0;
    while p < grouped_indices.len()
        invariant
            p <= grouped_indices.len(),
            out.len() == p,
            forall|q: int|
                0 <= q < grouped_indices.len() ==> in_range(
                    (#[trigger] grouped_indices[q]).indices@,
                    input@.len(),
                ),
            forall|q: int|
                0 <= q < p ==> (#[trigger] out[q])@ == aggregated(
                    input@,
                    grouped_indices[q]@,
                    properties@,
                ),
        decreases grouped_indices.len() - p,
    {
        let grouped = &grouped_indices[p];
        let mut found: Vec<AggregatedProperty> = Vec::new();
        let mut r: usize = 0;
        assert(property_views(found@) =~= Seq::<(Seq<char>, Summary)>::empty());
        while r < properties.len()
            invariant
                r <= properties.len(),
                in_range(grouped.indices@, input@.len()),
                property_views(found@) == aggregates(
                    input@,
                    grouped.indices@,
                    properties@,
                    r as int,
                ),
            decreases properties.len() - r,
        {
            let ghost before = property_views(found@);
            match aggregate_property(input, &grouped.indices, &properties[r].0, properties[r].1) {
                Some(value) => {
                    found.push(AggregatedProperty { name: properties[r].0.clone(), value });
                    assert(property_views(found@) =~= before.push(
                        (properties[r as int].0@, value@),
                    ));
                },
                None => {},
            }
            r += 1;
        }
        out.push(AggregatedPiece { geometry: copy_points(&grouped.geometry), properties: found });
        p += 1;
    }
    out
}

/// The number that each line of the list has for the property, in the order
/// of the lines, if every one of them has the property and has a number
/// for it.
pub open spec fn read_all(input: Seq<InputLine>, indices: Seq<usize>, name: Seq<char>) -> Option<
    Seq<u64>,
>
    decreases indices.len(),
{
    if indices.len() == 0 {
        Some(Seq::empty())
    } else {
        match (
            read_all(input, indices.drop_last(), name),
            lookup(input[indices.last() as int].properties@, name),
        ) {
            (Some(before), Some(PropertyValue::Number(bits))) => Some(before.push(bits)),
            _ => None,
        }
    }
}

/// Reads the property from every line of the list. The result is `None`
/// exactly if some line lacks the property or has no number for it.
pub fn read_numbers(input: &Vec<InputLine>, indices: &Vec<usize>, name: &String) -> (terms: Option<
    Vec<u64>,
>)
    requires
        in_range(indices@, input@.len()),
    ensures
        match terms {
            Some(list) => read_all(input@, indices@, name@) == Some(list@),
            None => read_all(input@, indices@, name@) is None,
        },
{
    let mut list: Vec<u64> = Vec::new();
    let mut k: usize = 0;
    assert(indices@.take(0) =~= Seq::<usize>::empty());
    while k < indices.len()
        invariant
            k <= indices.len(),
            in_range(indices@, input@.len()),
            read_all(input@, indices@.take(k as int), name@) == Some(list@),
        decreases indices.len() - k,
    {
        proof {
            assert(indices@.take(k + 1).drop_last() =~= indices@.take(k as int));
        }
        let bits = match find_property(&input[indices[k]].properties, name) {
            Some(value) => value.as_number(),
            None => None,
        };
        match bits {
            Some(bits) => {
                list.push(bits);
            },
            None => {
                proof {
                    lemma_read_all_fails(input@, indices@, name@, k + 1);
                }
                return None;
            },
        }
        k += 1;
    }
    assert(indices@.take(indices.len() as int) =~= indices@);
    Some(list)
}

/// Where the first lines of the list cannot all be read, the whole list
/// cannot.
pub proof fn lemma_read_all_fails(
    input: Seq<InputLine>,
    indices: Seq<usize>,
    name: Seq<char>,
    k: int,
)
    requires
        0 <= k <= indices.len(),
        read_all(input, indices.take(k), name) is None,
    ensures
        read_all(input, indices, name) is None,
    decreases indices.len() - k,
{
    if k == indices.len() {
        assert(indices.take(k) =~= indices);
    } else {
        assert(indices.take(k + 1).drop_last() =~= indices.take(k));
        lemma_read_all_fails(input, indices, name, k + 1);
    }
}

/// Where every line of a piece has a number for the property, the terms of
/// the piece's sum are exactly the numbers read from the lines one by one, in
/// the order of the lines: the sum of the piece is the sum over its lines.
pub proof fn lemma_sum_reads_every_line(
    input: Seq<InputLine>,
    indices: Seq<usize>,
    name: Seq<char>,
)
    requires
        read_all(input, indices, name) is Some,
    ensures
        numbers(available(input, indices, name)) == read_all(input, indices, name)->Some_0,
        indices.len() > 0 ==> aggregate(input, indices, name, Aggregation::Sum) == Some(
            Summary::SumOf(read_all(input, indices, name)->Some_0),
        ),
        read_all(input, indices, name)->Some_0.len() == indices.len(),
    decreases indices.len(),
{
    if indices.len() > 0 {
        let shorter = indices.drop_last();
        lemma_sum_reads_every_line(input, shorter, name);
        let before = available(input, shorter, name);
        let value = lookup(input[indices.last() as int].properties@, name)->Some_0;
        assert(before.push(value).drop_last() =~= before);
    }
}

/// The bit patterns that are kept stand for numbers and come from the list.
pub proof fn lemma_without_nan(bits: Seq<u64>)
    ensures
        forall|k: int|
            0 <= k < without_nan(bits).len() ==> !is_nan(#[trigger] without_nan(bits)[k])
                && bits.contains(without_nan(bits)[k]),
    decreases bits.len(),
{
    if bits.len() > 0 {
        let shorter = bits.drop_last();
        lemma_without_nan(shorter);
        assert forall|k: int| 0 <= k < without_nan(bits).len() implies !is_nan(
            #[trigger] without_nan(bits)[k],
        ) && bits.contains(without_nan(bits)[k]) by {
            if k < without_nan(shorter).len() {
                let at = choose|at: int|
                    0 <= at < shorter.len() && shorter[at] == without_nan(shorter)[k];
                assert(bits[at] == without_nan(bits)[k]);
            } else {
                assert(bits[bits.len() - 1] == without_nan(bits)[k]);
            }
        }
    }
}

/// The least and the greatest of the numbers are among them, none is smaller
/// than the least, none is greater than the greatest, and so the least is
/// not greater than the greatest.
pub proof fn lemma_least_greatest(candidates: Seq<u64>)
    requires
        candidates.len() > 0,
    ensures
        candidates.contains(least(candidates)),
        candidates.contains(greatest(candidates)),
        forall|k: int|
            0 <= k < candidates.len() ==> rank(least(candidates)) <= rank(
                #[trigger] candidates[k],
            ) <= rank(greatest(candidates)),
        rank(least(candidates)) <= rank(greatest(candidates)),
    decreases candidates.len(),
{
    if candidates.len() > 1 {
        let shorter = candidates.drop_last();
        lemma_least_greatest(shorter);
        let low = choose|at: int| 0 <= at < shorter.len() && shorter[at] == least(shorter);
        let high = choose|at: int| 0 <= at < shorter.len() && shorter[at] == greatest(shorter);
        assert(candidates[low] == least(shorter));
        assert(candidates[high] == greatest(shorter));
        assert(candidates[candidates.len() - 1] == candidates.last());
        assert forall|k: int| 0 <= k < candidates.len() implies rank(least(candidates)) <= rank(
            #[trigger] candidates[k],
        ) <= rank(greatest(candidates)) by {
            if k < shorter.len() {
                assert(shorter[k] == candidates[k]);
            }
        }
    } else {
        assert(candidates[0] == least(candidates));
    }
    assert(rank(least(candidates)) <= rank(candidates[0]));
}

} // verus!
