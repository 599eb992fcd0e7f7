use geo::{HaversineBearing, Winding as _};
use overline::{
    aggregate_properties, overline, Aggregate, Aggregation, InputLine, Options, Orientation,
    Output, Point, Property, PropertyValue, Winding,
};

fn point(x: f64, y: f64) -> Point {
    Point { x: x.to_bits(), y: y.to_bits() }
}

fn measure(points: &[(f64, f64)]) -> Orientation {
    let line = geo::LineString::from(points.to_vec());
    let winding = match line.winding_order() {
        Some(geo::algorithm::winding_order::WindingOrder::Clockwise) => Some(Winding::Clockwise),
        Some(geo::algorithm::winding_order::WindingOrder::CounterClockwise) => {
            Some(Winding::CounterClockwise)
        }
        None => None,
    };
    let first = geo::Point::from(points[0]);
    let last = geo::Point::from(points[points.len() - 1]);
    Orientation {
        winding,
        bearing: first.haversine_bearing(last).to_bits(),
        reverse_bearing: last.haversine_bearing(first).to_bits(),
    }
}

fn line(points: &[(f64, f64)], foot: f64) -> InputLine {
    InputLine {
        points: points.iter().map(|(x, y)| point(*x, *y)).collect(),
        orientation: measure(points),
        properties: vec![Property {
            name: "foot".to_string(),
            value: PropertyValue::Number(foot.to_bits()),
        }],
    }
}

fn coordinates(piece: &Output) -> Vec<(f64, f64)> {
    piece.geometry.iter().map(|p| (f64::from_bits(p.x), f64::from_bits(p.y))).collect()
}

fn summary(out: &[Output]) -> Vec<(Vec<(f64, f64)>, Vec<usize>)> {
    out.iter().map(|p| (coordinates(p), p.indices.clone())).collect()
}

fn sum_of(value: &Aggregate) -> f64 {
    match value {
        Aggregate::SumOf(terms) => terms.iter().map(|bits| f64::from_bits(*bits)).sum(),
        other => panic!("not a sum: {:?}", other),
    }
}

#[test]
fn identical_lines_give_one_piece_with_both_contributors() {
    let input = vec![line(&[(0.0, 0.0), (1.0, 1.0)], 3.0), line(&[(0.0, 0.0), (1.0, 1.0)], 4.0)];
    let out = overline(&input, Options::default());
    assert_eq!(summary(&out), vec![(vec![(0.0, 0.0), (1.0, 1.0)], vec![0, 1])]);
    let aggregated =
        aggregate_properties(&input, &out, vec![("foot".to_string(), Aggregation::Sum)]);
    assert_eq!(aggregated.len(), 1);
    assert_eq!(aggregated[0].geometry, out[0].geometry);
    assert_eq!(aggregated[0].properties.len(), 1);
    assert_eq!(aggregated[0].properties[0].name, "foot");
    assert_eq!(sum_of(&aggregated[0].properties[0].value), 7.0);
}

#[test]
fn reversed_line_is_separate_when_direction_counts() {
    let input = vec![line(&[(0.0, 0.0), (1.0, 1.0)], 3.0), line(&[(1.0, 1.0), (0.0, 0.0)], 4.0)];
    let out = overline(&input, Options::default());
    assert_eq!(
        summary(&out),
        vec![
            (vec![(0.0, 0.0), (1.0, 1.0)], vec![0]),
            (vec![(1.0, 1.0), (0.0, 0.0)], vec![1]),
        ]
    );
}

#[test]
fn reversed_line_is_shared_when_direction_is_ignored() {
    let input = vec![line(&[(0.0, 0.0), (1.0, 1.0)], 3.0), line(&[(1.0, 1.0), (0.0, 0.0)], 4.0)];
    let out = overline(&input, Options { ignore_direction: true });
    assert_eq!(summary(&out), vec![(vec![(0.0, 0.0), (1.0, 1.0)], vec![0, 1])]);
}

#[test]
fn lines_crossing_at_one_vertex_are_not_merged() {
    let input = vec![
        line(&[(0.0, 0.0), (1.0, 1.0), (2.0, 2.0)], 1.0),
        line(&[(0.0, 2.0), (1.0, 1.0), (2.0, 0.0)], 2.0),
    ];
    let out = overline(&input, Options::default());
    assert_eq!(
        summary(&out),
        vec![
            (vec![(0.0, 0.0), (1.0, 1.0), (2.0, 2.0)], vec![0]),
            (vec![(0.0, 2.0), (1.0, 1.0), (2.0, 0.0)], vec![1]),
        ]
    );
}

#[test]
fn lines_sharing_a_middle_part_give_end_pieces_and_one_shared_piece() {
    let input = vec![
        line(&[(0.0, 0.0), (1.0, 0.0), (2.0, 0.0), (3.0, 0.0)], 1.0),
        line(&[(0.0, 1.0), (1.0, 0.0), (2.0, 0.0), (3.0, 1.0)], 2.0),
        line(&[(0.0, 2.0), (1.0, 0.0), (2.0, 0.0), (3.0, 2.0)], 3.0),
    ];
    let out = overline(&input, Options::default());
    assert_eq!(
        summary(&out),
        vec![
            (vec![(0.0, 0.0), (1.0, 0.0)], vec![0]),
            (vec![(1.0, 0.0), (2.0, 0.0)], vec![0, 1, 2]),
            (vec![(2.0, 0.0), (3.0, 0.0)], vec![0]),
            (vec![(0.0, 1.0), (1.0, 0.0)], vec![1]),
            (vec![(2.0, 0.0), (3.0, 1.0)], vec![1]),
            (vec![(0.0, 2.0), (1.0, 0.0)], vec![2]),
            (vec![(2.0, 0.0), (3.0, 2.0)], vec![2]),
        ]
    );
}

#[test]
fn test_atip() {
    // Three routes along one street: the second joins the first half way, the
    // third follows the second to the end.
    let input = vec![
        line(&[(-1.5, 53.0), (-1.4, 53.0), (-1.3, 53.0), (-1.2, 53.0)], 10.0),
        line(&[(-1.4, 53.1), (-1.4, 53.0), (-1.3, 53.0), (-1.2, 53.0), (-1.1, 53.0)], 20.0),
        line(&[(-1.3, 53.0), (-1.2, 53.0), (-1.1, 53.0)], 5.0),
    ];
    let grouped = overline(&input, Options::default());
    let aggregated =
        aggregate_properties(&input, &grouped, vec![("foot".to_string(), Aggregation::Sum)]);
    let actual: Vec<(Vec<(f64, f64)>, f64)> = aggregated
        .iter()
        .map(|piece| {
            let points = piece
                .geometry
                .iter()
                .map(|p| (f64::from_bits(p.x), f64::from_bits(p.y)))
                .collect();
            assert_eq!(piece.properties.len(), 1);
            assert_eq!(piece.properties[0].name, "foot");
            (points, sum_of(&piece.properties[0].value))
        })
        .collect();
    assert_eq!(
        actual,
        vec![
            (vec![(-1.5, 53.0), (-1.4, 53.0)], 10.0),
            (vec![(-1.4, 53.0), (-1.3, 53.0)], 30.0),
            (vec![(-1.3, 53.0), (-1.2, 53.0)], 35.0),
            (vec![(-1.4, 53.1), (-1.4, 53.0)], 20.0),
            (vec![(-1.2, 53.0), (-1.1, 53.0)], 25.0),
        ]
    );
}

#[test]
fn test_direction() {
    // The second route is drawn against the first, the third leaves the
    // shared street at its end.
    let input = vec![
        line(&[(0.0, 51.0), (0.1, 51.0), (0.2, 51.0)], 1.0),
        line(&[(0.2, 51.0), (0.1, 51.0), (0.0, 51.0)], 2.0),
        line(&[(0.3, 51.1), (0.2, 51.0), (0.1, 51.0)], 4.0),
    ];
    let grouped = overline(&input, Options { ignore_direction: true });
    let aggregated =
        aggregate_properties(&input, &grouped, vec![("foot".to_string(), Aggregation::Sum)]);
    let actual: Vec<(Vec<(f64, f64)>, Vec<usize>, f64)> = grouped
        .iter()
        .zip(aggregated.iter())
        .map(|(piece, with_sum)| {
            (coordinates(piece), piece.indices.clone(), sum_of(&with_sum.properties[0].value))
        })
        .collect();
    assert_eq!(
        actual,
        vec![
            (vec![(0.0, 51.0), (0.1, 51.0)], vec![0, 1], 3.0),
            (vec![(0.1, 51.0), (0.2, 51.0)], vec![0, 1, 2], 7.0),
            (vec![(0.2, 51.0), (0.3, 51.1)], vec![2], 4.0),
        ]
    );
}
