use overline::{
    aggregate_properties, aggregate_property, read_numbers, Aggregate, AggregatedPiece,
    AggregatedProperty, Aggregation, InputLine, Orientation, Output, Point, Property,
    PropertyValue,
};

fn number(value: f64) -> PropertyValue {
    PropertyValue::Number(value.to_bits())
}

fn text(value: &str) -> PropertyValue {
    PropertyValue::Text(value.to_string())
}

fn record(properties: Vec<(&str, PropertyValue)>) -> InputLine {
    InputLine {
        points: vec![],
        orientation: Orientation { winding: None, bearing: 0, reverse_bearing: 0 },
        properties: properties
            .into_iter()
            .map(|(name, value)| Property { name: name.to_string(), value })
            .collect(),
    }
}

fn with_foot(values: &[f64]) -> Vec<InputLine> {
    values.iter().map(|v| record(vec![("foot", number(*v))])).collect()
}

fn all(count: usize) -> Vec<usize> {
    (0..count).collect()
}

fn one(input: &Vec<InputLine>, indices: &[usize], name: &str, kind: Aggregation) -> Option<Aggregate> {
    aggregate_property(input, &indices.to_vec(), &name.to_string(), kind)
}

fn bits(values: &[f64]) -> Vec<u64> {
    values.iter().map(|v| v.to_bits()).collect()
}

#[test]
fn sum_hands_out_the_numbers_of_the_lines_in_order() {
    let input = with_foot(&[3.0, 4.0, 0.5]);
    assert_eq!(
        one(&input, &[0, 1, 2], "foot", Aggregation::Sum),
        Some(Aggregate::SumOf(bits(&[3.0, 4.0, 0.5])))
    );
    assert_eq!(
        one(&input, &[2, 0], "foot", Aggregation::Sum),
        Some(Aggregate::SumOf(bits(&[0.5, 3.0])))
    );
}

#[test]
fn mean_hands_out_the_same_numbers_as_sum() {
    let input = with_foot(&[3.0, 4.0]);
    let terms = match one(&input, &[0, 1], "foot", Aggregation::Mean) {
        Some(Aggregate::MeanOf(terms)) => terms,
        other => panic!("no mean: {:?}", other),
    };
    assert_eq!(terms, bits(&[3.0, 4.0]));
    let sum: f64 = terms.iter().map(|b| f64::from_bits(*b)).sum();
    assert_eq!(sum / terms.len() as f64, 3.5);
}

#[test]
fn min_and_max_pick_the_least_and_the_greatest() {
    let input = with_foot(&[3.0, -2.0, 4.0, -1.0, 1e-300]);
    assert_eq!(
        one(&input, &all(5), "foot", Aggregation::Min),
        Some(Aggregate::Number((-2.0f64).to_bits()))
    );
    assert_eq!(
        one(&input, &all(5), "foot", Aggregation::Max),
        Some(Aggregate::Number(4.0f64.to_bits()))
    );
    let negative = with_foot(&[-3.0, -2.0, f64::NEG_INFINITY, -7.5]);
    assert_eq!(
        one(&negative, &all(4), "foot", Aggregation::Min),
        Some(Aggregate::Number(f64::NEG_INFINITY.to_bits()))
    );
    assert_eq!(
        one(&negative, &all(4), "foot", Aggregation::Max),
        Some(Aggregate::Number((-2.0f64).to_bits()))
    );
}

#[test]
fn min_and_max_agree_with_the_order_of_numbers() {
    let samples = [
        0.0,
        -0.0,
        1.0,
        -1.0,
        2.5,
        -2.5,
        1e-310,
        -1e-310,
        f64::MAX,
        f64::MIN,
        f64::INFINITY,
        f64::NEG_INFINITY,
    ];
    for a in samples {
        for b in samples {
            let input = with_foot(&[a, b]);
            let least = match one(&input, &[0, 1], "foot", Aggregation::Min) {
                Some(Aggregate::Number(bits)) => f64::from_bits(bits),
                other => panic!("no least: {:?}", other),
            };
            let greatest = match one(&input, &[0, 1], "foot", Aggregation::Max) {
                Some(Aggregate::Number(bits)) => f64::from_bits(bits),
                other => panic!("no greatest: {:?}", other),
            };
            assert_eq!(least, a.min(b), "{} and {}", a, b);
            assert_eq!(greatest, a.max(b), "{} and {}", a, b);
            assert!(least <= greatest);
        }
    }
}

#[test]
fn of_equal_numbers_min_takes_the_first_and_max_the_last() {
    let input = with_foot(&[-0.0, 0.0]);
    assert_eq!(
        one(&input, &[0, 1], "foot", Aggregation::Min),
        Some(Aggregate::Number((-0.0f64).to_bits()))
    );
    assert_eq!(
        one(&input, &[0, 1], "foot", Aggregation::Max),
        Some(Aggregate::Number(0.0f64.to_bits()))
    );
    assert_eq!(
        one(&input, &[1, 0], "foot", Aggregation::Min),
        Some(Aggregate::Number(0.0f64.to_bits()))
    );
    assert_eq!(
        one(&input, &[1, 0], "foot", Aggregation::Max),
        Some(Aggregate::Number((-0.0f64).to_bits()))
    );
}

#[test]
fn min_and_max_leave_out_what_is_not_a_number() {
    let input = with_foot(&[f64::NAN, 5.0, -f64::NAN, 2.0]);
    assert_eq!(
        one(&input, &all(4), "foot", Aggregation::Min),
        Some(Aggregate::Number(2.0f64.to_bits()))
    );
    assert_eq!(
        one(&input, &all(4), "foot", Aggregation::Max),
        Some(Aggregate::Number(5.0f64.to_bits()))
    );
    let none = with_foot(&[f64::NAN, f64::NAN]);
    assert_eq!(one(&none, &[0, 1], "foot", Aggregation::Min), None);
    assert_eq!(one(&none, &[0, 1], "foot", Aggregation::Max), None);
    // A sum keeps them: they are numbers of the lines like any other.
    assert_eq!(
        one(&none, &[0, 1], "foot", Aggregation::Sum),
        Some(Aggregate::SumOf(bits(&[f64::NAN, f64::NAN])))
    );
}

#[test]
fn a_line_without_the_property_is_skipped() {
    let input = vec![
        record(vec![("foot", number(3.0))]),
        record(vec![("bike", number(9.0))]),
        record(vec![]),
        record(vec![("bike", number(1.0)), ("foot", number(4.0))]),
    ];
    assert_eq!(
        one(&input, &all(4), "foot", Aggregation::Sum),
        Some(Aggregate::SumOf(bits(&[3.0, 4.0])))
    );
    assert_eq!(
        one(&input, &all(4), "foot", Aggregation::Mean),
        Some(Aggregate::MeanOf(bits(&[3.0, 4.0])))
    );
    assert_eq!(
        one(&input, &all(4), "bike", Aggregation::Min),
        Some(Aggregate::Number(1.0f64.to_bits()))
    );
}

#[test]
fn a_value_that_is_no_number_is_skipped_where_numbers_are_asked_for() {
    let input = vec![
        record(vec![("foot", text("many"))]),
        record(vec![("foot", number(4.0))]),
        record(vec![("foot", PropertyValue::Null)]),
        record(vec![("foot", PropertyValue::Bool(true))]),
        record(vec![("foot", PropertyValue::Composite("[1,2]".to_string()))]),
        record(vec![("foot", number(6.0))]),
    ];
    assert_eq!(
        one(&input, &all(6), "foot", Aggregation::Sum),
        Some(Aggregate::SumOf(bits(&[4.0, 6.0])))
    );
    assert_eq!(
        one(&input, &all(6), "foot", Aggregation::Max),
        Some(Aggregate::Number(6.0f64.to_bits()))
    );
}

#[test]
fn a_property_without_any_number_is_left_out() {
    let input = vec![record(vec![("foot", text("many"))]), record(vec![])];
    for kind in [Aggregation::Sum, Aggregation::Min, Aggregation::Max, Aggregation::Mean] {
        assert_eq!(one(&input, &[0, 1], "foot", kind), None);
        assert_eq!(one(&input, &[], "foot", kind), None);
    }
    assert_eq!(one(&input, &[1], "foot", Aggregation::KeepAny), None);
    assert_eq!(one(&input, &[], "foot", Aggregation::KeepAny), None);
}

#[test]
fn keep_any_takes_the_first_value_there_is_as_it_is() {
    let input = vec![
        record(vec![("bike", number(1.0))]),
        record(vec![("name", text("High Street"))]),
        record(vec![("name", text("Low Street"))]),
        record(vec![("name", PropertyValue::Null)]),
        record(vec![("name", PropertyValue::Composite("{\"en\":\"x\"}".to_string()))]),
    ];
    assert_eq!(
        one(&input, &all(5), "name", Aggregation::KeepAny),
        Some(Aggregate::Value(text("High Street")))
    );
    assert_eq!(
        one(&input, &[2, 1], "name", Aggregation::KeepAny),
        Some(Aggregate::Value(text("Low Street")))
    );
    assert_eq!(
        one(&input, &[0, 3, 1], "name", Aggregation::KeepAny),
        Some(Aggregate::Value(PropertyValue::Null))
    );
    assert_eq!(
        one(&input, &[4], "name", Aggregation::KeepAny),
        Some(Aggregate::Value(PropertyValue::Composite("{\"en\":\"x\"}".to_string())))
    );
    assert_eq!(
        one(&input, &[0], "bike", Aggregation::KeepAny),
        Some(Aggregate::Value(number(1.0)))
    );
}

#[test]
fn of_two_properties_of_one_name_the_first_counts() {
    let input = vec![record(vec![("foot", number(1.0)), ("foot", number(2.0))])];
    assert_eq!(
        one(&input, &[0], "foot", Aggregation::KeepAny),
        Some(Aggregate::Value(number(1.0)))
    );
}

#[test]
fn every_piece_gets_the_requested_properties_in_the_order_of_the_requests() {
    let input = vec![
        record(vec![("foot", number(3.0)), ("name", text("a"))]),
        record(vec![("foot", number(4.0))]),
        record(vec![("bike", number(8.0))]),
    ];
    let geometry = vec![Point { x: 1, y: 2 }, Point { x: 3, y: 4 }];
    let grouped = vec![
        Output { geometry: geometry.clone(), indices: vec![0, 1] },
        Output { geometry: vec![Point { x: 5, y: 6 }, Point { x: 7, y: 8 }], indices: vec![2] },
    ];
    let requests = vec![
        ("name".to_string(), Aggregation::KeepAny),
        ("foot".to_string(), Aggregation::Sum),
        ("bike".to_string(), Aggregation::Max),
        ("foot".to_string(), Aggregation::Min),
        ("none".to_string(), Aggregation::Mean),
    ];
    let out = aggregate_properties(&input, &grouped, requests);
    assert_eq!(
        out,
        vec![
            AggregatedPiece {
                geometry,
                properties: vec![
                    AggregatedProperty {
                        name: "name".to_string(),
                        value: Aggregate::Value(text("a")),
                    },
                    AggregatedProperty {
                        name: "foot".to_string(),
                        value: Aggregate::SumOf(bits(&[3.0, 4.0])),
                    },
                    AggregatedProperty {
                        name: "foot".to_string(),
                        value: Aggregate::Number(3.0f64.to_bits()),
                    },
                ],
            },
            AggregatedPiece {
                geometry: vec![Point { x: 5, y: 6 }, Point { x: 7, y: 8 }],
                properties: vec![AggregatedProperty {
                    name: "bike".to_string(),
                    value: Aggregate::Number(8.0f64.to_bits()),
                }],
            },
        ]
    );
}

#[test]
fn without_requests_a_piece_has_its_geometry_and_no_property() {
    let input = with_foot(&[1.0]);
    let grouped =
        vec![Output { geometry: vec![Point { x: 1, y: 2 }, Point { x: 3, y: 4 }], indices: vec![0] }];
    assert_eq!(
        aggregate_properties(&input, &grouped, vec![]),
        vec![AggregatedPiece {
            geometry: vec![Point { x: 1, y: 2 }, Point { x: 3, y: 4 }],
            properties: vec![],
        }]
    );
    assert_eq!(aggregate_properties(&input, &vec![], vec![]), vec![]);
}

#[test]
fn read_numbers_asks_for_a_number_from_every_line() {
    let input = vec![
        record(vec![("foot", number(3.0))]),
        record(vec![("foot", number(4.0))]),
        record(vec![("foot", text("4"))]),
        record(vec![]),
    ];
    assert_eq!(read_numbers(&input, &vec![0, 1], &"foot".to_string()), Some(bits(&[3.0, 4.0])));
    assert_eq!(read_numbers(&input, &vec![1, 1, 0], &"foot".to_string()), Some(bits(&[4.0, 4.0, 3.0])));
    assert_eq!(read_numbers(&input, &vec![], &"foot".to_string()), Some(vec![]));
    assert_eq!(read_numbers(&input, &vec![0, 2], &"foot".to_string()), None);
    assert_eq!(read_numbers(&input, &vec![3, 0], &"foot".to_string()), None);
}

#[test]
fn the_sum_of_a_piece_is_the_sum_over_its_lines() {
    let input = with_foot(&[0.1, 0.2, 0.3, 1e16, -7.0]);
    let indices = vec![4, 0, 3, 1, 2];
    let read = read_numbers(&input, &indices, &"foot".to_string()).unwrap();
    let directly: f64 = indices
        .iter()
        .map(|i| match input[*i].properties[0].value {
            PropertyValue::Number(bits) => f64::from_bits(bits),
            _ => panic!("no number"),
        })
        .sum();
    match one(&input, &indices, "foot", Aggregation::Sum) {
        Some(Aggregate::SumOf(terms)) => {
            assert_eq!(terms, read);
            let sum: f64 = terms.iter().map(|b| f64::from_bits(*b)).sum();
            assert_eq!(sum.to_bits(), directly.to_bits());
        }
        other => panic!("no sum: {:?}", other),
    }
}

#[test]
fn the_mean_lies_between_the_least_and_the_greatest() {
    let input = with_foot(&[2.0, 8.0, 5.0, 0.0]);
    let least = match one(&input, &all(4), "foot", Aggregation::Min) {
        Some(Aggregate::Number(bits)) => f64::from_bits(bits),
        other => panic!("no least: {:?}", other),
    };
    let greatest = match one(&input, &all(4), "foot", Aggregation::Max) {
        Some(Aggregate::Number(bits)) => f64::from_bits(bits),
        other => panic!("no greatest: {:?}", other),
    };
    let mean = match one(&input, &all(4), "foot", Aggregation::Mean) {
        Some(Aggregate::MeanOf(terms)) => {
            terms.iter().map(|b| f64::from_bits(*b)).sum::<f64>() / terms.len() as f64
        }
        other => panic!("no mean: {:?}", other),
    };
    assert_eq!((least, mean, greatest), (0.0, 3.75, 8.0));
    assert!(0.0 <= mean && least <= mean && mean <= greatest);
}
