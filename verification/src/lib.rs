//! Collapses overlapping polylines into non-overlapping pieces, each annotated
//! with the input lines that pass through it, and aggregates the properties of
//! those lines per piece.
//!
//! Coordinates are held as the bit patterns of double-precision numbers, so
//! every comparison the library makes is a comparison of integers.

pub mod aggregation;
pub mod coordinate;
pub mod coverage;
pub mod direction;
pub mod error;
pub mod grouping;
pub mod pipeline;
pub mod property;
pub mod segment_index;

pub use aggregation::{
    aggregate_properties, aggregate_property, read_numbers, Aggregate, AggregatedPiece,
    AggregatedProperty, Aggregation,
};
pub use coordinate::{to_key, CoordinateKey, Point, SegmentKey};
pub use error::OverlineError;
pub use direction::{normalize, Orientation, Winding};
pub use grouping::{group, group_line, Output};
pub use pipeline::{overline, InputLine, Options};
pub use property::{find_property, Property, PropertyValue};
pub use segment_index::SegmentIndex;
