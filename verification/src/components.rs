use vstd::prelude::*;
use crate::angle::Angle;

verus! {

/// One cell position: a ring index (zero is the innermost ring) and an
/// exact angle on that ring.
#[derive(PartialEq, Eq, Structural, Clone, Copy, Debug)]
pub struct CircleCoordinate {
    pub circle: u32,
    pub angle: Angle,
}

/// One of the four possible moves from a coordinate: radially outward
/// or inward, or along the ring in either rotational sense.
#[derive(PartialEq, Eq, Structural, Clone, Copy, Debug)]
pub enum Direction {
    Out,
    In,
    Clockwise,
    CounterClockwise,
}

/// Whether a coordinate was still unclaimed or already claimed when a
/// claim was attempted.
#[derive(PartialEq, Eq, Structural, Clone, Copy, Debug)]
pub enum CellState {
    Free,
    Taken,
}

/// A wall segment: an arc along one ring when both coordinates share a
/// ring, otherwise a radial line between two rings at one angle. An arc
/// whose start equals its end closes its whole ring.
#[derive(PartialEq, Eq, Structural, Clone, Copy, Debug)]
pub struct Border {
    pub start: CircleCoordinate,
    pub end: CircleCoordinate,
}

/// The two kinds of wall segment.
#[derive(PartialEq, Eq, Structural, Clone, Copy, Debug)]
pub enum BorderType {
    Arc,
    Line,
}

impl Border {
    /// Arc when both ends lie on one ring, Line otherwise.
    pub fn border_type(&self) -> (t: BorderType)
        ensures
            t == self.spec_border_type(),
    {
        if self.start.circle == self.end.circle {
            BorderType::Arc
        } else {
            BorderType::Line
        }
    }

    /// The kind of this wall segment.
    pub open spec fn spec_border_type(&self) -> BorderType {
        if self.start.circle == self.end.circle {
            BorderType::Arc
        } else {
            BorderType::Line
        }
    }

    /// The coordinate where this segment begins.
    pub fn start(&self) -> (c: CircleCoordinate)
        ensures
            c == self.start,
    {
        self.start
    }

    /// The coordinate where this segment ends.
    pub fn end(&self) -> (c: CircleCoordinate)
        ensures
            c == self.end,
    {
        self.end
    }
}

/// How maze generation can fail: a configuration with no rings or no
/// slices is rejected up front, and a carving step that runs out of
/// usable moves reports the internal invariant violation instead of
/// panicking.
#[derive(PartialEq, Eq, Structural, Clone, Copy, Debug)]
pub enum MazeError {
    InvalidConfiguration,
    CarvingExhausted,
}

/// Relies on rand::random_range over the range 0..upper_bound: it
/// returns a uniformly drawn integer below upper_bound, and panics on
/// an empty range, which the precondition rules out. Nothing more is
/// assumed of the draw.
#[verifier::external_body]
pub fn random_nr(upper_bound: usize) -> (r: usize)
    requires
        upper_bound > 0,
    ensures
        r < upper_bound,
{
    rand::random_range(0..upper_bound)
}

} // verus!
