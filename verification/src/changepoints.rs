//! Changepoint vocabulary: the kinds of series, the direction of a step,
//! and where a bucket's baseline is drawn from. The detector itself works
//! on fractional statistics and runs in the program around the library.

use vstd::prelude::*;

verus! {

/// What a series measures.
#[derive(Clone, Copy, Debug, PartialEq, Eq, Structural)]
pub enum Kind {
    Count,
    Rate,
    Latency,
}

/// The direction of a step.
#[derive(Clone, Copy, Debug, PartialEq, Eq, Structural)]
pub enum Direction {
    Up,
    Down,
}

pub open spec fn direction_text(d: Direction) -> Seq<char> {
    match d {
        Direction::Up => "up"@,
        Direction::Down => "down"@,
    }
}

impl Direction {
    pub fn as_str(self) -> (s: &'static str)
        ensures
            s@ == direction_text(self),
    {
        match self {
            Direction::Up => "up",
            Direction::Down => "down",
        }
    }
}

/// Which buckets a bucket's baseline is drawn from.
#[derive(Clone, Copy, Debug, PartialEq, Eq, Structural)]
pub enum Baseline {
    /// [i - baseline_buckets, i - guard_buckets)
    Rolling,
    /// A fixed index range [from, to) for every bucket, e.g. the incident
    /// period, when asking "has it recovered?"
    Explicit(usize, usize),
}

} // verus!
