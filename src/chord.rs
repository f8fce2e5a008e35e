//! Chords (ascending sets of distinct pitches) and their shapes.
use crate::algebra::{all_positive, ascending, ints};
use vstd::prelude::*;

verus! {

/// A set of pitches, listed in strictly ascending order.
#[derive(PartialEq, Debug)]
pub struct Chord {
    pub pitches: Vec<i16>,
}

/// The differences between adjacent pitches of a chord, all positive.
#[derive(PartialEq, Debug)]
pub struct ChordShape {
    pub intervals: Vec<i16>,
}

impl Chord {
    /// The pitches ascend strictly.
    pub open spec fn wf(&self) -> bool {
        ascending(ints(self.pitches@))
    }

    pub fn new(pitches: Vec<i16>) -> (r: Self)
        requires
            ascending(ints(pitches@)),
        ensures
            r.pitches@ == pitches@,
            r.wf(),
    {
        Self { pitches }
    }
}

impl ChordShape {
    /// Every interval is positive.
    pub open spec fn wf(&self) -> bool {
        all_positive(ints(self.intervals@))
    }

    pub fn new(intervals: Vec<i16>) -> (r: Self)
        requires
            all_positive(ints(intervals@)),
        ensures
            r.intervals@ == intervals@,
            r.wf(),
    {
        Self { intervals }
    }
}

} // verus!
