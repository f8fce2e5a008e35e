//! Melodies (sequences of pitches or pitch classes), their shapes, and
//! melodic cycles.
use crate::algebra::{ints, residues};
use vstd::prelude::*;

verus! {

/// A sequence of pitches.
#[derive(PartialEq, Debug)]
pub struct Melody {
    pub pitches: Vec<i16>,
}

/// The differences between adjacent pitches of a melody.
#[derive(PartialEq, Debug)]
pub struct MelodyShape {
    pub intervals: Vec<i16>,
}

/// A sequence of pitch classes modulo `modulus`.
#[derive(PartialEq, Debug)]
pub struct MelodyClass {
    pub pitch_classes: Vec<i16>,
    pub modulus: i16,
}

/// The differences between adjacent pitch classes, modulo `modulus`.
#[derive(PartialEq, Debug)]
pub struct MelodyClassShape {
    pub interval_classes: Vec<i16>,
    pub modulus: i16,
}

/// A melodic cycle, convergent or divergent, given as a harmonic pattern
/// (with an implicit leading zero) repeated with the period of its last
/// entry, plus a transposition.
#[derive(PartialEq, Debug)]
pub struct MelodicMap {
    pub harmonics: Vec<i16>,
    pub transposition: i16,
}

/// A convergent melodic cycle of pitches.
#[derive(PartialEq, Debug)]
pub struct PitchCycle {
    pub pitches: Vec<i16>,
}

/// A cyclic sequence of intervals.
#[derive(PartialEq, Debug)]
pub struct IntervalCycle {
    pub intervals: Vec<i16>,
}

/// A cyclic sequence of pitch classes modulo `modulus`.
#[derive(PartialEq, Debug)]
pub struct PitchClassCycle {
    pub pitch_classes: Vec<i16>,
    pub modulus: i16,
}

/// A cyclic sequence of interval classes modulo `modulus`.
#[derive(PartialEq, Debug)]
pub struct IntervalClassCycle {
    pub interval_classes: Vec<i16>,
    pub modulus: i16,
}

impl Melody {
    pub fn new(pitches: Vec<i16>) -> (r: Self)
        ensures
            r.pitches@ == pitches@,
    {
        Self { pitches }
    }
}

impl MelodyShape {
    pub fn new(intervals: Vec<i16>) -> (r: Self)
        ensures
            r.intervals@ == intervals@,
    {
        Self { intervals }
    }
}

impl MelodyClass {
    /// A positive modulus, and every pitch class a residue of it.
    pub open spec fn wf(&self) -> bool {
        0 < self.modulus && residues(ints(self.pitch_classes@), self.modulus as int)
    }

    pub fn new(pitch_classes: Vec<i16>, modulus: i16) -> (r: Self)
        requires
            0 < modulus,
            residues(ints(pitch_classes@), modulus as int),
        ensures
            r.pitch_classes@ == pitch_classes@,
            r.modulus == modulus,
            r.wf(),
    {
        Self { pitch_classes, modulus }
    }
}

impl MelodyClassShape {
    /// A positive modulus, and every interval class a residue of it.
    pub open spec fn wf(&self) -> bool {
        0 < self.modulus && residues(ints(self.interval_classes@), self.modulus as int)
    }

    pub fn new(interval_classes: Vec<i16>, modulus: i16) -> (r: Self)
        requires
            0 < modulus,
            residues(ints(interval_classes@), modulus as int),
        ensures
            r.interval_classes@ == interval_classes@,
            r.modulus == modulus,
            r.wf(),
    {
        Self { interval_classes, modulus }
    }
}

impl MelodicMap {
    /// The pattern is not empty.
    pub open spec fn wf(&self) -> bool {
        self.harmonics@.len() > 0
    }

    pub fn new(harmonics: Vec<i16>, transposition: i16) -> (r: Self)
        requires
            harmonics@.len() > 0,
        ensures
            r.harmonics@ == harmonics@,
            r.transposition == transposition,
            r.wf(),
    {
        Self { harmonics, transposition }
    }
}

impl PitchCycle {
    pub fn new(pitches: Vec<i16>) -> (r: Self)
        ensures
            r.pitches@ == pitches@,
    {
        Self { pitches }
    }
}

impl IntervalCycle {
    pub fn new(intervals: Vec<i16>) -> (r: Self)
        ensures
            r.intervals@ == intervals@,
    {
        Self { intervals }
    }
}

impl PitchClassCycle {
    /// A positive modulus, and every pitch class a residue of it.
    pub open spec fn wf(&self) -> bool {
        0 < self.modulus && residues(ints(self.pitch_classes@), self.modulus as int)
    }

    pub fn new(pitch_classes: Vec<i16>, modulus: i16) -> (r: Self)
        requires
            0 < modulus,
            residues(ints(pitch_classes@), modulus as int),
        ensures
            r.pitch_classes@ == pitch_classes@,
            r.modulus == modulus,
            r.wf(),
    {
        Self { pitch_classes, modulus }
    }
}

impl IntervalClassCycle {
    /// A positive modulus, and every interval class a residue of it.
    pub open spec fn wf(&self) -> bool {
        0 < self.modulus && residues(ints(self.interval_classes@), self.modulus as int)
    }

    pub fn new(interval_classes: Vec<i16>, modulus: i16) -> (r: Self)
        requires
            0 < modulus,
            residues(ints(interval_classes@), modulus as int),
        ensures
            r.interval_classes@ == interval_classes@,
            r.modulus == modulus,
            r.wf(),
    {
        Self { interval_classes, modulus }
    }
}

} // verus!
