//! Analysis of music-theoretical objects: sizes, spans, moduli, shapes and
//! stamps, prime forms, evaluation, classification and membership.
use crate::algebra::{
    all_positive, ascending, diffs, fits_i16, ints, lemma_ascending_residues, lemma_ints_rotate,
    lemma_pattern_shape, lemma_reduce_residues, lemma_running_sums, lemma_scale_shape,
    lemma_stamp_ascending, lemma_stamp_key_shape, max_of, eval_all, eval_pattern, lemma_eval_monotone, aperiodic_block, block_size, lemma_block, least_tile_from, tiles, min_of, reduce, residue_shape,
    residues, ring_diffs, running_sums, stamp_cyclic, stamp_key, stamp_linear, sum,
};
use vstd::arithmetic::div_mod::{lemma_mod_bound, lemma_mod_self_0, lemma_small_mod};
use crate::chord::{Chord, ChordShape};
use crate::melody::{
    IntervalClassCycle, IntervalCycle, MelodicMap, Melody, MelodyClass, MelodyClassShape,
    MelodyShape, PitchClassCycle, PitchCycle,
};
use crate::ops::{
    cyclic_diffs, linear_diffs, max_min, pattern_diffs, reduced_cyclic_diffs, reduced_diffs,
    reduced_stamp, rem_euclid_i16, dedup_sorted, eval_each, eval_pattern_at, index_mod, reduced, rotated, running_stamp, running_sums_of, same_values,
    stamp_count_below, sum_mod, sum_of,
};
use crate::utility::{find_aperiodic_substring, sort_vector};
use crate::scale::{Scale, ScaleKey, ScaleMap, ScaleShape};
use vstd::prelude::*;
use vstd::seq_lib::to_multiset_contains;

verus! {

/// The number of elements of a collection.
pub trait Len {
    spec fn spec_len(&self) -> nat;

    /// Returns the number of elements in the collection.
    fn len(&self) -> (r: usize)
        ensures
            r as nat == self.spec_len(),
    ;

    /// Reports whether the collection is empty.
    fn is_empty(&self) -> (r: bool)
        ensures
            r == (self.spec_len() == 0),
    {
        self.len() == 0
    }
}

/// The distance between the lowest and the highest pitch.
pub trait Span {
    spec fn span_defined(&self) -> bool;

    spec fn spec_span(&self) -> int;

    fn span(&self) -> (r: i16)
        requires
            self.span_defined(),
        ensures
            r as int == self.spec_span(),
    ;
}

/// The modulus of a structure: a residue-class modulus (as in a scale), or
/// the interval a melodic cycle travels in one pass.
pub trait Modulus<T> {
    spec fn modulus_defined(&self) -> bool;

    spec fn spec_modulus(&self) -> T;

    fn modulus(&self) -> (r: T)
        requires
            self.modulus_defined(),
        ensures
            r == self.spec_modulus(),
    ;
}

/// The interval a melodic cycle of residues travels in one pass, as a residue.
pub trait MelodicModulus {
    spec fn melodic_modulus_defined(&self) -> bool;

    spec fn spec_melodic_modulus(&self) -> int;

    fn melodic_modulus(&self) -> (r: i16)
        requires
            self.melodic_modulus_defined(),
        ensures
            r as int == self.spec_melodic_modulus(),
    ;
}

/// The shape of a structure: the differences between adjacent elements
/// (cyclically adjacent ones, for cyclic structures).
pub trait Shape {
    type Output;

    spec fn shape_defined(&self) -> bool;

    fn shape(&self) -> Self::Output
        requires
            self.shape_defined(),
    ;
}

/// Stamping a shape onto a starting element: the inverse of taking a shape.
pub trait Stamp<T> {
    type Output;

    spec fn stamp_defined(&self, start: T) -> bool;

    fn stamp(&self, start: T) -> Self::Output
        requires
            self.stamp_defined(start),
    ;
}

/// Periodicity of a cyclic structure: its prime form is the structure
/// built on the minimal repeating block of its shape.
pub trait Prime<T>: Modulus<T> + Len + Sized {
    spec fn prime_defined(&self) -> bool;

    /// The number of elements of the prime form.
    spec fn prime_len(&self) -> nat;

    /// The modulus of the prime form.
    spec fn prime_modulus(&self) -> T;

    /// Gets the prime form of the structure.
    fn prime(&self) -> (r: Self)
        requires
            self.prime_defined(),
        ensures
            r.spec_len() == self.prime_len(),
            r.modulus_defined(),
            r.spec_modulus() == self.prime_modulus(),
    ;

    /// Reports whether the structure is prime (aperiodic).
    fn is_prime(&self) -> bool
        requires
            self.prime_defined(),
    ;
}

/// Counting the distinct modes of a cyclic structure.
pub trait CountModes<T>: Prime<T> {
    /// Counts the modes: the size of the prime form.
    fn count_modes(&self) -> (r: usize)
        requires
            self.prime_defined(),
        ensures
            r as nat == self.prime_len(),
    {
        self.prime().len()
    }
}

/// Counting the distinct transpositions of a pitch structure.
pub trait CountTranspositions: Prime<i16> {
    /// Counts the transpositions: the modulus of the prime form.
    fn count_transpositions(&self) -> (r: usize)
        requires
            self.prime_defined(),
            0 <= self.prime_modulus(),
        ensures
            r as int == self.prime_modulus(),
    {
        self.prime().modulus() as usize
    }
}

/// Evaluation of an indexed structure.
pub trait Eval<T> {
    spec fn eval_defined(&self, input: T) -> bool;

    /// Evaluates the structure at `input`.
    fn eval(&self, input: T) -> T
        requires
            self.eval_defined(input),
    ;
}

/// The residue-class structure a collection of numbers belongs to.
pub trait Classify<T> {
    type Output;

    spec fn classify_defined(&self, modulus: T) -> bool;

    fn classify(&self, modulus: T) -> Self::Output
        requires
            self.classify_defined(modulus),
    ;
}

/// Membership of a pitch, by its class.
pub trait HasPitch {
    spec fn has_pitch_defined(&self) -> bool;

    fn has_pitch(&self, pitch: i16) -> bool
        requires
            self.has_pitch_defined(),
    ;
}

impl ScaleKey {
    /// The root: the first pitch class.
    pub fn root(&self) -> (r: i16)
        requires
            self.wf(),
        ensures
            r == self.pitch_classes@[0],
    {
        self.pitch_classes[0]
    }
}

// ------------------------------------------------------------------
// Len
// ------------------------------------------------------------------

impl Len for Chord {
    open spec fn spec_len(&self) -> nat {
        self.pitches@.len()
    }

    fn len(&self) -> usize {
        self.pitches.len()
    }
}

impl Len for ChordShape {
    open spec fn spec_len(&self) -> nat {
        self.intervals@.len()
    }

    fn len(&self) -> usize {
        self.intervals.len()
    }
}

impl Len for Scale {
    open spec fn spec_len(&self) -> nat {
        self.pitch_classes@.len()
    }

    fn len(&self) -> usize {
        self.pitch_classes.len()
    }
}

impl Len for ScaleMap {
    open spec fn spec_len(&self) -> nat {
        self.harmonics@.len()
    }

    fn len(&self) -> usize {
        self.harmonics.len()
    }
}

impl Len for ScaleKey {
    open spec fn spec_len(&self) -> nat {
        self.pitch_classes@.len()
    }

    fn len(&self) -> usize {
        self.pitch_classes.len()
    }
}

impl Len for ScaleShape {
    open spec fn spec_len(&self) -> nat {
        self.intervals@.len()
    }

    fn len(&self) -> usize {
        self.intervals.len()
    }
}

impl Len for Melody {
    open spec fn spec_len(&self) -> nat {
        self.pitches@.len()
    }

    fn len(&self) -> usize {
        self.pitches.len()
    }
}

impl Len for MelodyShape {
    open spec fn spec_len(&self) -> nat {
        self.intervals@.len()
    }

    fn len(&self) -> usize {
        self.intervals.len()
    }
}

impl Len for MelodyClass {
    open spec fn spec_len(&self) -> nat {
        self.pitch_classes@.len()
    }

    fn len(&self) -> usize {
        self.pitch_classes.len()
    }
}

impl Len for MelodyClassShape {
    open spec fn spec_len(&self) -> nat {
        self.interval_classes@.len()
    }

    fn len(&self) -> usize {
        self.interval_classes.len()
    }
}

impl Len for MelodicMap {
    open spec fn spec_len(&self) -> nat {
        self.harmonics@.len()
    }

    fn len(&self) -> usize {
        self.harmonics.len()
    }
}

impl Len for PitchCycle {
    open spec fn spec_len(&self) -> nat {
        self.pitches@.len()
    }

    fn len(&self) -> usize {
        self.pitches.len()
    }
}

impl Len for IntervalCycle {
    open spec fn spec_len(&self) -> nat {
        self.intervals@.len()
    }

    fn len(&self) -> usize {
        self.intervals.len()
    }
}

impl Len for PitchClassCycle {
    open spec fn spec_len(&self) -> nat {
        self.pitch_classes@.len()
    }

    fn len(&self) -> usize {
        self.pitch_classes.len()
    }
}

impl Len for IntervalClassCycle {
    open spec fn spec_len(&self) -> nat {
        self.interval_classes@.len()
    }

    fn len(&self) -> usize {
        self.interval_classes.len()
    }
}

// ------------------------------------------------------------------
// Span
// ------------------------------------------------------------------

impl Span for Chord {
    open spec fn span_defined(&self) -> bool {
        self.pitches@.len() > 0 && max_of(ints(self.pitches@)) - min_of(ints(self.pitches@))
            <= i16::MAX
    }

    open spec fn spec_span(&self) -> int {
        max_of(ints(self.pitches@)) - min_of(ints(self.pitches@))
    }

    fn span(&self) -> i16 {
        let (hi, lo) = max_min(&self.pitches);
        hi - lo
    }
}

impl Span for ChordShape {
    open spec fn span_defined(&self) -> bool {
        i16::MIN <= sum(ints(self.intervals@)) <= i16::MAX
    }

    open spec fn spec_span(&self) -> int {
        sum(ints(self.intervals@))
    }

    fn span(&self) -> i16 {
        sum_of(&self.intervals)
    }
}

impl Span for Melody {
    open spec fn span_defined(&self) -> bool {
        self.pitches@.len() > 0 && max_of(ints(self.pitches@)) - min_of(ints(self.pitches@))
            <= i16::MAX
    }

    open spec fn spec_span(&self) -> int {
        max_of(ints(self.pitches@)) - min_of(ints(self.pitches@))
    }

    fn span(&self) -> i16 {
        let (hi, lo) = max_min(&self.pitches);
        hi - lo
    }
}

impl Span for MelodyShape {
    open spec fn span_defined(&self) -> bool {
        i16::MIN <= sum(ints(self.intervals@)) <= i16::MAX
    }

    open spec fn spec_span(&self) -> int {
        sum(ints(self.intervals@))
    }

    fn span(&self) -> i16 {
        sum_of(&self.intervals)
    }
}

// ------------------------------------------------------------------
// Modulus
// ------------------------------------------------------------------

impl Modulus<i16> for Scale {
    open spec fn modulus_defined(&self) -> bool {
        true
    }

    open spec fn spec_modulus(&self) -> i16 {
        self.modulus
    }

    fn modulus(&self) -> i16 {
        self.modulus
    }
}

impl Modulus<i16> for ScaleMap {
    open spec fn modulus_defined(&self) -> bool {
        self.harmonics@.len() > 0
    }

    open spec fn spec_modulus(&self) -> i16 {
        self.harmonics@.last()
    }

    fn modulus(&self) -> i16 {
        self.harmonics[self.harmonics.len() - 1]
    }
}

impl Modulus<i16> for ScaleKey {
    open spec fn modulus_defined(&self) -> bool {
        true
    }

    open spec fn spec_modulus(&self) -> i16 {
        self.modulus
    }

    fn modulus(&self) -> i16 {
        self.modulus
    }
}

impl Modulus<i16> for ScaleShape {
    open spec fn modulus_defined(&self) -> bool {
        self.wf()
    }

    open spec fn spec_modulus(&self) -> i16 {
        sum(ints(self.intervals@)) as i16
    }

    fn modulus(&self) -> i16 {
        proof {
            lemma_sum_nonneg(ints(self.intervals@));
        }
        sum_of(&self.intervals)
    }
}

impl Modulus<i16> for MelodyClass {
    open spec fn modulus_defined(&self) -> bool {
        true
    }

    open spec fn spec_modulus(&self) -> i16 {
        self.modulus
    }

    fn modulus(&self) -> i16 {
        self.modulus
    }
}

impl Modulus<i16> for MelodyClassShape {
    open spec fn modulus_defined(&self) -> bool {
        true
    }

    open spec fn spec_modulus(&self) -> i16 {
        self.modulus
    }

    fn modulus(&self) -> i16 {
        self.modulus
    }
}

impl Modulus<i16> for PitchClassCycle {
    open spec fn modulus_defined(&self) -> bool {
        true
    }

    open spec fn spec_modulus(&self) -> i16 {
        self.modulus
    }

    fn modulus(&self) -> i16 {
        self.modulus
    }
}

impl Modulus<i16> for IntervalClassCycle {
    open spec fn modulus_defined(&self) -> bool {
        true
    }

    open spec fn spec_modulus(&self) -> i16 {
        self.modulus
    }

    fn modulus(&self) -> i16 {
        self.modulus
    }
}

impl Modulus<i16> for MelodicMap {
    open spec fn modulus_defined(&self) -> bool {
        self.harmonics@.len() > 0
    }

    open spec fn spec_modulus(&self) -> i16 {
        self.harmonics@.last()
    }

    fn modulus(&self) -> i16 {
        self.harmonics[self.harmonics.len() - 1]
    }
}

impl Modulus<i16> for PitchCycle {
    open spec fn modulus_defined(&self) -> bool {
        true
    }

    open spec fn spec_modulus(&self) -> i16 {
        0
    }

    fn modulus(&self) -> i16 {
        0
    }
}

impl Modulus<i16> for IntervalCycle {
    open spec fn modulus_defined(&self) -> bool {
        i16::MIN <= sum(ints(self.intervals@)) <= i16::MAX
    }

    open spec fn spec_modulus(&self) -> i16 {
        sum(ints(self.intervals@)) as i16
    }

    fn modulus(&self) -> i16 {
        sum_of(&self.intervals)
    }
}

// ------------------------------------------------------------------
// MelodicModulus
// ------------------------------------------------------------------

impl MelodicModulus for PitchClassCycle {
    open spec fn melodic_modulus_defined(&self) -> bool {
        true
    }

    open spec fn spec_melodic_modulus(&self) -> int {
        0
    }

    fn melodic_modulus(&self) -> i16 {
        0
    }
}

impl MelodicModulus for IntervalClassCycle {
    open spec fn melodic_modulus_defined(&self) -> bool {
        self.wf()
    }

    open spec fn spec_melodic_modulus(&self) -> int {
        sum(ints(self.interval_classes@)) % (self.modulus as int)
    }

    fn melodic_modulus(&self) -> i16 {
        sum_mod(&self.interval_classes, self.modulus)
    }
}

// ------------------------------------------------------------------
// Shape
// ------------------------------------------------------------------

impl Shape for Chord {
    type Output = ChordShape;

    open spec fn shape_defined(&self) -> bool {
        self.wf() && fits_i16(diffs(ints(self.pitches@)))
    }

    /// The intervals between adjacent pitches.
    fn shape(&self) -> (r: ChordShape)
        ensures
            ints(r.intervals@) == diffs(ints(self.pitches@)),
            r.wf(),
    {
        let intervals = linear_diffs(&self.pitches);
        ChordShape { intervals }
    }
}

impl Shape for Scale {
    type Output = ScaleShape;

    open spec fn shape_defined(&self) -> bool {
        self.wf()
    }

    /// The intervals between cyclically adjacent pitch classes, modulo the
    /// modulus; a single pitch class has the whole modulus as its shape.
    fn shape(&self) -> (r: ScaleShape)
        ensures
            ints(r.intervals@) == residue_shape(ints(self.pitch_classes@), self.modulus as int),
            r.wf(),
            self.pitch_classes@.len() > 0 ==> sum(ints(r.intervals@)) == self.modulus,
    {
        let intervals = cyclic_residue_shape(&self.pitch_classes, self.modulus);
        proof {
            if self.pitch_classes@.len() > 0 {
                lemma_scale_shape(ints(self.pitch_classes@), self.modulus as int);
            } else {
                assert(ints(intervals@) =~= Seq::<int>::empty());
            }
        }
        ScaleShape { intervals }
    }
}

impl Shape for ScaleMap {
    type Output = ScaleShape;

    open spec fn shape_defined(&self) -> bool {
        self.wf()
    }

    /// The first harmonic, then the steps between adjacent harmonics.
    fn shape(&self) -> (r: ScaleShape)
        ensures
            ints(r.intervals@) == diffs(seq![0int] + ints(self.harmonics@)),
            r.wf(),
            sum(ints(r.intervals@)) == self.harmonics@.last(),
    {
        proof {
            lemma_pattern_shape(ints(self.harmonics@));
            let d = diffs(seq![0int] + ints(self.harmonics@));
            assert forall|i: int| 0 <= i < d.len() implies i16::MIN <= #[trigger] d[i]
                <= i16::MAX by {
                lemma_pattern_step_bounded(ints(self.harmonics@), i);
            }
        }
        let intervals = pattern_diffs(&self.harmonics);
        ScaleShape { intervals }
    }
}

impl Shape for ScaleKey {
    type Output = ScaleShape;

    open spec fn shape_defined(&self) -> bool {
        self.wf()
    }

    /// The intervals between cyclically adjacent pitch classes, from the root.
    fn shape(&self) -> (r: ScaleShape)
        ensures
            ints(r.intervals@) == residue_shape(ints(self.pitch_classes@), self.modulus as int),
            r.wf(),
            sum(ints(r.intervals@)) == self.modulus,
    {
        let intervals = cyclic_residue_shape(&self.pitch_classes, self.modulus);
        ScaleShape { intervals }
    }
}

impl Shape for Melody {
    type Output = MelodyShape;

    open spec fn shape_defined(&self) -> bool {
        fits_i16(diffs(ints(self.pitches@)))
    }

    /// The intervals between adjacent pitches.
    fn shape(&self) -> (r: MelodyShape)
        ensures
            ints(r.intervals@) == diffs(ints(self.pitches@)),
    {
        MelodyShape { intervals: linear_diffs(&self.pitches) }
    }
}

impl Shape for MelodyClass {
    type Output = MelodyClassShape;

    open spec fn shape_defined(&self) -> bool {
        self.wf()
    }

    /// The intervals between adjacent pitch classes, modulo the modulus.
    fn shape(&self) -> (r: MelodyClassShape)
        ensures
            ints(r.interval_classes@) == reduce(diffs(ints(self.pitch_classes@)), self.modulus as int),
            r.modulus == self.modulus,
            r.wf(),
    {
        let interval_classes = reduced_diffs(&self.pitch_classes, self.modulus);
        proof {
            lemma_reduce_residues(diffs(ints(self.pitch_classes@)), self.modulus as int);
        }
        MelodyClassShape { interval_classes, modulus: self.modulus }
    }
}

impl Shape for MelodicMap {
    type Output = IntervalCycle;

    open spec fn shape_defined(&self) -> bool {
        self.wf() && fits_i16(diffs(seq![0int] + ints(self.harmonics@)))
    }

    /// The first harmonic, then the steps between adjacent harmonics.
    fn shape(&self) -> (r: IntervalCycle)
        ensures
            ints(r.intervals@) == diffs(seq![0int] + ints(self.harmonics@)),
    {
        IntervalCycle { intervals: pattern_diffs(&self.harmonics) }
    }
}

impl Shape for PitchCycle {
    type Output = IntervalCycle;

    open spec fn shape_defined(&self) -> bool {
        fits_i16(ring_diffs(ints(self.pitches@)))
    }

    /// The intervals between cyclically adjacent pitches.
    fn shape(&self) -> (r: IntervalCycle)
        ensures
            ints(r.intervals@) == ring_diffs(ints(self.pitches@)),
    {
        IntervalCycle { intervals: cyclic_diffs(&self.pitches) }
    }
}

impl Shape for PitchClassCycle {
    type Output = IntervalClassCycle;

    open spec fn shape_defined(&self) -> bool {
        self.wf()
    }

    /// The intervals between cyclically adjacent pitch classes, modulo the modulus.
    fn shape(&self) -> (r: IntervalClassCycle)
        ensures
            ints(r.interval_classes@) == reduce(ring_diffs(ints(self.pitch_classes@)), self.modulus as int),
            r.modulus == self.modulus,
            r.wf(),
    {
        let interval_classes = reduced_cyclic_diffs(&self.pitch_classes, self.modulus);
        proof {
            lemma_reduce_residues(ring_diffs(ints(self.pitch_classes@)), self.modulus as int);
        }
        IntervalClassCycle { interval_classes, modulus: self.modulus }
    }
}

/// The cyclic shape of a residue list.
fn cyclic_residue_shape(pcs: &Vec<i16>, m: i16) -> (r: Vec<i16>)
    requires
        0 < m,
    ensures
        ints(r@) == residue_shape(ints(pcs@), m as int),
{
    if pcs.len() == 1 {
        let r = vec![m];
        proof {
            assert(ints(r@) =~= seq![m as int]);
        }
        r
    } else {
        reduced_cyclic_diffs(pcs, m)
    }
}

/// A step of a positive ascending pattern (with its leading zero) lies
/// between zero and the last harmonic.
proof fn lemma_pattern_step_bounded(h: Seq<int>, i: int)
    requires
        h.len() > 0,
        0 < h[0],
        ascending(h),
        0 <= i < h.len(),
    ensures
        0 < diffs(seq![0int] + h)[i] <= h.last(),
{
    if i > 0 {
        assert(h[i - 1] < h[i]);
        assert(h[0] <= h[i - 1]);
    }
    if i < h.len() - 1 {
        assert(h[i] < h.last());
    }
}

// ------------------------------------------------------------------
// Stamp
// ------------------------------------------------------------------

impl Stamp<i16> for ChordShape {
    type Output = Chord;

    open spec fn stamp_defined(&self, start: i16) -> bool {
        self.wf() && fits_i16(stamp_linear(ints(self.intervals@), start as int))
    }

    /// The pitches reached from `start` by the intervals in turn.
    fn stamp(&self, start: i16) -> (r: Chord)
        ensures
            ints(r.pitches@) == stamp_linear(ints(self.intervals@), start as int),
            r.wf(),
    {
        proof {
            assert(ints(self.intervals@).take(self.intervals@.len() as int) =~= ints(self.intervals@));
            lemma_stamp_ascending(ints(self.intervals@), start as int);
        }
        let pitches = running_stamp(&self.intervals, self.intervals.len(), start);
        Chord { pitches }
    }
}

impl Stamp<i16> for ScaleShape {
    type Output = Scale;

    open spec fn stamp_defined(&self, start: i16) -> bool {
        self.wf() && self.intervals@.len() > 0 && 0 <= start < sum(ints(self.intervals@))
    }

    /// The residue set reached from `start` by all intervals but the last,
    /// modulo the sum of the intervals, in ascending order.
    fn stamp(&self, start: i16) -> (r: Scale)
        ensures
            ints(r.pitch_classes@) == stamp_cyclic(ints(self.intervals@), start as int),
            r.modulus == sum(ints(self.intervals@)),
            r.wf(),
    {
        let ghost d = ints(self.intervals@);
        let n = self.intervals.len();
        let m = self.modulus();
        let residues_in_order = reduced_stamp(&self.intervals, n - 1, start, m);
        let p = stamp_count_below(&self.intervals, n - 1, start, m);
        let k = if p == n {
            0
        } else {
            p
        };
        proof {
            assert(ints(residues_in_order@).len() == residues_in_order@.len());
        }
        let pitch_classes = rotated(&residues_in_order, k);
        proof {
            let v = stamp_linear(d.drop_last(), start as int);
            assert(d.take(n - 1) =~= d.drop_last());
            lemma_stamp_ascending(d.drop_last(), start as int);
            assert(sum(d) == sum(d.drop_last()) + d.last());
            lemma_ascending_residues(v, m as int);
            lemma_ints_rotate(residues_in_order@, k as int);
            lemma_mod_self_0(n as int);
            lemma_small_mod(k as nat, n as nat);
        }
        Scale { pitch_classes, modulus: m }
    }
}

impl Stamp<i16> for MelodyShape {
    type Output = Melody;

    open spec fn stamp_defined(&self, start: i16) -> bool {
        fits_i16(stamp_linear(ints(self.intervals@), start as int))
    }

    /// The pitches reached from `start` by the intervals in turn.
    fn stamp(&self, start: i16) -> (r: Melody)
        ensures
            ints(r.pitches@) == stamp_linear(ints(self.intervals@), start as int),
    {
        proof {
            assert(ints(self.intervals@).take(self.intervals@.len() as int) =~= ints(self.intervals@));
        }
        Melody { pitches: running_stamp(&self.intervals, self.intervals.len(), start) }
    }
}

impl Stamp<i16> for MelodyClassShape {
    type Output = MelodyClass;

    open spec fn stamp_defined(&self, start: i16) -> bool {
        self.wf() && 0 <= start < self.modulus
    }

    /// The pitch classes reached from `start` by the intervals in turn.
    fn stamp(&self, start: i16) -> (r: MelodyClass)
        ensures
            ints(r.pitch_classes@) == reduce(stamp_linear(ints(self.interval_classes@), start as int), self.modulus as int),
            r.modulus == self.modulus,
            r.wf(),
    {
        proof {
            assert(ints(self.interval_classes@).take(self.interval_classes@.len() as int) =~= ints(self.interval_classes@));
            lemma_reduce_residues(stamp_linear(ints(self.interval_classes@), start as int), self.modulus as int);
        }
        let pitch_classes = reduced_stamp(&self.interval_classes, self.interval_classes.len(), start, self.modulus);
        MelodyClass { pitch_classes, modulus: self.modulus }
    }
}

impl Stamp<i16> for IntervalCycle {
    type Output = MelodicMap;

    open spec fn stamp_defined(&self, start: i16) -> bool {
        self.intervals@.len() > 0 && fits_i16(running_sums(ints(self.intervals@)))
    }

    /// The melodic map whose harmonics are the running sums of the intervals,
    /// transposed to `start`.
    fn stamp(&self, start: i16) -> (r: MelodicMap)
        ensures
            ints(r.harmonics@) == running_sums(ints(self.intervals@)),
            r.transposition == start,
            r.wf(),
    {
        let harmonics = running_sums_of(&self.intervals);
        proof {
            assert(ints(harmonics@).len() == harmonics@.len());
        }
        MelodicMap { harmonics, transposition: start }
    }
}

impl Stamp<i16> for IntervalClassCycle {
    type Output = PitchClassCycle;

    open spec fn stamp_defined(&self, start: i16) -> bool {
        self.wf() && self.interval_classes@.len() > 0
    }

    /// The pitch classes reached from `start` by all intervals but the last
    /// (which closes the cycle), modulo the modulus.
    fn stamp(&self, start: i16) -> (r: PitchClassCycle)
        ensures
            ints(r.pitch_classes@) == reduce(stamp_linear(ints(self.interval_classes@).drop_last(), start as int), self.modulus as int),
            r.modulus == self.modulus,
            r.wf(),
    {
        let n = self.interval_classes.len();
        proof {
            assert(ints(self.interval_classes@).take(n - 1) =~= ints(self.interval_classes@).drop_last());
            lemma_reduce_residues(stamp_linear(ints(self.interval_classes@).drop_last(), start as int), self.modulus as int);
        }
        let pitch_classes = reduced_stamp(&self.interval_classes, n - 1, start, self.modulus);
        PitchClassCycle { pitch_classes, modulus: self.modulus }
    }
}

impl ScaleShape {
    /// The scale map whose harmonics are the running sums of the intervals.
    pub fn stamp_to_scale_map(&self, transposition: i16) -> (r: ScaleMap)
        requires
            self.wf(),
            self.intervals@.len() > 0,
        ensures
            ints(r.harmonics@) == running_sums(ints(self.intervals@)),
            r.transposition == transposition,
            r.wf(),
    {
        proof {
            lemma_running_sums(ints(self.intervals@));
        }
        ScaleMap { harmonics: running_sums_of(&self.intervals), transposition }
    }

    /// The key reached from `root` by all intervals but the last, modulo
    /// the sum of the intervals, in cyclic order from the root.
    pub fn stamp_to_scale_key(&self, root: i16) -> (r: ScaleKey)
        requires
            self.wf(),
            self.intervals@.len() > 0,
            0 <= root < sum(ints(self.intervals@)),
        ensures
            ints(r.pitch_classes@) == stamp_key(ints(self.intervals@), root as int),
            r.modulus == sum(ints(self.intervals@)),
            r.wf(),
            r.pitch_classes@[0] == root,
    {
        let n = self.intervals.len();
        let m = self.modulus();
        let pitch_classes = reduced_stamp(&self.intervals, n - 1, root, m);
        proof {
            assert(ints(self.intervals@).take(n - 1) =~= ints(self.intervals@).drop_last());
            lemma_stamp_key_shape(ints(self.intervals@), root as int);
        }
        ScaleKey { pitch_classes, modulus: m }
    }
}

impl IntervalCycle {
    /// The pitch cycle reached from `pitch` by all intervals but the last
    /// (which returns to the start).
    pub fn stamp_to_pitch_cycle(&self, pitch: i16) -> (r: PitchCycle)
        requires
            self.intervals@.len() > 0,
            fits_i16(stamp_linear(ints(self.intervals@).drop_last(), pitch as int)),
        ensures
            ints(r.pitches@) == stamp_linear(ints(self.intervals@).drop_last(), pitch as int),
    {
        let n = self.intervals.len();
        proof {
            assert(ints(self.intervals@).take(n - 1) =~= ints(self.intervals@).drop_last());
        }
        PitchCycle { pitches: running_stamp(&self.intervals, n - 1, pitch) }
    }
}

// ------------------------------------------------------------------
// Prime
// ------------------------------------------------------------------

impl Prime<i16> for ScaleShape {
    open spec fn prime_defined(&self) -> bool {
        self.wf()
    }

    open spec fn prime_len(&self) -> nat {
        block_size(ints(self.intervals@)) as nat
    }

    open spec fn prime_modulus(&self) -> i16 {
        sum(aperiodic_block(ints(self.intervals@))) as i16
    }

    /// The minimal repeating block of the intervals.
    fn prime(&self) -> (r: ScaleShape)
        ensures
            ints(r.intervals@) == aperiodic_block(ints(self.intervals@)),
            r.wf(),
    {
        let intervals = find_aperiodic_substring(self.intervals.as_slice());
        proof {
            lemma_block(ints(self.intervals@));
            lemma_ints_block(self.intervals@);
            lemma_sum_nonneg(aperiodic_block(ints(self.intervals@)));
        }
        ScaleShape { intervals }
    }

    /// Reports whether the intervals are their own minimal repeating block.
    fn is_prime(&self) -> (r: bool)
        ensures
            r == (aperiodic_block(self.intervals@) == self.intervals@),
    {
        let prime = find_aperiodic_substring(self.intervals.as_slice());
        same_values(&prime, &self.intervals)
    }
}

impl Prime<i16> for IntervalCycle {
    open spec fn prime_defined(&self) -> bool {
        i16::MIN <= sum(aperiodic_block(ints(self.intervals@))) <= i16::MAX
    }

    open spec fn prime_len(&self) -> nat {
        block_size(ints(self.intervals@)) as nat
    }

    open spec fn prime_modulus(&self) -> i16 {
        sum(aperiodic_block(ints(self.intervals@))) as i16
    }

    /// The minimal repeating block of the intervals.
    fn prime(&self) -> (r: IntervalCycle)
        ensures
            ints(r.intervals@) == aperiodic_block(ints(self.intervals@)),
    {
        let intervals = find_aperiodic_substring(self.intervals.as_slice());
        proof {
            lemma_block(ints(self.intervals@));
            lemma_ints_block(self.intervals@);
        }
        IntervalCycle { intervals }
    }

    /// Reports whether the intervals are their own minimal repeating block.
    fn is_prime(&self) -> (r: bool)
        ensures
            r == (aperiodic_block(self.intervals@) == self.intervals@),
    {
        let prime = find_aperiodic_substring(self.intervals.as_slice());
        same_values(&prime, &self.intervals)
    }
}

impl Prime<i16> for IntervalClassCycle {
    open spec fn prime_defined(&self) -> bool {
        self.wf()
    }

    open spec fn prime_len(&self) -> nat {
        block_size(ints(self.interval_classes@)) as nat
    }

    open spec fn prime_modulus(&self) -> i16 {
        self.modulus
    }

    /// The minimal repeating block of the interval classes.
    fn prime(&self) -> (r: IntervalClassCycle)
        ensures
            ints(r.interval_classes@) == aperiodic_block(ints(self.interval_classes@)),
            r.modulus == self.modulus,
            r.wf(),
    {
        let interval_classes = find_aperiodic_substring(self.interval_classes.as_slice());
        proof {
            lemma_block(ints(self.interval_classes@));
            lemma_ints_block(self.interval_classes@);
        }
        IntervalClassCycle { interval_classes, modulus: self.modulus }
    }

    /// Reports whether the interval classes are their own minimal repeating block.
    fn is_prime(&self) -> (r: bool)
        ensures
            r == (aperiodic_block(self.interval_classes@) == self.interval_classes@),
    {
        let prime = find_aperiodic_substring(self.interval_classes.as_slice());
        same_values(&prime, &self.interval_classes)
    }
}

impl Prime<i16> for Scale {
    open spec fn prime_defined(&self) -> bool {
        self.wf() && self.pitch_classes@.len() > 0
    }

    open spec fn prime_len(&self) -> nat {
        block_size(residue_shape(ints(self.pitch_classes@), self.modulus as int)) as nat
    }

    open spec fn prime_modulus(&self) -> i16 {
        sum(aperiodic_block(residue_shape(ints(self.pitch_classes@), self.modulus as int))) as i16
    }

    /// The minimal repeating block of the shape, stamped onto the smallest
    /// pitch class reduced modulo the block's sum.
    fn prime(&self) -> (r: Scale)
        ensures
            ints(r.pitch_classes@) == stamp_cyclic(
                aperiodic_block(residue_shape(ints(self.pitch_classes@), self.modulus as int)),
                (self.pitch_classes@[0] as int) % (self.prime_modulus() as int),
            ),
            r.modulus == self.prime_modulus(),
            r.wf(),
    {
        let shape = self.shape();
        let block = shape.prime();
        proof {
            lemma_block(ints(shape.intervals@));
            lemma_stamp_cyclic_len(ints(block.intervals@), (self.pitch_classes@[0] as int) % (self.prime_modulus() as int));
        }
        let m = block.modulus();
        let start = rem_euclid_i16(self.pitch_classes[0], m);
        block.stamp(start)
    }

    /// Reports whether the shape is its own minimal repeating block.
    fn is_prime(&self) -> (r: bool)
        ensures
            r == (aperiodic_block(self.shape_view()) == self.shape_view()),
    {
        let shape = self.shape();
        proof {
            assert(ints(shape.intervals@) == self.shape_view());
            lemma_block_of_ints(shape.intervals@);
        }
        shape.is_prime()
    }
}

impl Prime<i16> for ScaleMap {
    open spec fn prime_defined(&self) -> bool {
        self.wf()
    }

    open spec fn prime_len(&self) -> nat {
        block_size(diffs(seq![0int] + ints(self.harmonics@))) as nat
    }

    open spec fn prime_modulus(&self) -> i16 {
        sum(aperiodic_block(diffs(seq![0int] + ints(self.harmonics@)))) as i16
    }

    /// The minimal repeating block of the shape, stamped back into a map
    /// with the same transposition.
    fn prime(&self) -> (r: ScaleMap)
        ensures
            ints(r.harmonics@) == running_sums(aperiodic_block(diffs(seq![0int] + ints(self.harmonics@)))),
            r.transposition == self.transposition,
            r.wf(),
    {
        let shape = self.shape();
        let block = shape.prime();
        proof {
            lemma_block(ints(shape.intervals@));
            lemma_running_sums(ints(block.intervals@));
        }
        block.stamp_to_scale_map(self.transposition)
    }

    /// Reports whether the shape is its own minimal repeating block.
    fn is_prime(&self) -> (r: bool)
        ensures
            r == (aperiodic_block(diffs(seq![0int] + ints(self.harmonics@))) == diffs(seq![0int] + ints(self.harmonics@))),
    {
        let shape = self.shape();
        proof {
            lemma_block_of_ints(shape.intervals@);
        }
        shape.is_prime()
    }
}

impl Prime<i16> for ScaleKey {
    open spec fn prime_defined(&self) -> bool {
        self.wf()
    }

    open spec fn prime_len(&self) -> nat {
        block_size(residue_shape(ints(self.pitch_classes@), self.modulus as int)) as nat
    }

    open spec fn prime_modulus(&self) -> i16 {
        sum(aperiodic_block(residue_shape(ints(self.pitch_classes@), self.modulus as int))) as i16
    }

    /// The minimal repeating block of the shape, stamped as a key onto the
    /// root reduced modulo the block's sum.
    fn prime(&self) -> (r: ScaleKey)
        ensures
            ints(r.pitch_classes@) == stamp_key(
                aperiodic_block(residue_shape(ints(self.pitch_classes@), self.modulus as int)),
                (self.pitch_classes@[0] as int) % (self.prime_modulus() as int),
            ),
            r.modulus == self.prime_modulus(),
            r.wf(),
    {
        let shape = self.shape();
        let block = shape.prime();
        proof {
            lemma_block(ints(shape.intervals@));
            lemma_stamp_key_len(ints(block.intervals@), (self.pitch_classes@[0] as int) % (self.prime_modulus() as int));
        }
        let m = block.modulus();
        let root = rem_euclid_i16(self.root(), m);
        block.stamp_to_scale_key(root)
    }

    /// Reports whether the shape is its own minimal repeating block.
    fn is_prime(&self) -> (r: bool)
        ensures
            r == (aperiodic_block(residue_shape(ints(self.pitch_classes@), self.modulus as int)) == residue_shape(ints(self.pitch_classes@), self.modulus as int)),
    {
        let shape = self.shape();
        proof {
            lemma_block_of_ints(shape.intervals@);
        }
        shape.is_prime()
    }
}

impl Prime<i16> for PitchCycle {
    open spec fn prime_defined(&self) -> bool {
        &&& self.pitches@.len() > 0
        &&& fits_i16(ring_diffs(ints(self.pitches@)))
        &&& fits_i16(
            stamp_linear(aperiodic_block(ring_diffs(ints(self.pitches@))).drop_last(), self.pitches@[0] as int),
        )
    }

    open spec fn prime_len(&self) -> nat {
        block_size(ring_diffs(ints(self.pitches@))) as nat
    }

    open spec fn prime_modulus(&self) -> i16 {
        0
    }

    /// The minimal repeating block of the shape, stamped as a cycle onto the first pitch.
    fn prime(&self) -> (r: PitchCycle)
        ensures
            ints(r.pitches@) == stamp_linear(
                aperiodic_block(ring_diffs(ints(self.pitches@))).drop_last(),
                self.pitches@[0] as int,
            ),
    {
        let shape = self.shape();
        let block = IntervalCycle { intervals: find_aperiodic_substring(shape.intervals.as_slice()) };
        proof {
            lemma_block(ints(shape.intervals@));
            lemma_ints_block(shape.intervals@);
        }
        let r = block.stamp_to_pitch_cycle(self.pitches[0]);
        proof {
            assert(ints(r.pitches@).len() == r.pitches@.len());
        }
        r
    }

    /// Reports whether the shape is its own minimal repeating block.
    fn is_prime(&self) -> (r: bool)
        ensures
            r == (aperiodic_block(ring_diffs(ints(self.pitches@))) == ring_diffs(ints(self.pitches@))),
    {
        let shape = self.shape();
        proof {
            lemma_block_of_ints(shape.intervals@);
        }
        let prime = find_aperiodic_substring(shape.intervals.as_slice());
        same_values(&prime, &shape.intervals)
    }
}

impl Prime<i16> for PitchClassCycle {
    open spec fn prime_defined(&self) -> bool {
        self.wf() && self.pitch_classes@.len() > 0
    }

    open spec fn prime_len(&self) -> nat {
        block_size(reduce(ring_diffs(ints(self.pitch_classes@)), self.modulus as int)) as nat
    }

    open spec fn prime_modulus(&self) -> i16 {
        self.modulus
    }

    /// The minimal repeating block of the shape, stamped onto the first pitch class.
    fn prime(&self) -> (r: PitchClassCycle)
        ensures
            ints(r.pitch_classes@) == reduce(
                stamp_linear(
                    aperiodic_block(reduce(ring_diffs(ints(self.pitch_classes@)), self.modulus as int)).drop_last(),
                    self.pitch_classes@[0] as int,
                ),
                self.modulus as int,
            ),
            r.modulus == self.modulus,
            r.wf(),
    {
        let shape = self.shape();
        let block = shape.prime();
        proof {
            lemma_block(ints(shape.interval_classes@));
        }
        let r = block.stamp(self.pitch_classes[0]);
        proof {
            assert(ints(r.pitch_classes@).len() == r.pitch_classes@.len());
        }
        r
    }

    /// Reports whether the shape is its own minimal repeating block.
    fn is_prime(&self) -> (r: bool)
        ensures
            r == (aperiodic_block(reduce(ring_diffs(ints(self.pitch_classes@)), self.modulus as int)) == reduce(ring_diffs(ints(self.pitch_classes@)), self.modulus as int)),
    {
        let shape = self.shape();
        proof {
            lemma_block_of_ints(shape.interval_classes@);
        }
        shape.is_prime()
    }
}

impl CountModes<i16> for Scale {}

impl CountModes<i16> for ScaleMap {}

impl CountModes<i16> for ScaleKey {}

impl CountModes<i16> for ScaleShape {}

impl CountTranspositions for Scale {}

impl CountTranspositions for ScaleKey {}

// ------------------------------------------------------------------
// Eval
// ------------------------------------------------------------------

impl Eval<i16> for ScaleKey {
    open spec fn eval_defined(&self, input: i16) -> bool {
        self.wf()
    }

    /// The pitch class at cyclic position `input` from the root.
    fn eval(&self, input: i16) -> (r: i16)
        ensures
            r == self.pitch_classes@[(input as int) % (self.pitch_classes@.len() as int)],
    {
        let k = index_mod(input, self.pitch_classes.len());
        self.pitch_classes[k]
    }
}

impl Eval<i16> for ScaleMap {
    open spec fn eval_defined(&self, input: i16) -> bool {
        self.wf() && i16::MIN <= eval_pattern(ints(self.harmonics@), self.transposition as int, input as int) <= i16::MAX
    }

    /// Evaluates the map at index `input`: `q * M + H[r] + transposition`,
    /// where `input = q * L + r` with `0 <= r < L`.
    fn eval(&self, input: i16) -> (r: i16)
        ensures
            r as int == eval_pattern(ints(self.harmonics@), self.transposition as int, input as int),
    {
        eval_pattern_at(&self.harmonics, self.transposition, input)
    }
}

impl Eval<Chord> for ScaleMap {
    open spec fn eval_defined(&self, input: Chord) -> bool {
        &&& self.wf()
        &&& input.wf()
        &&& fits_i16(eval_all(ints(self.harmonics@), self.transposition as int, ints(input.pitches@)))
    }

    /// Evaluates a generic chord: the map applied to each of its pitches.
    fn eval(&self, input: Chord) -> (r: Chord)
        ensures
            ints(r.pitches@) == eval_all(ints(self.harmonics@), self.transposition as int, ints(input.pitches@)),
            r.wf(),
    {
        let pitches = eval_each(&self.harmonics, self.transposition, &input.pitches);
        proof {
            let h = ints(self.harmonics@);
            let p = ints(input.pitches@);
            assert forall|a: int, b: int| 0 <= a < b < p.len() implies ints(pitches@)[a] < ints(pitches@)[b] by {
                lemma_eval_monotone(h, self.transposition as int, p[a], p[b]);
            }
        }
        Chord { pitches }
    }
}

impl Eval<Melody> for ScaleMap {
    open spec fn eval_defined(&self, input: Melody) -> bool {
        &&& self.wf()
        &&& fits_i16(eval_all(ints(self.harmonics@), self.transposition as int, ints(input.pitches@)))
    }

    /// Evaluates a generic melody: the map applied to each of its pitches.
    fn eval(&self, input: Melody) -> (r: Melody)
        ensures
            ints(r.pitches@) == eval_all(ints(self.harmonics@), self.transposition as int, ints(input.pitches@)),
    {
        Melody { pitches: eval_each(&self.harmonics, self.transposition, &input.pitches) }
    }
}

impl Eval<i16> for MelodicMap {
    open spec fn eval_defined(&self, input: i16) -> bool {
        self.wf() && i16::MIN <= eval_pattern(ints(self.harmonics@), self.transposition as int, input as int) <= i16::MAX
    }

    /// Evaluates the map at index `input`: `q * M + H[r] + transposition`,
    /// where `input = q * L + r` with `0 <= r < L`.
    fn eval(&self, input: i16) -> (r: i16)
        ensures
            r as int == eval_pattern(ints(self.harmonics@), self.transposition as int, input as int),
    {
        eval_pattern_at(&self.harmonics, self.transposition, input)
    }
}

// ------------------------------------------------------------------
// Classify and HasPitch
// ------------------------------------------------------------------

impl Classify<i16> for Chord {
    type Output = Scale;

    open spec fn classify_defined(&self, modulus: i16) -> bool {
        0 < modulus
    }

    /// The scale of the chord: the set of its pitch classes, ascending.
    fn classify(&self, modulus: i16) -> (r: Scale)
        ensures
            r.modulus == modulus,
            r.wf(),
            forall|x: int| ints(r.pitch_classes@).contains(x) <==> reduce(ints(self.pitches@), modulus as int).contains(x),
    {
        let classes = reduced(&self.pitches, modulus);
        let ordered = sort_vector(classes.as_slice());
        let pitch_classes = dedup_sorted(&ordered);
        proof {
            let red = reduce(ints(self.pitches@), modulus as int);
            lemma_reduce_residues(ints(self.pitches@), modulus as int);
            assert forall|x: int| ints(pitch_classes@).contains(x) <==> red.contains(x) by {
                if ints(pitch_classes@).contains(x) {
                    let k = choose|k: int| 0 <= k < pitch_classes@.len() && ints(pitch_classes@)[k] == x;
                    let y = pitch_classes@[k];
                    assert(pitch_classes@.contains(y));
                    assert(ordered@.contains(y));
                    to_multiset_contains(ordered@, y);
                    to_multiset_contains(classes@, y);
                    assert(classes@.contains(y));
                    let j = choose|j: int| 0 <= j < classes@.len() && classes@[j] == y;
                    assert(red[j] == x);
                }
                if red.contains(x) {
                    let j = choose|j: int| 0 <= j < red.len() && red[j] == x;
                    let y = classes@[j];
                    assert(classes@.contains(y));
                    to_multiset_contains(ordered@, y);
                    to_multiset_contains(classes@, y);
                    assert(ordered@.contains(y));
                    assert(pitch_classes@.contains(y));
                    let k = choose|k: int| 0 <= k < pitch_classes@.len() && pitch_classes@[k] == y;
                    assert(ints(pitch_classes@)[k] == x);
                }
            }
            assert forall|i: int| 0 <= i < pitch_classes@.len() implies 0 <= #[trigger] ints(pitch_classes@)[i] < modulus by {
                let y = pitch_classes@[i];
                assert(pitch_classes@.contains(y));
                assert(ordered@.contains(y));
                to_multiset_contains(ordered@, y);
                to_multiset_contains(classes@, y);
                assert(classes@.contains(y));
                let j = choose|j: int| 0 <= j < classes@.len() && classes@[j] == y;
                assert(red[j] == y);
            }
        }
        Scale { pitch_classes, modulus }
    }
}

impl Classify<i16> for Melody {
    type Output = MelodyClass;

    open spec fn classify_defined(&self, modulus: i16) -> bool {
        0 < modulus
    }

    /// Each pitch reduced to its pitch class.
    fn classify(&self, modulus: i16) -> (r: MelodyClass)
        ensures
            ints(r.pitch_classes@) == reduce(ints(self.pitches@), modulus as int),
            r.modulus == modulus,
            r.wf(),
    {
        proof {
            lemma_reduce_residues(ints(self.pitches@), modulus as int);
        }
        MelodyClass { pitch_classes: reduced(&self.pitches, modulus), modulus }
    }
}

impl Classify<i16> for MelodyShape {
    type Output = MelodyClassShape;

    open spec fn classify_defined(&self, modulus: i16) -> bool {
        0 < modulus
    }

    /// Each interval reduced to its interval class.
    fn classify(&self, modulus: i16) -> (r: MelodyClassShape)
        ensures
            ints(r.interval_classes@) == reduce(ints(self.intervals@), modulus as int),
            r.modulus == modulus,
            r.wf(),
    {
        proof {
            lemma_reduce_residues(ints(self.intervals@), modulus as int);
        }
        MelodyClassShape { interval_classes: reduced(&self.intervals, modulus), modulus }
    }
}

impl HasPitch for Scale {
    open spec fn has_pitch_defined(&self) -> bool {
        self.wf()
    }

    /// Reports whether the pitch's class is among the pitch classes.
    fn has_pitch(&self, pitch: i16) -> (r: bool)
        ensures
            r == ints(self.pitch_classes@).contains(pitch as int % self.modulus as int),
    {
        let class = rem_euclid_i16(pitch, self.modulus);
        let mut i: usize = 0;
        while i < self.pitch_classes.len()
            invariant
                i <= self.pitch_classes@.len(),
                class as int == pitch as int % self.modulus as int,
                forall|k: int| 0 <= k < i ==> self.pitch_classes@[k] != class,
            decreases self.pitch_classes@.len() - i,
        {
            if self.pitch_classes[i] == class {
                proof {
                    assert(ints(self.pitch_classes@)[i as int] == class);
                }
                return true;
            }
            i += 1;
        }
        proof {
            if ints(self.pitch_classes@).contains(class as int) {
                let k = choose|k: int| 0 <= k < self.pitch_classes@.len() && ints(self.pitch_classes@)[k] == class;
                assert(self.pitch_classes@[k] == class);
            }
        }
        false
    }
}

impl Scale {
    /// The cyclic shape of the pitch classes.
    pub open spec fn shape_view(&self) -> Seq<int> {
        residue_shape(ints(self.pitch_classes@), self.modulus as int)
    }
}

/// A list is its own minimal block exactly when its integer values are.
proof fn lemma_block_of_ints(v: Seq<i16>)
    ensures
        (aperiodic_block(v) == v) == (aperiodic_block(ints(v)) == ints(v)),
{
    lemma_block_size_of_ints(v, 1);
    lemma_block(ints(v));
    if aperiodic_block(ints(v)) == ints(v) {
        assert(aperiodic_block(v) =~= v);
    }
    if aperiodic_block(v) == v {
        assert(aperiodic_block(ints(v)) =~= ints(v));
    }
}

/// The minimal block of the integer values is the integer values of the minimal block.
proof fn lemma_ints_block(v: Seq<i16>)
    ensures
        ints(aperiodic_block(v)) == aperiodic_block(ints(v)),
{
    lemma_block_size_of_ints(v, 1);
    lemma_block(ints(v));
    assert(ints(aperiodic_block(v)) =~= aperiodic_block(ints(v)));
}

/// Tiling does not depend on whether values are read as integers.
proof fn lemma_block_size_of_ints(v: Seq<i16>, d: int)
    ensures
        least_tile_from(v, d) == least_tile_from(ints(v), d),
    decreases v.len() - d,
{
    if d < v.len() {
        assert(tiles(v, d) == tiles(ints(v), d)) by {
            if 0 < d && tiles(ints(v), d) {
                assert forall|i: int| 0 <= i < v.len() implies #[trigger] v[i] == v[i % d] by {
                    assert(ints(v)[i] == ints(v)[i % d]);
                    lemma_mod_bound(i, d);
                }
            }
            if 0 < d && tiles(v, d) {
                assert forall|i: int| 0 <= i < v.len() implies #[trigger] ints(v)[i] == ints(v)[i % d] by {
                    assert(v[i] == v[i % d]);
                    lemma_mod_bound(i, d);
                }
            }
        }
        lemma_block_size_of_ints(v, d + 1);
    }
}

/// The cyclic stamp has as many residues as the shape has intervals.
proof fn lemma_stamp_cyclic_len(d: Seq<int>, start: int)
    requires
        d.len() > 0,
    ensures
        stamp_cyclic(d, start).len() == d.len(),
{
}

/// The key stamp has as many residues as the shape has intervals.
proof fn lemma_stamp_key_len(d: Seq<int>, root: int)
    requires
        d.len() > 0,
    ensures
        stamp_key(d, root).len() == d.len(),
{
}

/// A sum of positive values is not negative.
proof fn lemma_sum_nonneg(d: Seq<int>)
    requires
        all_positive(d),
    ensures
        0 <= sum(d),
    decreases d.len(),
{
    if d.len() > 0 {
        lemma_sum_nonneg(d.drop_last());
    }
}

} // verus!
