//! Transformations of music-theoretical objects: cyclic rotation, mode
//! rotation, repetition and stretching, and transposition.
use crate::algebra::{
    all_positive, ascending, ascending_residues, diffs, eval_pattern, fits_i16, ints,
    lemma_ascending_residues, lemma_ints_rotate, lemma_scale_shape, lemma_pattern_shape, lemma_reduce_residues,
    lemma_repeat_stretch_positive, lemma_repeat_stretch_residues, lemma_residue_shape_of_rotation,
    lemma_residue_shape_shift, lemma_rotate_index, lemma_rotated_pattern_wf,
    lemma_sum_repeat, lemma_sum_rotate, lemma_sum_stretch, reduce, repeat_seq, residue_shape,
    residues, rotate_left, rotated_pattern, running_sums, shift, stamp_cyclic, stamp_key,
    stretch_seq, sum, transposed_set,
};
use crate::analyze::{Eval, Len, Modulus, Shape, Stamp};
use crate::chord::{Chord, ChordShape};
use crate::melody::{
    IntervalClassCycle, IntervalCycle, MelodicMap, Melody, MelodyClass, MelodyClassShape,
    MelodyShape, PitchClassCycle, PitchCycle,
};
use crate::ops::{
    count_shifted_below, index_mod, rem_euclid_i16, rotate_pattern, rotated, shifted,
    shifted_reduced,
};
use crate::scale::{Scale, ScaleKey, ScaleMap, ScaleShape};
use crate::utility::{repeat_list, stretch_list};
use vstd::arithmetic::div_mod::{
    lemma_div_pos_is_pos, lemma_fundamental_div_mod, lemma_mod_bound, lemma_mod_twice,
    lemma_mod_self_0, lemma_small_mod,
};
use vstd::arithmetic::mul::lemma_mul_is_commutative;
use vstd::prelude::*;

verus! {

/// Rotation of a cyclic collection.
pub trait Rotate: Sized {
    spec fn rotate_defined(&self) -> bool;

    /// Rotates the cycle left by `n` places.
    fn rotate(&self, n: i16) -> Self
        requires
            self.rotate_defined(),
    ;
}

/// Rotation of a scale's mode.
pub trait RotateMode: Sized {
    spec fn rotate_mode_defined(&self, amount: i16) -> bool;

    /// Rotates the mode in a parallel way: the reference point stays, the
    /// pattern seen from it changes.
    fn parallel_rotate(&self, amount: i16) -> Self
        requires
            self.rotate_mode_defined(amount),
    ;

    /// Rotates the mode in a relative way: the reference point moves to the
    /// element at `amount`.
    fn relative_rotate(&self, amount: i16) -> Self
        requires
            self.rotate_mode_defined(amount),
    ;
}

/// Repetition of the elements of a sequence.
pub trait Repeat: Sized {
    spec fn repeat_defined(&self, n: usize) -> bool;

    /// Repeats the sequence `n` times.
    fn repeat(&self, n: usize) -> Self
        requires
            self.repeat_defined(n),
    ;

    /// Repeats each element of the sequence `n` times.
    fn stretch(&self, n: usize) -> Self
        requires
            self.repeat_defined(n),
    ;
}

/// Transposition of the pitches of a pitch structure.
pub trait Transpose: Sized {
    spec fn transpose_defined(&self, amount: i16) -> bool;

    /// Transposes the pitches by `amount`.
    fn transpose(&self, amount: i16) -> Self
        requires
            self.transpose_defined(amount),
    ;
}

/// Rotating by `n` is rotating by `n` modulo the length.
proof fn lemma_rotate_mod<A>(s: Seq<A>, n: int)
    requires
        s.len() > 0,
    ensures
        rotate_left(s, n) == rotate_left(s, n % (s.len() as int)),
{
    lemma_mod_twice(n, s.len() as int);
}

/// Rotation keeps positivity.
proof fn lemma_rotate_positive(s: Seq<int>, k: int)
    requires
        all_positive(s),
        0 <= k < s.len(),
    ensures
        all_positive(rotate_left(s, k)),
{
    assert forall|i: int| 0 <= i < s.len() implies 0 < #[trigger] rotate_left(s, k)[i] by {
        lemma_rotate_index(s, k, i);
        lemma_mod_bound(i + k, s.len() as int);
    }
}

/// Rotation keeps residues.
proof fn lemma_rotate_residues(s: Seq<int>, k: int, m: int)
    requires
        residues(s, m),
        0 <= k < s.len(),
    ensures
        residues(rotate_left(s, k), m),
{
    assert forall|i: int| 0 <= i < s.len() implies 0 <= #[trigger] rotate_left(s, k)[i] < m by {
        lemma_rotate_index(s, k, i);
        lemma_mod_bound(i + k, s.len() as int);
    }
}

/// The list rotated left by `n` places modulo its length.
fn rotate_by(v: &Vec<i16>, n: i16) -> (r: Vec<i16>)
    requires
        v@.len() > 0,
    ensures
        r@ == rotate_left(v@, n as int),
        ints(r@) == rotate_left(ints(v@), n as int),
        ints(r@) == rotate_left(ints(v@), (n as int) % (v@.len() as int)),
        0 <= (n as int) % (v@.len() as int) < v@.len(),
{
    let k = index_mod(n, v.len());
    let r = rotated(v, k);
    proof {
        lemma_rotate_mod(v@, n as int);
        lemma_rotate_mod(ints(v@), n as int);
        lemma_ints_rotate(v@, k as int);
    }
    r
}

// ------------------------------------------------------------------
// Rotate
// ------------------------------------------------------------------

impl Rotate for ChordShape {
    open spec fn rotate_defined(&self) -> bool {
        self.wf() && self.intervals@.len() > 0
    }

    fn rotate(&self, n: i16) -> (r: ChordShape)
        ensures
            r.intervals@ == rotate_left(self.intervals@, n as int),
            r.wf(),
    {
        let intervals = rotate_by(&self.intervals, n);
        proof {
            lemma_rotate_positive(ints(self.intervals@), (n as int) % (self.intervals@.len() as int));
        }
        ChordShape { intervals }
    }
}

impl Rotate for ScaleShape {
    open spec fn rotate_defined(&self) -> bool {
        self.wf() && self.intervals@.len() > 0
    }

    fn rotate(&self, n: i16) -> (r: ScaleShape)
        ensures
            r.intervals@ == rotate_left(self.intervals@, n as int),
            sum(ints(r.intervals@)) == sum(ints(self.intervals@)),
            r.wf(),
    {
        let intervals = rotate_by(&self.intervals, n);
        proof {
            let k = (n as int) % (self.intervals@.len() as int);
            lemma_rotate_positive(ints(self.intervals@), k);
            lemma_sum_rotate(ints(self.intervals@), k);
        }
        ScaleShape { intervals }
    }
}

impl Rotate for PitchCycle {
    open spec fn rotate_defined(&self) -> bool {
        self.pitches@.len() > 0
    }

    fn rotate(&self, n: i16) -> (r: PitchCycle)
        ensures
            r.pitches@ == rotate_left(self.pitches@, n as int),
    {
        PitchCycle { pitches: rotate_by(&self.pitches, n) }
    }
}

impl Rotate for IntervalCycle {
    open spec fn rotate_defined(&self) -> bool {
        self.intervals@.len() > 0
    }

    fn rotate(&self, n: i16) -> (r: IntervalCycle)
        ensures
            r.intervals@ == rotate_left(self.intervals@, n as int),
    {
        IntervalCycle { intervals: rotate_by(&self.intervals, n) }
    }
}

impl Rotate for PitchClassCycle {
    open spec fn rotate_defined(&self) -> bool {
        self.wf() && self.pitch_classes@.len() > 0
    }

    fn rotate(&self, n: i16) -> (r: PitchClassCycle)
        ensures
            r.pitch_classes@ == rotate_left(self.pitch_classes@, n as int),
            r.modulus == self.modulus,
            r.wf(),
    {
        let pitch_classes = rotate_by(&self.pitch_classes, n);
        proof {
            lemma_rotate_residues(ints(self.pitch_classes@), (n as int) % (self.pitch_classes@.len() as int), self.modulus as int);
        }
        PitchClassCycle { pitch_classes, modulus: self.modulus }
    }
}

impl Rotate for IntervalClassCycle {
    open spec fn rotate_defined(&self) -> bool {
        self.wf() && self.interval_classes@.len() > 0
    }

    fn rotate(&self, n: i16) -> (r: IntervalClassCycle)
        ensures
            r.interval_classes@ == rotate_left(self.interval_classes@, n as int),
            r.modulus == self.modulus,
            r.wf(),
    {
        let interval_classes = rotate_by(&self.interval_classes, n);
        proof {
            lemma_rotate_residues(ints(self.interval_classes@), (n as int) % (self.interval_classes@.len() as int), self.modulus as int);
        }
        IntervalClassCycle { interval_classes, modulus: self.modulus }
    }
}

// ------------------------------------------------------------------
// RotateMode
// ------------------------------------------------------------------

impl RotateMode for ScaleMap {
    open spec fn rotate_mode_defined(&self, amount: i16) -> bool {
        &&& self.wf()
        &&& self.harmonics@.len() <= 0x7fff
        &&& i16::MIN <= eval_pattern(ints(self.harmonics@), self.transposition as int, amount as int) <= i16::MAX
    }

    /// The pattern seen from index `amount` (each harmonic less the value
    /// there, modulo the period), with the transposition kept.
    fn parallel_rotate(&self, amount: i16) -> (r: ScaleMap)
        ensures
            ints(r.harmonics@) == rotated_pattern(ints(self.harmonics@), self.transposition as int, amount as int),
            r.transposition == self.transposition,
            r.wf(),
    {
        proof {
            lemma_map_rotation_fits(ints(self.harmonics@), self.transposition as int, amount as int);
        }
        let harmonics = rotate_pattern(&self.harmonics, self.transposition, amount);
        ScaleMap { harmonics, transposition: self.transposition }
    }

    /// The pattern seen from index `amount`, transposed to the value there.
    fn relative_rotate(&self, amount: i16) -> (r: ScaleMap)
        ensures
            ints(r.harmonics@) == rotated_pattern(ints(self.harmonics@), self.transposition as int, amount as int),
            r.transposition as int == eval_pattern(ints(self.harmonics@), self.transposition as int, amount as int),
            r.wf(),
    {
        proof {
            lemma_map_rotation_fits(ints(self.harmonics@), self.transposition as int, amount as int);
        }
        let harmonics = rotate_pattern(&self.harmonics, self.transposition, amount);
        let transposition = self.eval(amount);
        ScaleMap { harmonics, transposition }
    }
}

/// A rotated positive ascending pattern fits where the pattern does, and is
/// again a valid pattern.
proof fn lemma_map_rotation_fits(h: Seq<int>, t: int, a: int)
    requires
        h.len() > 0,
        0 < h[0],
        ascending(h),
        h.last() <= i16::MAX,
    ensures
        fits_i16(rotated_pattern(h, t, a)),
        0 < rotated_pattern(h, t, a)[0],
        ascending(rotated_pattern(h, t, a)),
{
    lemma_rotated_pattern_wf(h, t, a);
}

impl RotateMode for ScaleKey {
    open spec fn rotate_mode_defined(&self, amount: i16) -> bool {
        self.wf()
    }

    /// Keeps the root and takes the mode starting at position `amount`:
    /// every pitch class less the one at `amount` (plus the root), reduced,
    /// in cyclic order from the root.
    fn parallel_rotate(&self, amount: i16) -> (r: ScaleKey)
        ensures
            ints(r.pitch_classes@) == rotate_left(
                reduce(
                    shift(
                        ints(self.pitch_classes@),
                        self.pitch_classes@[0] - self.pitch_classes@[(amount as int) % (self.pitch_classes@.len() as int)],
                    ),
                    self.modulus as int,
                ),
                amount as int,
            ),
            r.modulus == self.modulus,
            r.pitch_classes@[0] == self.pitch_classes@[0],
            r.wf(),
    {
        let n = self.pitch_classes.len();
        let k = index_mod(amount, n);
        proof {
            assert(0 <= ints(self.pitch_classes@)[0] < self.modulus);
            assert(0 <= ints(self.pitch_classes@)[k as int] < self.modulus);
        }
        let t = self.pitch_classes[0] - self.pitch_classes[k];
        let moved = shifted_reduced(&self.pitch_classes, t, self.modulus);
        let ghost red = reduce(shift(ints(self.pitch_classes@), t as int), self.modulus as int);
        proof {
            lemma_residue_shape_shift(ints(self.pitch_classes@), t as int, self.modulus as int);
            assert(ints(moved@).len() == moved@.len());
        }
        let pitch_classes = rotated(&moved, k);
        proof {
            lemma_ints_rotate(moved@, k as int);
            lemma_rotate_mod(red, amount as int);
            lemma_residue_shape_of_rotation(red, self.modulus as int, k as int);
            lemma_rotate_index(red, k as int, 0);
            lemma_small_mod(k as nat, n as nat);
            lemma_small_mod(self.pitch_classes@[0] as nat, self.modulus as nat);
            assert(ints(pitch_classes@)[0] == red[k as int]);
        }
        ScaleKey { pitch_classes, modulus: self.modulus }
    }

    /// Keeps the pitch classes and moves the root to the one at position
    /// `amount`.
    fn relative_rotate(&self, amount: i16) -> (r: ScaleKey)
        ensures
            r.pitch_classes@ == rotate_left(self.pitch_classes@, amount as int),
            r.modulus == self.modulus,
            r.wf(),
    {
        let pitch_classes = rotate_by(&self.pitch_classes, amount);
        proof {
            lemma_residue_shape_of_rotation(
                ints(self.pitch_classes@),
                self.modulus as int,
                (amount as int) % (self.pitch_classes@.len() as int),
            );
        }
        ScaleKey { pitch_classes, modulus: self.modulus }
    }
}

impl RotateMode for MelodicMap {
    open spec fn rotate_mode_defined(&self, amount: i16) -> bool {
        &&& self.wf()
        &&& self.harmonics@.len() <= 0x7fff
        &&& fits_i16(rotated_pattern(ints(self.harmonics@), self.transposition as int, amount as int))
        &&& i16::MIN <= eval_pattern(ints(self.harmonics@), self.transposition as int, amount as int) <= i16::MAX
    }

    /// The values at the `L` indices after `amount`, less the value there,
    /// with the transposition kept.
    fn parallel_rotate(&self, amount: i16) -> (r: MelodicMap)
        ensures
            ints(r.harmonics@) == rotated_pattern(ints(self.harmonics@), self.transposition as int, amount as int),
            r.transposition == self.transposition,
            r.wf(),
    {
        let harmonics = rotate_pattern(&self.harmonics, self.transposition, amount);
        proof {
            assert(ints(harmonics@).len() == harmonics@.len());
        }
        MelodicMap { harmonics, transposition: self.transposition }
    }

    /// The values at the `L` indices after `amount`, less the value there,
    /// transposed to the value there.
    fn relative_rotate(&self, amount: i16) -> (r: MelodicMap)
        ensures
            ints(r.harmonics@) == rotated_pattern(ints(self.harmonics@), self.transposition as int, amount as int),
            r.transposition as int == eval_pattern(ints(self.harmonics@), self.transposition as int, amount as int),
            r.wf(),
    {
        let harmonics = rotate_pattern(&self.harmonics, self.transposition, amount);
        proof {
            assert(ints(harmonics@).len() == harmonics@.len());
        }
        let transposition = self.eval(amount);
        MelodicMap { harmonics, transposition }
    }
}

// ------------------------------------------------------------------
// Repeat
// ------------------------------------------------------------------

/// Repeating and stretching commute with reading values as integers.
proof fn lemma_ints_repeat_stretch(v: Seq<i16>, n: nat)
    ensures
        ints(repeat_seq(v, n)) == repeat_seq(ints(v), n),
        ints(stretch_seq(v, n)) == stretch_seq(ints(v), n),
{
    assert(ints(repeat_seq(v, n)) =~= repeat_seq(ints(v), n));
    assert forall|i: int| 0 <= i < stretch_seq(v, n).len() implies #[trigger] ints(stretch_seq(v, n))[i] == stretch_seq(ints(v), n)[i] by {
        lemma_fundamental_div_mod(i, n as int);
        lemma_mod_bound(i, n as int);
        lemma_div_pos_is_pos(i, n as int);
        lemma_mul_is_commutative(n as int, v.len() as int);
        assert(i / (n as int) < v.len()) by (nonlinear_arith)
            requires
                i == (n as int) * (i / (n as int)) + i % (n as int),
                0 <= i % (n as int),
                i < v.len() * n,
                n > 0,
        ;
    }
    assert(ints(stretch_seq(v, n)) =~= stretch_seq(ints(v), n));
}

impl Repeat for ChordShape {
    open spec fn repeat_defined(&self, n: usize) -> bool {
        self.wf() && self.intervals@.len() * n <= usize::MAX
    }

    fn repeat(&self, n: usize) -> (r: ChordShape)
        ensures
            r.intervals@ == repeat_seq(self.intervals@, n as nat),
            r.wf(),
    {
        proof {
            lemma_ints_repeat_stretch(self.intervals@, n as nat);
            lemma_repeat_stretch_positive(ints(self.intervals@), n as nat);
        }
        ChordShape { intervals: repeat_list(self.intervals.as_slice(), n) }
    }

    fn stretch(&self, n: usize) -> (r: ChordShape)
        ensures
            r.intervals@ == stretch_seq(self.intervals@, n as nat),
            r.wf(),
    {
        proof {
            lemma_ints_repeat_stretch(self.intervals@, n as nat);
            lemma_repeat_stretch_positive(ints(self.intervals@), n as nat);
        }
        ChordShape { intervals: stretch_list(self.intervals.as_slice(), n) }
    }
}

impl Repeat for ScaleShape {
    open spec fn repeat_defined(&self, n: usize) -> bool {
        &&& self.wf()
        &&& self.intervals@.len() * n <= usize::MAX
        &&& n * sum(ints(self.intervals@)) <= i16::MAX
    }

    fn repeat(&self, n: usize) -> (r: ScaleShape)
        ensures
            r.intervals@ == repeat_seq(self.intervals@, n as nat),
            sum(ints(r.intervals@)) == n * sum(ints(self.intervals@)),
            r.wf(),
    {
        proof {
            lemma_ints_repeat_stretch(self.intervals@, n as nat);
            lemma_repeat_stretch_positive(ints(self.intervals@), n as nat);
            lemma_sum_repeat(ints(self.intervals@), n as nat);
        }
        ScaleShape { intervals: repeat_list(self.intervals.as_slice(), n) }
    }

    fn stretch(&self, n: usize) -> (r: ScaleShape)
        ensures
            r.intervals@ == stretch_seq(self.intervals@, n as nat),
            sum(ints(r.intervals@)) == n * sum(ints(self.intervals@)),
            r.wf(),
    {
        proof {
            lemma_ints_repeat_stretch(self.intervals@, n as nat);
            lemma_repeat_stretch_positive(ints(self.intervals@), n as nat);
            lemma_sum_stretch(ints(self.intervals@), n as nat);
        }
        ScaleShape { intervals: stretch_list(self.intervals.as_slice(), n) }
    }
}

impl Repeat for Melody {
    open spec fn repeat_defined(&self, n: usize) -> bool {
        self.pitches@.len() * n <= usize::MAX
    }

    fn repeat(&self, n: usize) -> (r: Melody)
        ensures
            r.pitches@ == repeat_seq(self.pitches@, n as nat),
    {
        Melody { pitches: repeat_list(self.pitches.as_slice(), n) }
    }

    fn stretch(&self, n: usize) -> (r: Melody)
        ensures
            r.pitches@ == stretch_seq(self.pitches@, n as nat),
    {
        Melody { pitches: stretch_list(self.pitches.as_slice(), n) }
    }
}

impl Repeat for MelodyShape {
    open spec fn repeat_defined(&self, n: usize) -> bool {
        self.intervals@.len() * n <= usize::MAX
    }

    fn repeat(&self, n: usize) -> (r: MelodyShape)
        ensures
            r.intervals@ == repeat_seq(self.intervals@, n as nat),
    {
        MelodyShape { intervals: repeat_list(self.intervals.as_slice(), n) }
    }

    fn stretch(&self, n: usize) -> (r: MelodyShape)
        ensures
            r.intervals@ == stretch_seq(self.intervals@, n as nat),
    {
        MelodyShape { intervals: stretch_list(self.intervals.as_slice(), n) }
    }
}

impl Repeat for MelodyClass {
    open spec fn repeat_defined(&self, n: usize) -> bool {
        self.wf() && self.pitch_classes@.len() * n <= usize::MAX
    }

    fn repeat(&self, n: usize) -> (r: MelodyClass)
        ensures
            r.pitch_classes@ == repeat_seq(self.pitch_classes@, n as nat),
            r.modulus == self.modulus,
            r.wf(),
    {
        proof {
            lemma_ints_repeat_stretch(self.pitch_classes@, n as nat);
            lemma_repeat_stretch_residues(ints(self.pitch_classes@), n as nat, self.modulus as int);
        }
        MelodyClass { pitch_classes: repeat_list(self.pitch_classes.as_slice(), n), modulus: self.modulus }
    }

    fn stretch(&self, n: usize) -> (r: MelodyClass)
        ensures
            r.pitch_classes@ == stretch_seq(self.pitch_classes@, n as nat),
            r.modulus == self.modulus,
            r.wf(),
    {
        proof {
            lemma_ints_repeat_stretch(self.pitch_classes@, n as nat);
            lemma_repeat_stretch_residues(ints(self.pitch_classes@), n as nat, self.modulus as int);
        }
        MelodyClass { pitch_classes: stretch_list(self.pitch_classes.as_slice(), n), modulus: self.modulus }
    }
}

impl Repeat for MelodyClassShape {
    open spec fn repeat_defined(&self, n: usize) -> bool {
        self.wf() && self.interval_classes@.len() * n <= usize::MAX
    }

    fn repeat(&self, n: usize) -> (r: MelodyClassShape)
        ensures
            r.interval_classes@ == repeat_seq(self.interval_classes@, n as nat),
            r.modulus == self.modulus,
            r.wf(),
    {
        proof {
            lemma_ints_repeat_stretch(self.interval_classes@, n as nat);
            lemma_repeat_stretch_residues(ints(self.interval_classes@), n as nat, self.modulus as int);
        }
        MelodyClassShape { interval_classes: repeat_list(self.interval_classes.as_slice(), n), modulus: self.modulus }
    }

    fn stretch(&self, n: usize) -> (r: MelodyClassShape)
        ensures
            r.interval_classes@ == stretch_seq(self.interval_classes@, n as nat),
            r.modulus == self.modulus,
            r.wf(),
    {
        proof {
            lemma_ints_repeat_stretch(self.interval_classes@, n as nat);
            lemma_repeat_stretch_residues(ints(self.interval_classes@), n as nat, self.modulus as int);
        }
        MelodyClassShape { interval_classes: stretch_list(self.interval_classes.as_slice(), n), modulus: self.modulus }
    }
}

impl Repeat for PitchCycle {
    open spec fn repeat_defined(&self, n: usize) -> bool {
        self.pitches@.len() * n <= usize::MAX
    }

    fn repeat(&self, n: usize) -> (r: PitchCycle)
        ensures
            r.pitches@ == repeat_seq(self.pitches@, n as nat),
    {
        PitchCycle { pitches: repeat_list(self.pitches.as_slice(), n) }
    }

    fn stretch(&self, n: usize) -> (r: PitchCycle)
        ensures
            r.pitches@ == stretch_seq(self.pitches@, n as nat),
    {
        PitchCycle { pitches: stretch_list(self.pitches.as_slice(), n) }
    }
}

impl Repeat for IntervalCycle {
    open spec fn repeat_defined(&self, n: usize) -> bool {
        self.intervals@.len() * n <= usize::MAX
    }

    fn repeat(&self, n: usize) -> (r: IntervalCycle)
        ensures
            r.intervals@ == repeat_seq(self.intervals@, n as nat),
    {
        IntervalCycle { intervals: repeat_list(self.intervals.as_slice(), n) }
    }

    fn stretch(&self, n: usize) -> (r: IntervalCycle)
        ensures
            r.intervals@ == stretch_seq(self.intervals@, n as nat),
    {
        IntervalCycle { intervals: stretch_list(self.intervals.as_slice(), n) }
    }
}

impl Repeat for PitchClassCycle {
    open spec fn repeat_defined(&self, n: usize) -> bool {
        self.wf() && self.pitch_classes@.len() * n <= usize::MAX
    }

    fn repeat(&self, n: usize) -> (r: PitchClassCycle)
        ensures
            r.pitch_classes@ == repeat_seq(self.pitch_classes@, n as nat),
            r.modulus == self.modulus,
            r.wf(),
    {
        proof {
            lemma_ints_repeat_stretch(self.pitch_classes@, n as nat);
            lemma_repeat_stretch_residues(ints(self.pitch_classes@), n as nat, self.modulus as int);
        }
        PitchClassCycle { pitch_classes: repeat_list(self.pitch_classes.as_slice(), n), modulus: self.modulus }
    }

    fn stretch(&self, n: usize) -> (r: PitchClassCycle)
        ensures
            r.pitch_classes@ == stretch_seq(self.pitch_classes@, n as nat),
            r.modulus == self.modulus,
            r.wf(),
    {
        proof {
            lemma_ints_repeat_stretch(self.pitch_classes@, n as nat);
            lemma_repeat_stretch_residues(ints(self.pitch_classes@), n as nat, self.modulus as int);
        }
        PitchClassCycle { pitch_classes: stretch_list(self.pitch_classes.as_slice(), n), modulus: self.modulus }
    }
}

impl Repeat for IntervalClassCycle {
    open spec fn repeat_defined(&self, n: usize) -> bool {
        self.wf() && self.interval_classes@.len() * n <= usize::MAX
    }

    fn repeat(&self, n: usize) -> (r: IntervalClassCycle)
        ensures
            r.interval_classes@ == repeat_seq(self.interval_classes@, n as nat),
            r.modulus == self.modulus,
            r.wf(),
    {
        proof {
            lemma_ints_repeat_stretch(self.interval_classes@, n as nat);
            lemma_repeat_stretch_residues(ints(self.interval_classes@), n as nat, self.modulus as int);
        }
        IntervalClassCycle { interval_classes: repeat_list(self.interval_classes.as_slice(), n), modulus: self.modulus }
    }

    fn stretch(&self, n: usize) -> (r: IntervalClassCycle)
        ensures
            r.interval_classes@ == stretch_seq(self.interval_classes@, n as nat),
            r.modulus == self.modulus,
            r.wf(),
    {
        proof {
            lemma_ints_repeat_stretch(self.interval_classes@, n as nat);
            lemma_repeat_stretch_residues(ints(self.interval_classes@), n as nat, self.modulus as int);
        }
        IntervalClassCycle { interval_classes: stretch_list(self.interval_classes.as_slice(), n), modulus: self.modulus }
    }
}

impl Repeat for Scale {
    open spec fn repeat_defined(&self, n: usize) -> bool {
        &&& self.wf()
        &&& self.pitch_classes@.len() > 0
        &&& 1 <= n
        &&& self.pitch_classes@.len() * n <= usize::MAX
        &&& n * self.modulus <= i16::MAX
    }

    /// The shape repeated `n` times, stamped from the first pitch class: the
    /// same pitch-class pattern over `n` times the modulus.
    fn repeat(&self, n: usize) -> (r: Scale)
        ensures
            ints(r.pitch_classes@) == stamp_cyclic(repeat_seq(self.shape_view(), n as nat), self.pitch_classes@[0] as int),
            r.modulus == n * self.modulus,
            r.wf(),
    {
        let shape = self.shape();
        proof {
            lemma_scale_shape(ints(self.pitch_classes@), self.modulus as int);
            lemma_ints_repeat_stretch(shape.intervals@, n as nat);
            assert(0 <= ints(self.pitch_classes@)[0] < self.modulus);
            assert(self.pitch_classes@[0] < n * self.modulus) by (nonlinear_arith)
                requires
                    self.pitch_classes@[0] < self.modulus,
                    0 < self.modulus,
                    1 <= n,
            ;
            assert(shape.intervals@.len() * n > 0) by (nonlinear_arith)
                requires
                    shape.intervals@.len() > 0,
                    1 <= n,
            ;
        }
        let repeated = shape.repeat(n);
        repeated.stamp(self.pitch_classes[0])
    }

    /// Each interval of the shape `n` times over, stamped from the first
    /// pitch class.
    fn stretch(&self, n: usize) -> (r: Scale)
        ensures
            ints(r.pitch_classes@) == stamp_cyclic(stretch_seq(self.shape_view(), n as nat), self.pitch_classes@[0] as int),
            r.modulus == n * self.modulus,
            r.wf(),
    {
        let shape = self.shape();
        proof {
            lemma_scale_shape(ints(self.pitch_classes@), self.modulus as int);
            lemma_ints_repeat_stretch(shape.intervals@, n as nat);
            assert(0 <= ints(self.pitch_classes@)[0] < self.modulus);
            assert(self.pitch_classes@[0] < n * self.modulus) by (nonlinear_arith)
                requires
                    self.pitch_classes@[0] < self.modulus,
                    0 < self.modulus,
                    1 <= n,
            ;
            assert(shape.intervals@.len() * n > 0) by (nonlinear_arith)
                requires
                    shape.intervals@.len() > 0,
                    1 <= n,
            ;
        }
        let stretched = shape.stretch(n);
        stretched.stamp(self.pitch_classes[0])
    }
}

impl Repeat for ScaleMap {
    open spec fn repeat_defined(&self, n: usize) -> bool {
        &&& self.wf()
        &&& 1 <= n
        &&& self.harmonics@.len() * n <= usize::MAX
        &&& n * self.harmonics@.last() <= i16::MAX
    }

    /// The shape repeated `n` times, stamped back into a map with the same
    /// transposition.
    fn repeat(&self, n: usize) -> (r: ScaleMap)
        ensures
            ints(r.harmonics@) == running_sums(repeat_seq(diffs(seq![0int] + ints(self.harmonics@)), n as nat)),
            r.transposition == self.transposition,
            r.wf(),
    {
        let shape = self.shape();
        proof {
            lemma_pattern_shape(ints(self.harmonics@));
            lemma_ints_repeat_stretch(shape.intervals@, n as nat);
            assert(shape.intervals@.len() * n > 0) by (nonlinear_arith)
                requires
                    shape.intervals@.len() > 0,
                    1 <= n,
            ;
        }
        let repeated = shape.repeat(n);
        repeated.stamp_to_scale_map(self.transposition)
    }

    /// Each interval of the shape `n` times over, stamped back into a map
    /// with the same transposition.
    fn stretch(&self, n: usize) -> (r: ScaleMap)
        ensures
            ints(r.harmonics@) == running_sums(stretch_seq(diffs(seq![0int] + ints(self.harmonics@)), n as nat)),
            r.transposition == self.transposition,
            r.wf(),
    {
        let shape = self.shape();
        proof {
            lemma_pattern_shape(ints(self.harmonics@));
            lemma_ints_repeat_stretch(shape.intervals@, n as nat);
            assert(shape.intervals@.len() * n > 0) by (nonlinear_arith)
                requires
                    shape.intervals@.len() > 0,
                    1 <= n,
            ;
        }
        let stretched = shape.stretch(n);
        stretched.stamp_to_scale_map(self.transposition)
    }
}

impl Repeat for ScaleKey {
    open spec fn repeat_defined(&self, n: usize) -> bool {
        &&& self.wf()
        &&& 1 <= n
        &&& self.pitch_classes@.len() * n <= usize::MAX
        &&& n * self.modulus <= i16::MAX
    }

    /// The shape repeated `n` times, stamped as a key onto the root.
    fn repeat(&self, n: usize) -> (r: ScaleKey)
        ensures
            ints(r.pitch_classes@) == stamp_key(
                repeat_seq(residue_shape(ints(self.pitch_classes@), self.modulus as int), n as nat),
                self.pitch_classes@[0] as int,
            ),
            r.modulus == n * self.modulus,
            r.wf(),
    {
        let shape = self.shape();
        proof {
            lemma_ints_repeat_stretch(shape.intervals@, n as nat);
            assert(0 <= ints(self.pitch_classes@)[0] < self.modulus);
            assert(self.pitch_classes@[0] < n * self.modulus) by (nonlinear_arith)
                requires
                    self.pitch_classes@[0] < self.modulus,
                    0 < self.modulus,
                    1 <= n,
            ;
            assert(shape.intervals@.len() * n > 0) by (nonlinear_arith)
                requires
                    shape.intervals@.len() > 0,
                    1 <= n,
            ;
        }
        let repeated = shape.repeat(n);
        repeated.stamp_to_scale_key(self.root())
    }

    /// Each interval of the shape `n` times over, stamped as a key onto the root.
    fn stretch(&self, n: usize) -> (r: ScaleKey)
        ensures
            ints(r.pitch_classes@) == stamp_key(
                stretch_seq(residue_shape(ints(self.pitch_classes@), self.modulus as int), n as nat),
                self.pitch_classes@[0] as int,
            ),
            r.modulus == n * self.modulus,
            r.wf(),
    {
        let shape = self.shape();
        proof {
            lemma_ints_repeat_stretch(shape.intervals@, n as nat);
            assert(0 <= ints(self.pitch_classes@)[0] < self.modulus);
            assert(self.pitch_classes@[0] < n * self.modulus) by (nonlinear_arith)
                requires
                    self.pitch_classes@[0] < self.modulus,
                    0 < self.modulus,
                    1 <= n,
            ;
            assert(shape.intervals@.len() * n > 0) by (nonlinear_arith)
                requires
                    shape.intervals@.len() > 0,
                    1 <= n,
            ;
        }
        let stretched = shape.stretch(n);
        stretched.stamp_to_scale_key(self.root())
    }
}

impl Repeat for MelodicMap {
    open spec fn repeat_defined(&self, n: usize) -> bool {
        let d = diffs(seq![0int] + ints(self.harmonics@));
        &&& self.wf()
        &&& fits_i16(d)
        &&& 1 <= n
        &&& self.harmonics@.len() * n <= usize::MAX
        &&& fits_i16(running_sums(repeat_seq(d, n as nat)))
        &&& fits_i16(running_sums(stretch_seq(d, n as nat)))
    }

    /// The shape repeated `n` times, stamped back into a map with the same
    /// transposition.
    fn repeat(&self, n: usize) -> (r: MelodicMap)
        ensures
            ints(r.harmonics@) == running_sums(repeat_seq(diffs(seq![0int] + ints(self.harmonics@)), n as nat)),
            r.transposition == self.transposition,
            r.wf(),
    {
        let shape = self.shape();
        proof {
            lemma_ints_repeat_stretch(shape.intervals@, n as nat);
            assert(shape.intervals@.len() == self.harmonics@.len());
            assert(shape.intervals@.len() * n > 0) by (nonlinear_arith)
                requires
                    shape.intervals@.len() > 0,
                    1 <= n,
            ;
        }
        let repeated = shape.repeat(n);
        repeated.stamp(self.transposition)
    }

    /// Each interval of the shape `n` times over, stamped back into a map
    /// with the same transposition.
    fn stretch(&self, n: usize) -> (r: MelodicMap)
        ensures
            ints(r.harmonics@) == running_sums(stretch_seq(diffs(seq![0int] + ints(self.harmonics@)), n as nat)),
            r.transposition == self.transposition,
            r.wf(),
    {
        let shape = self.shape();
        proof {
            lemma_ints_repeat_stretch(shape.intervals@, n as nat);
            assert(shape.intervals@.len() == self.harmonics@.len());
            assert(shape.intervals@.len() * n > 0) by (nonlinear_arith)
                requires
                    shape.intervals@.len() > 0,
                    1 <= n,
            ;
        }
        let stretched = shape.stretch(n);
        stretched.stamp(self.transposition)
    }
}

// ------------------------------------------------------------------
// Transpose
// ------------------------------------------------------------------

impl Transpose for Chord {
    open spec fn transpose_defined(&self, amount: i16) -> bool {
        self.wf() && fits_i16(shift(ints(self.pitches@), amount as int))
    }

    /// Every pitch moved by `amount`.
    fn transpose(&self, amount: i16) -> (r: Chord)
        ensures
            ints(r.pitches@) == shift(ints(self.pitches@), amount as int),
            r.wf(),
    {
        Chord { pitches: shifted(&self.pitches, amount) }
    }
}

impl Transpose for Scale {
    open spec fn transpose_defined(&self, amount: i16) -> bool {
        self.wf()
    }

    /// Every pitch class moved by `amount` modulo the modulus, listed in
    /// ascending order.
    fn transpose(&self, amount: i16) -> (r: Scale)
        ensures
            ints(r.pitch_classes@) == transposed_set(ints(self.pitch_classes@), amount as int, self.modulus as int),
            r.modulus == self.modulus,
            r.wf(),
    {
        let m = self.modulus;
        let t = rem_euclid_i16(amount, m);
        let n = self.pitch_classes.len();
        let moved = shifted_reduced(&self.pitch_classes, t, m);
        let p = count_shifted_below(&self.pitch_classes, t, m);
        let ghost v = shift(ints(self.pitch_classes@), t as int);
        if n == 0 {
            proof {
                assert(ints(moved@) =~= ascending_residues(v, m as int));
            }
            return Scale { pitch_classes: moved, modulus: m };
        }
        let k = if p == n {
            0
        } else {
            p
        };
        proof {
            assert(ints(moved@).len() == moved@.len());
        }
        let pitch_classes = rotated(&moved, k);
        proof {
            let c = ints(self.pitch_classes@);
            assert(0 <= c[0]);
            assert(c[n - 1] < m);
            assert(ascending(v)) by {
                assert forall|a: int, b: int| 0 <= a < b < v.len() implies v[a] < v[b] by {
                    assert(c[a] < c[b]);
                }
            }
            if n > 1 {
                assert(c[0] < c[n - 1]);
            }
            lemma_ascending_residues(v, m as int);
            lemma_ints_rotate(moved@, k as int);
            lemma_mod_self_0(n as int);
            lemma_small_mod(k as nat, n as nat);
        }
        Scale { pitch_classes, modulus: m }
    }
}

impl Transpose for ScaleMap {
    open spec fn transpose_defined(&self, amount: i16) -> bool {
        i16::MIN <= self.transposition + amount <= i16::MAX
    }

    /// The same harmonics with the transposition moved by `amount`.
    fn transpose(&self, amount: i16) -> (r: ScaleMap)
        ensures
            r.harmonics@ == self.harmonics@,
            r.transposition == self.transposition + amount,
            self.wf() ==> r.wf(),
    {
        ScaleMap { harmonics: self.harmonics.clone(), transposition: self.transposition + amount }
    }
}

impl Transpose for ScaleKey {
    open spec fn transpose_defined(&self, amount: i16) -> bool {
        self.wf()
    }

    /// Every pitch class (the root first) moved by `amount` modulo the modulus.
    fn transpose(&self, amount: i16) -> (r: ScaleKey)
        ensures
            ints(r.pitch_classes@) == reduce(shift(ints(self.pitch_classes@), amount as int), self.modulus as int),
            r.modulus == self.modulus,
            r.wf(),
    {
        proof {
            lemma_residue_shape_shift(ints(self.pitch_classes@), amount as int, self.modulus as int);
        }
        let pitch_classes = shifted_reduced(&self.pitch_classes, amount, self.modulus);
        proof {
            assert(ints(pitch_classes@).len() == pitch_classes@.len());
        }
        ScaleKey { pitch_classes, modulus: self.modulus }
    }
}

impl Transpose for Melody {
    open spec fn transpose_defined(&self, amount: i16) -> bool {
        fits_i16(shift(ints(self.pitches@), amount as int))
    }

    /// Every pitch moved by `amount`.
    fn transpose(&self, amount: i16) -> (r: Melody)
        ensures
            ints(r.pitches@) == shift(ints(self.pitches@), amount as int),
    {
        Melody { pitches: shifted(&self.pitches, amount) }
    }
}

impl Transpose for MelodyClass {
    open spec fn transpose_defined(&self, amount: i16) -> bool {
        self.wf()
    }

    /// Every pitch class moved by `amount` modulo the modulus.
    fn transpose(&self, amount: i16) -> (r: MelodyClass)
        ensures
            ints(r.pitch_classes@) == reduce(shift(ints(self.pitch_classes@), amount as int), self.modulus as int),
            r.modulus == self.modulus,
            r.wf(),
    {
        proof {
            lemma_reduce_residues(shift(ints(self.pitch_classes@), amount as int), self.modulus as int);
        }
        MelodyClass { pitch_classes: shifted_reduced(&self.pitch_classes, amount, self.modulus), modulus: self.modulus }
    }
}

impl Transpose for MelodicMap {
    open spec fn transpose_defined(&self, amount: i16) -> bool {
        i16::MIN <= self.transposition + amount <= i16::MAX
    }

    /// The same harmonics with the transposition moved by `amount`.
    fn transpose(&self, amount: i16) -> (r: MelodicMap)
        ensures
            r.harmonics@ == self.harmonics@,
            r.transposition == self.transposition + amount,
            self.wf() ==> r.wf(),
    {
        MelodicMap { harmonics: self.harmonics.clone(), transposition: self.transposition + amount }
    }
}

impl Transpose for PitchCycle {
    open spec fn transpose_defined(&self, amount: i16) -> bool {
        fits_i16(shift(ints(self.pitches@), amount as int))
    }

    /// Every pitch moved by `amount`.
    fn transpose(&self, amount: i16) -> (r: PitchCycle)
        ensures
            ints(r.pitches@) == shift(ints(self.pitches@), amount as int),
    {
        PitchCycle { pitches: shifted(&self.pitches, amount) }
    }
}

impl Transpose for PitchClassCycle {
    open spec fn transpose_defined(&self, amount: i16) -> bool {
        self.wf()
    }

    /// Every pitch class moved by `amount` modulo the modulus.
    fn transpose(&self, amount: i16) -> (r: PitchClassCycle)
        ensures
            ints(r.pitch_classes@) == reduce(shift(ints(self.pitch_classes@), amount as int), self.modulus as int),
            r.modulus == self.modulus,
            r.wf(),
    {
        proof {
            lemma_reduce_residues(shift(ints(self.pitch_classes@), amount as int), self.modulus as int);
        }
        PitchClassCycle { pitch_classes: shifted_reduced(&self.pitch_classes, amount, self.modulus), modulus: self.modulus }
    }
}

} // verus!
