//! Scales: residue sets, indexed residue sets (keys), scale maps and the
//! cyclic shapes that connect them.
use crate::algebra::{
    all_positive, ascending, ints, lemma_ints_rotate, lemma_rotate_index, lemma_residue_shape_of_rotation, lemma_scale_shape,
    residue_shape, residues, rotate_left, sum,
};
use crate::utility::cyclically_order_vector;
use vstd::arithmetic::div_mod::lemma_small_mod;
use vstd::prelude::*;

verus! {

/// A set of pitch classes modulo `modulus`, listed in strictly ascending order.
#[derive(PartialEq, Debug)]
pub struct Scale {
    pub pitch_classes: Vec<i16>,
    pub modulus: i16,
}

/// A patterned mapping from indices to pitches: positive, strictly ascending
/// harmonics (with an implicit leading zero) whose last entry is the period,
/// plus a transposition.
#[derive(PartialEq, Debug)]
pub struct ScaleMap {
    pub harmonics: Vec<i16>,
    pub transposition: i16,
}

/// A set of pitch classes modulo `modulus` listed in cyclic order from its
/// root, which comes first.
#[derive(PartialEq, Debug)]
pub struct ScaleKey {
    pub pitch_classes: Vec<i16>,
    pub modulus: i16,
}

/// The cyclic shape of a scale: positive intervals between cyclically
/// adjacent pitch classes; their sum is the modulus.
#[derive(PartialEq, Debug)]
pub struct ScaleShape {
    pub intervals: Vec<i16>,
}

/// A set of pitch classes.
pub type PitchClassSet = Scale;

/// A patterned mapping from indices to pitches.
pub type PitchScaleMap = ScaleMap;

/// An indexed set of pitch classes.
pub type PitchScaleKey = ScaleKey;

/// The shape of a scale.
pub type PitchScaleShape = ScaleShape;

/// A residue set: positive modulus, residues in strictly ascending order.
pub open spec fn scale_wf(pcs: Seq<int>, m: int) -> bool {
    0 < m && residues(pcs, m) && ascending(pcs)
}

/// A key: a non-empty residue list whose cyclic shape is positive and winds
/// once around the modulus, so that it ascends cyclically from its root.
pub open spec fn key_wf(pcs: Seq<int>, m: int) -> bool {
    &&& 0 < m
    &&& pcs.len() > 0
    &&& residues(pcs, m)
    &&& all_positive(residue_shape(pcs, m))
    &&& sum(residue_shape(pcs, m)) == m
}

/// A harmonic pattern: non-empty, positive and strictly ascending.
pub open spec fn map_wf(h: Seq<int>) -> bool {
    h.len() > 0 && 0 < h[0] && ascending(h)
}

/// A scale shape: positive intervals whose sum fits in `i16`.
pub open spec fn shape_wf(d: Seq<int>) -> bool {
    all_positive(d) && sum(d) <= i16::MAX
}

/// Rotating a residue set gives a key.
proof fn lemma_key_of_scale(pcs: Seq<i16>, m: int, k: int)
    requires
        scale_wf(ints(pcs), m),
        0 <= k < pcs.len(),
    ensures
        key_wf(ints(rotate_left(pcs, k)), m),
        rotate_left(pcs, k)[0] == pcs[k],
{
    lemma_rotate_index(pcs, k, 0);
    lemma_small_mod(k as nat, pcs.len());
    lemma_ints_rotate(pcs, k);
    lemma_scale_shape(ints(pcs), m);
    lemma_residue_shape_of_rotation(ints(pcs), m, k);
}

impl Scale {
    pub open spec fn wf(&self) -> bool {
        scale_wf(ints(self.pitch_classes@), self.modulus as int)
    }

    pub fn new(pitch_classes: Vec<i16>, modulus: i16) -> (r: Self)
        requires
            scale_wf(ints(pitch_classes@), modulus as int),
        ensures
            r.pitch_classes@ == pitch_classes@,
            r.modulus == modulus,
            r.wf(),
    {
        Self { pitch_classes, modulus }
    }
}

impl ScaleMap {
    pub open spec fn wf(&self) -> bool {
        map_wf(ints(self.harmonics@))
    }

    pub fn new(harmonics: Vec<i16>, transposition: i16) -> (r: Self)
        requires
            map_wf(ints(harmonics@)),
        ensures
            r.harmonics@ == harmonics@,
            r.transposition == transposition,
            r.wf(),
    {
        Self { harmonics, transposition }
    }
}

impl ScaleKey {
    pub open spec fn wf(&self) -> bool {
        key_wf(ints(self.pitch_classes@), self.modulus as int)
    }

    /// Builds the key of a residue set with the given root: the residues in
    /// cyclic order starting from the root.
    pub fn new(pitch_classes: Vec<i16>, modulus: i16, root: i16) -> (r: Self)
        requires
            scale_wf(ints(pitch_classes@), modulus as int),
            pitch_classes@.contains(root),
        ensures
            r.modulus == modulus,
            r.wf(),
            r.pitch_classes@[0] == root,
            exists|k: int|
                0 <= k < pitch_classes@.len() && pitch_classes@[k] == root && r.pitch_classes@
                    == rotate_left(pitch_classes@, k),
    {
        let ordered = cyclically_order_vector(pitch_classes.as_slice(), root);
        proof {
            let k = choose|k: int|
                #![trigger pitch_classes@[k]]
                0 <= k < pitch_classes@.len() && pitch_classes@[k] == root && (forall|j: int|
                    0 <= j < k ==> pitch_classes@[j] != root) && ordered@ == rotate_left(
                    pitch_classes@,
                    k,
                );
            lemma_key_of_scale(pitch_classes@, modulus as int, k);
        }
        Self { pitch_classes: ordered, modulus }
    }
}

impl ScaleShape {
    pub open spec fn wf(&self) -> bool {
        shape_wf(ints(self.intervals@))
    }

    pub fn new(intervals: Vec<i16>) -> (r: Self)
        requires
            shape_wf(ints(intervals@)),
        ensures
            r.intervals@ == intervals@,
            r.wf(),
    {
        Self { intervals }
    }
}

} // verus!
