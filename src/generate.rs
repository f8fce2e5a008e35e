//! Generation of music-theoretical objects: composition of scale maps and
//! the search for scale chords near a given chord.
use crate::algebra::{ascending, eval_pattern, harmonic_at, fits_i16, gcd, ints, lemma_eval_monotone};
use crate::analyze::{Eval, HasPitch, Len, Modulus};
use crate::chord::Chord;
use crate::scale::{Scale, ScaleMap};
use itertools::Itertools;
use vstd::prelude::*;

verus! {

/// Relies on `num::integer::gcd`: for positive arguments, their greatest
/// common divisor (Stein's algorithm).
#[verifier::external_body]
fn gcd_of(a: i16, b: i16) -> (r: i16)
    requires
        0 < a,
        0 < b,
    ensures
        r as int == gcd(a as int, b as int),
{
    num::integer::gcd(a, b)
}

/// The greatest common divisor of positive integers is positive.
proof fn lemma_gcd_positive(a: int, b: int)
    requires
        0 < a,
        0 <= b,
    ensures
        0 < gcd(a, b),
    decreases b,
{
    if b > 0 {
        vstd::arithmetic::div_mod::lemma_mod_bound(a, b);
        lemma_gcd_positive(b, a % b);
    }
}

/// The number of harmonics of the composite of two maps: the product of
/// their lengths over the greatest common divisor of their moduli.
pub open spec fn composite_period(a: Seq<int>, b: Seq<int>) -> int {
    (a.len() * b.len()) as int / gcd(a.last(), b.last())
}

/// The harmonics of the composite map `b` after `a`: the values of the
/// composite at indices `1..=period`, less its value at `0`.
pub open spec fn composite_pattern(a: Seq<int>, ta: int, b: Seq<int>, tb: int) -> Seq<int> {
    Seq::new(
        composite_period(a, b) as nat,
        |i: int| eval_pattern(b, tb, eval_pattern(a, ta, i + 1)) - eval_pattern(b, tb, ta),
    )
}

impl ScaleMap {
    /// Every value the composite computes fits in `i16`.
    pub open spec fn composable(&self, other: &ScaleMap) -> bool {
        let a = ints(self.harmonics@);
        let b = ints(other.harmonics@);
        &&& self.wf()
        &&& other.wf()
        &&& self.harmonics@.len() * other.harmonics@.len() <= i16::MAX
        &&& i16::MIN <= eval_pattern(b, other.transposition as int, self.transposition as int)
            <= i16::MAX
        &&& forall|i: int|
            1 <= i <= composite_period(a, b) ==> i16::MIN <= #[trigger] eval_pattern(
                a,
                self.transposition as int,
                i,
            ) <= i16::MAX && i16::MIN <= eval_pattern(
                b,
                other.transposition as int,
                eval_pattern(a, self.transposition as int, i),
            ) <= i16::MAX
        &&& fits_i16(
            composite_pattern(a, self.transposition as int, b, other.transposition as int),
        )
    }

    /// Composes two scale maps: `other` applied after `self`, re-based so
    /// that the composite's transposition is `other` at `self`'s transposition.
    pub fn compose(&self, other: &Self) -> (r: Self)
        requires
            self.composable(other),
        ensures
            ints(r.harmonics@) == composite_pattern(
                ints(self.harmonics@),
                self.transposition as int,
                ints(other.harmonics@),
                other.transposition as int,
            ),
            r.transposition as int == eval_pattern(
                ints(other.harmonics@),
                other.transposition as int,
                self.transposition as int,
            ),
            ascending(ints(r.harmonics@)),
            r.harmonics@.len() > 0 ==> r.wf(),
    {
        let ghost a = ints(self.harmonics@);
        let ghost b = ints(other.harmonics@);
        let ghost target = composite_pattern(a, self.transposition as int, b, other.transposition as int);
        let new_t = other.eval(self.transposition);
        let ma = self.modulus();
        let mb = other.modulus();
        proof {
            assert(0 < a[0] <= a.last()) by {
                if a.len() > 1 {
                    assert(a[0] < a[a.len() - 1]);
                }
            }
            assert(0 < b[0] <= b.last()) by {
                if b.len() > 1 {
                    assert(b[0] < b[b.len() - 1]);
                }
            }
            lemma_gcd_positive(ma as int, mb as int);
        }
        let g = gcd_of(ma, mb);
        let period = ((self.len() * other.len()) as i16) / g;
        let mut pattern: Vec<i16> = Vec::new();
        let mut i: i32 = 1;
        while i <= period as i32
            invariant
                1 <= i <= period + 1,
                period as int == composite_period(a, b),
                period <= i16::MAX,
                a == ints(self.harmonics@),
                b == ints(other.harmonics@),
                self.composable(other),
                new_t as int == eval_pattern(b, other.transposition as int, self.transposition as int),
                target == composite_pattern(a, self.transposition as int, b, other.transposition as int),
                pattern@.len() == i - 1,
                forall|k: int| 0 <= k < i - 1 ==> pattern@[k] as int == #[trigger] target[k],
            decreases period + 1 - i,
        {
            let x = self.eval(i as i16);
            let y = other.eval(x);
            proof {
                assert(target[i - 1] == y - new_t);
            }
            pattern.push(y - new_t);
            i += 1;
        }
        proof {
            assert(ints(pattern@) =~= target);
            assert(self.harmonics@.len() * other.harmonics@.len() > 0) by (nonlinear_arith)
                requires
                    self.harmonics@.len() > 0,
                    other.harmonics@.len() > 0,
            ;
            lemma_composite_wf(a, self.transposition as int, b, other.transposition as int);
        }
        ScaleMap { harmonics: pattern, transposition: new_t }
    }
}

/// The composite of two positive ascending patterns is strictly increasing,
/// so its pattern is positive and ascending.
proof fn lemma_composite_wf(a: Seq<int>, ta: int, b: Seq<int>, tb: int)
    requires
        a.len() > 0,
        0 < a[0],
        ascending(a),
        b.len() > 0,
        0 < b[0],
        ascending(b),
    ensures
        ascending(composite_pattern(a, ta, b, tb)),
        composite_pattern(a, ta, b, tb).len() > 0 ==> 0 < composite_pattern(a, ta, b, tb)[0],
{
    let p = composite_pattern(a, ta, b, tb);
    assert forall|i: int, j: int| 0 <= i < j < p.len() implies p[i] < p[j] by {
        lemma_eval_monotone(a, ta, i + 1, j + 1);
        lemma_eval_monotone(b, tb, eval_pattern(a, ta, i + 1), eval_pattern(a, ta, j + 1));
    }
    if p.len() > 0 {
        let l = a.len() as int;
        vstd::arithmetic::div_mod::lemma_fundamental_div_mod_converse(0, l, 0, 0);
        assert(0int / l == 0);
        assert(0int % l == 0);
        assert(harmonic_at(a, 0) == 0);
        assert(eval_pattern(a, ta, 0) == ta);
        lemma_eval_monotone(a, ta, 0, 1);
        lemma_eval_monotone(b, tb, ta, eval_pattern(a, ta, 1));
    }
}

// ------------------------------------------------------------------
// Search
// ------------------------------------------------------------------

/// The values `lo`, `lo + 1`, ..., `lo + count - 1`, in order, whose class
/// modulo `m` is among `pcs`.
pub open spec fn nearby_in_scale(pcs: Seq<int>, m: int, lo: int, count: nat) -> Seq<int>
    decreases count,
{
    if count == 0 {
        Seq::empty()
    } else {
        let prev = nearby_in_scale(pcs, m, lo, (count - 1) as nat);
        if pcs.contains((lo + count - 1) % m) {
            prev.push(lo + count - 1)
        } else {
            prev
        }
    }
}

/// For each pitch, the scale's pitches within `proximity` of it, ascending.
pub open spec fn candidates(pitches: Seq<i16>, pcs: Seq<int>, m: int, proximity: int) -> Seq<Seq<i16>> {
    Seq::new(
        pitches.len(),
        |i: int|
            nearby_in_scale(
                pcs,
                m,
                pitches[i] - proximity,
                if proximity < 0 {
                    0
                } else {
                    (2 * proximity + 1) as nat
                },
            ).map_values(|x: int| x as i16),
    )
}

/// All ways of picking one element from each list in turn, in
/// lexicographic order (the last pick varies fastest).
pub open spec fn picks(lists: Seq<Seq<i16>>) -> Seq<Seq<i16>>
    decreases lists.len(),
{
    if lists.len() == 0 {
        seq![Seq::empty()]
    } else {
        let rest = picks(lists.drop_first());
        lists[0].map_values(|x: i16| rest.map_values(|t: Seq<i16>| seq![x] + t)).flatten()
    }
}

/// The cartesian product of a list of lists, which is empty for no lists.
pub open spec fn cartesian(lists: Seq<Seq<i16>>) -> Seq<Seq<i16>> {
    if lists.len() == 0 {
        Seq::empty()
    } else {
        picks(lists)
    }
}

/// The views of a list of vectors.
pub open spec fn views(v: Seq<Vec<i16>>) -> Seq<Seq<i16>> {
    v.map_values(|x: Vec<i16>| x@)
}

/// Relies on `itertools::Itertools::multi_cartesian_product`: every choice
/// of one element from each list, in lexicographic order; nothing for no lists.
#[verifier::external_body]
fn cartesian_product(lists: Vec<Vec<i16>>) -> (r: Vec<Vec<i16>>)
    ensures
        views(r@) == cartesian(views(lists@)),
{
    lists.into_iter().multi_cartesian_product().collect()
}

/// The scale's pitches within `proximity` of `pitch`, ascending.
fn pitches_near(scale: &Scale, pitch: i16, proximity: i16) -> (r: Vec<i16>)
    requires
        scale.wf(),
        i16::MIN <= pitch - proximity,
        pitch + proximity <= i16::MAX,
    ensures
        ints(r@) == nearby_in_scale(
            ints(scale.pitch_classes@),
            scale.modulus as int,
            pitch - proximity,
            if proximity < 0 {
                0
            } else {
                (2 * proximity + 1) as nat
            },
        ),
{
    let mut out: Vec<i16> = Vec::new();
    if proximity < 0 {
        proof {
            assert(ints(out@) =~= Seq::<int>::empty());
        }
        return out;
    }
    let lo: i32 = pitch as i32 - proximity as i32;
    let mut k: i32 = 0;
    while k <= 2 * proximity as i32
        invariant
            0 <= proximity,
            0 <= k <= 2 * proximity + 1,
            lo == pitch - proximity,
            scale.wf(),
            i16::MIN <= pitch - proximity,
            pitch + proximity <= i16::MAX,
            ints(out@) == nearby_in_scale(ints(scale.pitch_classes@), scale.modulus as int, lo as int, k as nat),
        decreases 2 * proximity + 1 - k,
    {
        let x = (lo + k) as i16;
        if scale.has_pitch(x) {
            proof {
                assert(ints(out@.push(x)) =~= ints(out@).push(x as int));
            }
            out.push(x);
        }
        k += 1;
    }
    out
}

/// The chords of the scale's pitches that lie, pitch by pitch, within
/// `proximity` of the chord's pitches: every choice of one nearby scale
/// pitch for each chord pitch, in lexicographic order.
pub fn scale_chords_in_proximity(chord: Chord, scale: Scale, proximity: i16) -> (r: Vec<Chord>)
    requires
        scale.wf(),
        forall|i: int|
            0 <= i < chord.pitches@.len() ==> i16::MIN <= #[trigger] chord.pitches@[i] - proximity
                && chord.pitches@[i] + proximity <= i16::MAX,
    ensures
        r@.len() == cartesian(
            candidates(chord.pitches@, ints(scale.pitch_classes@), scale.modulus as int, proximity as int),
        ).len(),
        forall|k: int|
            0 <= k < r@.len() ==> #[trigger] r@[k].pitches@ == cartesian(
                candidates(chord.pitches@, ints(scale.pitch_classes@), scale.modulus as int, proximity as int),
            )[k],
{
    let ghost near = candidates(chord.pitches@, ints(scale.pitch_classes@), scale.modulus as int, proximity as int);
    let mut possible: Vec<Vec<i16>> = Vec::new();
    let mut i: usize = 0;
    while i < chord.pitches.len()
        invariant
            i <= chord.pitches@.len(),
            scale.wf(),
            forall|j: int|
                0 <= j < chord.pitches@.len() ==> i16::MIN <= #[trigger] chord.pitches@[j] - proximity
                    && chord.pitches@[j] + proximity <= i16::MAX,
            near == candidates(chord.pitches@, ints(scale.pitch_classes@), scale.modulus as int, proximity as int),
            views(possible@) =~= near.take(i as int),
        decreases chord.pitches@.len() - i,
    {
        let p = chord.pitches[i];
        let near_p = pitches_near(&scale, p, proximity);
        proof {
            assert(near_p@ =~= ints(near_p@).map_values(|x: int| x as i16));
            assert(near_p@ == near[i as int]);
            assert(views(possible@.push(near_p)) =~= views(possible@).push(near_p@));
            assert(near.take(i as int + 1) =~= near.take(i as int).push(near[i as int]));
        }
        possible.push(near_p);
        i += 1;
    }
    proof {
        assert(near.take(chord.pitches@.len() as int) =~= near);
    }
    let products = cartesian_product(possible);
    let mut chords: Vec<Chord> = Vec::new();
    let mut k: usize = 0;
    while k < products.len()
        invariant
            k <= products@.len(),
            views(products@) == cartesian(near),
            chords@.len() == k,
            forall|j: int| 0 <= j < k ==> #[trigger] chords@[j].pitches@ == cartesian(near)[j],
        decreases products@.len() - k,
    {
        let pitches = products[k].clone();
        proof {
            assert(views(products@)[k as int] == products@[k as int]@);
        }
        chords.push(Chord { pitches });
        k += 1;
    }
    chords
}

} // verus!
