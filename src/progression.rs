//! Progressions: sequences and cycles of chords, scales and keys. Scales and
//! keys in a progression are brought to one common modulus, the least
//! common multiple of their own.
use crate::algebra::{
    ints, lcm, reduce, lcm_all, lemma_gcd_divides, lemma_lcm_all, lemma_lcm_multiple, repeat_seq,
    residue_shape, stamp_cyclic, stamp_key,
};
use crate::analyze::{Classify, Len};
use crate::chord::Chord;
use crate::scale::{Scale, ScaleKey};
use crate::transform::Repeat;
use vstd::arithmetic::div_mod::lemma_fundamental_div_mod;
use vstd::prelude::*;

verus! {

/// A sequence of chords.
#[derive(PartialEq, Debug)]
pub struct ChordSequence {
    pub chords: Vec<Chord>,
}

/// A sequence of scales over one common modulus.
#[derive(PartialEq, Debug)]
pub struct ScaleSequence {
    pub scales: Vec<Scale>,
}

/// A sequence of keys over one common modulus.
#[derive(PartialEq, Debug)]
pub struct KeySequence {
    pub keys: Vec<ScaleKey>,
}

/// A cyclic sequence of chords.
#[derive(PartialEq, Debug)]
pub struct ChordCycle {
    pub chords: Vec<Chord>,
}

/// A cyclic sequence of scales over one common modulus.
#[derive(PartialEq, Debug)]
pub struct ScaleCycle {
    pub scales: Vec<Scale>,
}

/// A cyclic sequence of keys over one common modulus.
#[derive(PartialEq, Debug)]
pub struct KeyCycle {
    pub keys: Vec<ScaleKey>,
}

/// The moduli of a list of scales.
pub open spec fn scale_moduli(scales: Seq<Scale>) -> Seq<int> {
    Seq::new(scales.len(), |i: int| scales[i].modulus as int)
}

/// The moduli of a list of keys.
pub open spec fn key_moduli(keys: Seq<ScaleKey>) -> Seq<int> {
    Seq::new(keys.len(), |i: int| keys[i].modulus as int)
}

/// Scales that can be brought to their common modulus.
pub open spec fn scales_combinable(scales: Seq<Scale>) -> bool {
    &&& forall|i: int|
        0 <= i < scales.len() ==> #[trigger] scales[i].wf() && scales[i].pitch_classes@.len()
            > 0 && scales[i].pitch_classes@.len() * (lcm_all(scale_moduli(scales))
            / scales[i].modulus as int) <= usize::MAX
    &&& lcm_all(scale_moduli(scales)) <= i16::MAX
}

/// Keys that can be brought to their common modulus.
pub open spec fn keys_combinable(keys: Seq<ScaleKey>) -> bool {
    &&& forall|i: int|
        0 <= i < keys.len() ==> #[trigger] keys[i].wf() && keys[i].pitch_classes@.len() * (
        lcm_all(key_moduli(keys)) / keys[i].modulus as int) <= usize::MAX
    &&& lcm_all(key_moduli(keys)) <= i16::MAX
}

/// Scale `s` brought to modulus `m` (a multiple of its own): its shape
/// repeated, stamped from its first pitch class.
pub open spec fn scale_over(s: Scale, m: int, r: Scale) -> bool {
    &&& r.modulus == m
    &&& r.wf()
    &&& ints(r.pitch_classes@) == stamp_cyclic(
        repeat_seq(s.shape_view(), (m / s.modulus as int) as nat),
        s.pitch_classes@[0] as int,
    )
}

/// Key `k` brought to modulus `m` (a multiple of its own): its shape
/// repeated, stamped onto its root.
pub open spec fn key_over(k: ScaleKey, m: int, r: ScaleKey) -> bool {
    &&& r.modulus == m
    &&& r.wf()
    &&& ints(r.pitch_classes@) == stamp_key(
        repeat_seq(
            residue_shape(ints(k.pitch_classes@), k.modulus as int),
            (m / k.modulus as int) as nat,
        ),
        k.pitch_classes@[0] as int,
    )
}

/// Relies on `num::integer::lcm`: for positive arguments,
/// `a * (b / gcd(a, b))`.
#[verifier::external_body]
fn lcm_of(a: i16, b: i16) -> (r: i16)
    requires
        0 < a,
        0 < b,
        lcm(a as int, b as int) <= i16::MAX,
    ensures
        r as int == lcm(a as int, b as int),
{
    num::integer::lcm(a, b)
}

/// A positive multiple of a positive number is at least that number.
proof fn lemma_multiple_at_least(x: int, a: int)
    requires
        0 < a,
        0 < x,
        x % a == 0,
    ensures
        a <= x,
        1 <= x / a,
        (x / a) * a == x,
{
    lemma_fundamental_div_mod(x, a);
    assert(1 <= x / a && a <= x && (x / a) * a == x) by (nonlinear_arith)
        requires
            x == a * (x / a) + 0,
            0 < x,
            0 < a,
    ;
}

/// The least common multiple of positive moduli, when it fits.
fn common_modulus(moduli: &Vec<i16>) -> (r: i16)
    requires
        forall|i: int| 0 <= i < moduli@.len() ==> 0 < #[trigger] moduli@[i],
        lcm_all(ints(moduli@)) <= i16::MAX,
    ensures
        r as int == lcm_all(ints(moduli@)),
        0 < r,
{
    let ghost ms = ints(moduli@);
    let mut l: i16 = 1;
    let mut i: usize = 0;
    proof {
        assert(ms.take(0) =~= Seq::<int>::empty());
    }
    while i < moduli.len()
        invariant
            i <= moduli@.len(),
            ms == ints(moduli@),
            forall|j: int| 0 <= j < moduli@.len() ==> 0 < #[trigger] moduli@[j],
            lcm_all(ms) <= i16::MAX,
            l as int == lcm_all(ms.take(i as int)),
            0 < l,
        decreases moduli@.len() - i,
    {
        proof {
            assert(ms.take(i as int + 1).drop_last() =~= ms.take(i as int));
            lemma_lcm_all_prefix(ms, i as int + 1);
            lemma_gcd_divides(l as int, moduli@[i as int] as int);
            lemma_lcm_multiple(l as int, moduli@[i as int] as int);
        }
        l = lcm_of(l, moduli[i]);
        i += 1;
    }
    proof {
        assert(ms.take(moduli@.len() as int) =~= ms);
    }
    l
}

/// The running least common multiple of a prefix is at most that of the whole.
proof fn lemma_lcm_all_prefix(ms: Seq<int>, k: int)
    requires
        forall|i: int| 0 <= i < ms.len() ==> 0 < #[trigger] ms[i],
        0 <= k <= ms.len(),
    ensures
        0 < lcm_all(ms.take(k)) <= lcm_all(ms),
    decreases ms.len() - k,
{
    if k < ms.len() {
        lemma_lcm_all_prefix(ms, k + 1);
        let w = ms.take(k + 1);
        assert(w.drop_last() =~= ms.take(k));
        lemma_lcm_all(ms.take(k));
        assert(forall|i: int| 0 <= i < w.len() ==> w[i] == ms[i]);
        lemma_lcm_multiple(lcm_all(ms.take(k)), ms[k]);
        lemma_multiple_at_least(lcm_all(w), lcm_all(ms.take(k)));
    } else {
        assert(ms.take(k) =~= ms);
        lemma_lcm_all(ms);
    }
}

/// The moduli of the scales.
fn moduli_of_scales(scales: &Vec<Scale>) -> (r: Vec<i16>)
    ensures
        ints(r@) == scale_moduli(scales@),
{
    let mut out: Vec<i16> = Vec::new();
    let mut i: usize = 0;
    while i < scales.len()
        invariant
            i <= scales@.len(),
            out@.len() == i,
            forall|j: int| 0 <= j < i ==> #[trigger] out@[j] == scales@[j].modulus,
        decreases scales@.len() - i,
    {
        out.push(scales[i].modulus);
        i += 1;
    }
    proof {
        assert(ints(out@) =~= scale_moduli(scales@));
    }
    out
}

/// The moduli of the keys.
fn moduli_of_keys(keys: &Vec<ScaleKey>) -> (r: Vec<i16>)
    ensures
        ints(r@) == key_moduli(keys@),
{
    let mut out: Vec<i16> = Vec::new();
    let mut i: usize = 0;
    while i < keys.len()
        invariant
            i <= keys@.len(),
            out@.len() == i,
            forall|j: int| 0 <= j < i ==> #[trigger] out@[j] == keys@[j].modulus,
        decreases keys@.len() - i,
    {
        out.push(keys[i].modulus);
        i += 1;
    }
    proof {
        assert(ints(out@) =~= key_moduli(keys@));
    }
    out
}

/// Every scale brought to the common modulus of all of them.
fn scales_over_common_modulus(scales: &Vec<Scale>) -> (r: Vec<Scale>)
    requires
        scales_combinable(scales@),
    ensures
        r@.len() == scales@.len(),
        forall|i: int|
            0 <= i < r@.len() ==> scale_over(
                scales@[i],
                lcm_all(scale_moduli(scales@)),
                #[trigger] r@[i],
            ),
{
    let moduli = moduli_of_scales(scales);
    proof {
        assert forall|i: int| 0 <= i < moduli@.len() implies 0 < #[trigger] moduli@[i] by {
            assert(scales@[i].wf());
            assert(ints(moduli@)[i] == scales@[i].modulus);
        }
        lemma_lcm_all(scale_moduli(scales@));
    }
    let l = common_modulus(&moduli);
    let mut out: Vec<Scale> = Vec::new();
    let mut i: usize = 0;
    while i < scales.len()
        invariant
            i <= scales@.len(),
            scales_combinable(scales@),
            l as int == lcm_all(scale_moduli(scales@)),
            0 < l,
            forall|j: int|
                0 <= j < scales@.len() ==> l as int % #[trigger] scale_moduli(scales@)[j] == 0,
            out@.len() == i,
            forall|j: int|
                0 <= j < i ==> scale_over(scales@[j], l as int, #[trigger] out@[j]),
        decreases scales@.len() - i,
    {
        let s = &scales[i];
        proof {
            assert(s.wf());
            assert(scale_moduli(scales@)[i as int] == s.modulus);
            lemma_multiple_at_least(l as int, s.modulus as int);
        }
        let n = (l / s.modulus) as usize;
        let r = s.repeat(n);
        out.push(r);
        i += 1;
    }
    out
}

/// Every key brought to the common modulus of all of them.
fn keys_over_common_modulus(keys: &Vec<ScaleKey>) -> (r: Vec<ScaleKey>)
    requires
        keys_combinable(keys@),
    ensures
        r@.len() == keys@.len(),
        forall|i: int|
            0 <= i < r@.len() ==> key_over(keys@[i], lcm_all(key_moduli(keys@)), #[trigger] r@[i]),
{
    let moduli = moduli_of_keys(keys);
    proof {
        assert forall|i: int| 0 <= i < moduli@.len() implies 0 < #[trigger] moduli@[i] by {
            assert(keys@[i].wf());
            assert(ints(moduli@)[i] == keys@[i].modulus);
        }
        lemma_lcm_all(key_moduli(keys@));
    }
    let l = common_modulus(&moduli);
    let mut out: Vec<ScaleKey> = Vec::new();
    let mut i: usize = 0;
    while i < keys.len()
        invariant
            i <= keys@.len(),
            keys_combinable(keys@),
            l as int == lcm_all(key_moduli(keys@)),
            0 < l,
            forall|j: int| 0 <= j < keys@.len() ==> l as int % #[trigger] key_moduli(keys@)[j] == 0,
            out@.len() == i,
            forall|j: int| 0 <= j < i ==> key_over(keys@[j], l as int, #[trigger] out@[j]),
        decreases keys@.len() - i,
    {
        let k = &keys[i];
        proof {
            assert(k.wf());
            assert(key_moduli(keys@)[i as int] == k.modulus);
            lemma_multiple_at_least(l as int, k.modulus as int);
        }
        let n = (l / k.modulus) as usize;
        let r = k.repeat(n);
        out.push(r);
        i += 1;
    }
    out
}

impl ChordSequence {
    pub fn new(chords: Vec<Chord>) -> (r: Self)
        ensures
            r.chords@ == chords@,
    {
        Self { chords }
    }
}

impl ChordCycle {
    pub fn new(chords: Vec<Chord>) -> (r: Self)
        ensures
            r.chords@ == chords@,
    {
        Self { chords }
    }
}

impl ScaleSequence {
    /// Brings every scale to the least common multiple of their moduli.
    pub fn new(scales: Vec<Scale>) -> (r: Self)
        requires
            scales_combinable(scales@),
        ensures
            r.scales@.len() == scales@.len(),
            forall|i: int|
                0 <= i < r.scales@.len() ==> scale_over(
                    scales@[i],
                    lcm_all(scale_moduli(scales@)),
                    #[trigger] r.scales@[i],
                ),
    {
        Self { scales: scales_over_common_modulus(&scales) }
    }
}

impl ScaleCycle {
    /// Brings every scale to the least common multiple of their moduli.
    pub fn new(scales: Vec<Scale>) -> (r: Self)
        requires
            scales_combinable(scales@),
        ensures
            r.scales@.len() == scales@.len(),
            forall|i: int|
                0 <= i < r.scales@.len() ==> scale_over(
                    scales@[i],
                    lcm_all(scale_moduli(scales@)),
                    #[trigger] r.scales@[i],
                ),
    {
        Self { scales: scales_over_common_modulus(&scales) }
    }
}

impl KeySequence {
    /// Brings every key to the least common multiple of their moduli.
    pub fn new(keys: Vec<ScaleKey>) -> (r: Self)
        requires
            keys_combinable(keys@),
        ensures
            r.keys@.len() == keys@.len(),
            forall|i: int|
                0 <= i < r.keys@.len() ==> key_over(
                    keys@[i],
                    lcm_all(key_moduli(keys@)),
                    #[trigger] r.keys@[i],
                ),
    {
        Self { keys: keys_over_common_modulus(&keys) }
    }
}

impl KeyCycle {
    /// Brings every key to the least common multiple of their moduli.
    pub fn new(keys: Vec<ScaleKey>) -> (r: Self)
        requires
            keys_combinable(keys@),
        ensures
            r.keys@.len() == keys@.len(),
            forall|i: int|
                0 <= i < r.keys@.len() ==> key_over(
                    keys@[i],
                    lcm_all(key_moduli(keys@)),
                    #[trigger] r.keys@[i],
                ),
    {
        Self { keys: keys_over_common_modulus(&keys) }
    }
}

impl Len for ChordSequence {
    open spec fn spec_len(&self) -> nat {
        self.chords@.len()
    }

    fn len(&self) -> usize {
        self.chords.len()
    }
}

impl Len for ScaleSequence {
    open spec fn spec_len(&self) -> nat {
        self.scales@.len()
    }

    fn len(&self) -> usize {
        self.scales.len()
    }
}

impl Len for KeySequence {
    open spec fn spec_len(&self) -> nat {
        self.keys@.len()
    }

    fn len(&self) -> usize {
        self.keys.len()
    }
}

impl Len for ChordCycle {
    open spec fn spec_len(&self) -> nat {
        self.chords@.len()
    }

    fn len(&self) -> usize {
        self.chords.len()
    }
}

impl Len for ScaleCycle {
    open spec fn spec_len(&self) -> nat {
        self.scales@.len()
    }

    fn len(&self) -> usize {
        self.scales.len()
    }
}

impl Len for KeyCycle {
    open spec fn spec_len(&self) -> nat {
        self.keys@.len()
    }

    fn len(&self) -> usize {
        self.keys.len()
    }
}

impl Classify<i16> for ChordSequence {
    type Output = ScaleSequence;

    open spec fn classify_defined(&self, modulus: i16) -> bool {
        0 < modulus
    }

    /// The scale of each chord, all over the same modulus.
    fn classify(&self, modulus: i16) -> (r: ScaleSequence)
        ensures
            r.scales@.len() == self.chords@.len(),
            forall|i: int|
                0 <= i < r.scales@.len() ==> #[trigger] r.scales@[i].modulus == modulus
                    && r.scales@[i].wf() && (forall|x: int|
                    ints(r.scales@[i].pitch_classes@).contains(x) <==> reduce(
                        ints(self.chords@[i].pitches@),
                        modulus as int,
                    ).contains(x)),
    {
        let mut scales: Vec<Scale> = Vec::new();
        let mut i: usize = 0;
        while i < self.chords.len()
            invariant
                i <= self.chords@.len(),
                0 < modulus,
                scales@.len() == i,
                forall|j: int|
                    0 <= j < i ==> #[trigger] scales@[j].modulus == modulus && scales@[j].wf() && (
                    forall|x: int|
                        ints(scales@[j].pitch_classes@).contains(x) <==> reduce(
                            ints(self.chords@[j].pitches@),
                            modulus as int,
                        ).contains(x)),
            decreases self.chords@.len() - i,
        {
            let scale = self.chords[i].classify(modulus);
            scales.push(scale);
            i += 1;
        }
        ScaleSequence { scales }
    }
}

} // verus!
