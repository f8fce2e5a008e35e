use harmonica::analyze::{Classify, Eval, HasPitch, Len, Modulus, Prime, Shape, Span, Stamp};
use harmonica::chord::{Chord, ChordShape};
use harmonica::melody::{
    IntervalClassCycle, IntervalCycle, MelodicMap, Melody, MelodyClass, MelodyClassShape,
    MelodyShape, PitchClassCycle, PitchCycle,
};
use harmonica::scale::{PitchScaleShape, Scale, ScaleKey, ScaleMap, ScaleShape};
use harmonica::transform::{Rotate, RotateMode, Transpose};

#[test]
fn mod_test_scale_key() {
    // root
    let scale_key = ScaleKey::new(vec![0, 2, 3, 5, 7], 9, 3);
    assert_eq!(scale_key.root(), 3);

    // shape
    let scale_key = ScaleKey::new(vec![0, 1, 5, 7], 9, 5);
    let pitch_scale_shape = ScaleShape::new(vec![2, 2, 1, 4]);
    assert_eq!(scale_key.shape(), pitch_scale_shape);

    let scale_key = ScaleKey::new(vec![0], 9, 0);
    let pitch_scale_shape = ScaleShape::new(vec![9]);
    assert_eq!(scale_key.shape(), pitch_scale_shape);

    // prime
    let scale_key = ScaleKey::new(vec![0, 1, 3, 4], 6, 3);
    let prime = ScaleKey::new(vec![0, 1], 3, 0);
    assert_eq!(scale_key.prime(), prime);

    // eval
    let scale_key = ScaleKey::new(vec![2, 3, 6, 7, 9], 12, 6);
    assert_eq!(scale_key.eval(3), 2);
}

#[test]
fn mod_test_chord() {
    // span
    let chord = Chord::new(vec![-3, 5, 7, 10]);
    assert_eq!(chord.span(), 13);

    // shape
    let chord = Chord::new(vec![1, 4, 8, 12]);
    let shape = ChordShape::new(vec![3, 4, 4]);
    assert_eq!(chord.shape(), shape);

    // classify
    let chord = Chord::new(vec![-3, 5, 8, 25]);
    let scale = Scale::new(vec![1, 5, 8, 9], 12);
    assert_eq!(chord.classify(12), scale);

    // transpose
    let chord = Chord::new(vec![0, 3, 6, 12]);
    let transposition = Chord::new(vec![-4, -1, 2, 8]);
    assert_eq!(chord.transpose(-4), transposition);
}

#[test]
fn mod_test_chord_shape() {
    // span
    let chord_shape = ChordShape::new(vec![1, 5, 2, 7]);
    assert_eq!(chord_shape.span(), 15);

    // stamp
    let chord_shape = ChordShape::new(vec![2, 7, 3, 5]);
    let chord = Chord::new(vec![4, 6, 13, 16, 21]);
    assert_eq!(chord_shape.stamp(4), chord);

    // rotate
    let chord_shape = ChordShape::new(vec![4, 6, 3, 2]);
    let rotation = chord_shape.rotate(2);
    let result = ChordShape::new(vec![3, 2, 4, 6]);
    assert_eq!(rotation, result);
}

#[test]
fn mod_test_melody() {
    // span
    let melody = Melody::new(vec![-8, 4, -2, -1, 6, 4]);
    assert_eq!(melody.span(), 14);

    // shape
    let melody = Melody::new(vec![-4, 7, 1, 3, 1, 1, 7, 4]);
    let melody_shape = MelodyShape::new(vec![11, -6, 2, -2, 0, 6, -3]);
    assert_eq!(melody.shape(), melody_shape);

    // classify
    let melody = Melody::new(vec![-4, 8, 6, 6, 2, 7, 19]);
    let melody_class = MelodyClass::new(vec![8, 8, 6, 6, 2, 7, 7], 12);
    assert_eq!(melody.classify(12), melody_class);
}

#[test]
fn mod_test_melody_shape() {
    // span
    let melody_shape = MelodyShape::new(vec![1, 5, -4, 2, -7, 2, 7]);
    assert_eq!(melody_shape.span(), 6);

    // stamp
    let melody_shape = MelodyShape::new(vec![2, 7, 3, -6, 5]);
    let melody = Melody::new(vec![4, 6, 13, 16, 10, 15]);
    assert_eq!(melody_shape.stamp(4), melody);

    // classify
    let melody_shape = MelodyShape::new(vec![2, 15, -5, 4, 14, 7]);
    let melody_class_shape = MelodyClassShape::new(vec![2, 3, 7, 4, 2, 7], 12);
    assert_eq!(melody_shape.classify(12), melody_class_shape);
}

#[test]
fn mod_test_scale() {
    // shape
    let scale = Scale::new(vec![0, 3, 7], 9);
    let pitch_scale_shape = ScaleShape::new(vec![3, 4, 2]);
    assert_eq!(scale.shape(), pitch_scale_shape);

    // prime
    let scale = Scale::new(vec![0, 2, 3, 5, 6, 8, 9, 11], 12);
    let prime = Scale::new(vec![0, 2], 3);
    assert_eq!(scale.prime(), prime);
}

#[test]
fn mod_test_scale_map() {
    // shape
    let scale_map = ScaleMap::new(vec![2, 4, 5, 7], 2);
    let pitch_scale_shape = ScaleShape::new(vec![2, 2, 1, 2]);
    assert_eq!(scale_map.shape(), pitch_scale_shape);

    let scale_map = ScaleMap::new(vec![7], 2);
    let pitch_scale_shape = ScaleShape::new(vec![7]);
    assert_eq!(scale_map.shape(), pitch_scale_shape);

    // prime
    let scale_map = ScaleMap::new(vec![2, 3, 5, 6], 2);
    let prime = ScaleMap::new(vec![2, 3], 2);
    assert_eq!(scale_map.prime(), prime);
}

#[test]
fn mod_test_melody_class() {
    let melody_class = MelodyClass::new(vec![1, 6, 3, 7, 2, 5, 5, 3], 9);
    let melody_class_shape = MelodyClassShape::new(vec![5, 6, 4, 4, 3, 0, 7], 9);
    assert_eq!(melody_class.shape(), melody_class_shape);
}

#[test]
fn mod_test_melodic_map() {
    // shape
    let melodic_map = MelodicMap::new(vec![-2, 7, 3, 2], 3);
    let shape = IntervalCycle::new(vec![-2, 9, -4, -1]);
    assert_eq!(melodic_map.shape(), shape);

    // eval
    let melodic_map = MelodicMap::new(vec![3, -1, 4], 0);
    assert_eq!(melodic_map.eval(7), 11);


    // parallel rotation
    let melodic_map = MelodicMap::new(vec![2, -1, 5], 0);
    let rotation = MelodicMap::new(vec![6, 8, 5], 0);
    assert_eq!(melodic_map.parallel_rotate(2), rotation);

    // relative rotation
    let melodic_map = MelodicMap::new(vec![2, -1, 5], 0);
    let rotation = MelodicMap::new(vec![6, 8, 5], -1);
    assert_eq!(melodic_map.relative_rotate(2), rotation);

    // transpose
    let melodic_map = MelodicMap::new(vec![4, -2, 6, 1], 3);
    let transposition = MelodicMap::new(vec![4, -2, 6, 1], -1);
    assert_eq!(melodic_map.transpose(-4), transposition);
}

#[test]
fn mod_test_pitch_cycle() {
    // shape
    let pitch_cycle = PitchCycle::new(vec![2, 7, 5, 1, -5]);
    let interval_cycle = IntervalCycle::new(vec![5, -2, -4, -6, 7]);
    assert_eq!(pitch_cycle.shape(), interval_cycle);

    // rotate
    let pitch_cycle = PitchCycle::new(vec![2, 7, 3, -3]);
    let rotation = pitch_cycle.rotate(2);
    let result = PitchCycle::new(vec![3, -3, 2, 7]);
    assert_eq!(rotation, result);
}

#[test]
fn mod_test_pitch_class_cycle() {
    // shape
    let pitch_class_cycle = PitchClassCycle::new(vec![0, 4, 2, 4], 12);
    let interval_class_cycle = IntervalClassCycle::new(vec![4, 10, 2, 8], 12);
    assert_eq!(pitch_class_cycle.shape(), interval_class_cycle);

    // rotate
    let pitch_class_cycle = PitchClassCycle::new(vec![2, 7, 3, 3], 12);
    let rotation = pitch_class_cycle.rotate(2);
    let result = PitchClassCycle::new(vec![3, 3, 2, 7], 12);
    assert_eq!(rotation, result);
}

#[test]
fn test_pitch_to_scale_map() {
    let pitch_scale_shape = ScaleShape::new(vec![2, 6, 4]);
    let scale_map = ScaleMap::new(vec![2, 8, 12], 3);
    assert_eq!(pitch_scale_shape.stamp_to_scale_map(3), scale_map);
}

#[test]
fn test_pitch_to_scale_key() {
    let pitch_scale_shape = ScaleShape::new(vec![2, 6, 4]);
    let scale_key = ScaleKey::new(vec![3, 7, 9], 12, 7);
    assert_eq!(pitch_scale_shape.stamp_to_scale_key(7), scale_key);
}

#[test]
fn test_interval_to_pitch_cycle() {
    let interval_cycle = IntervalCycle::new(vec![2, 7, -4, 0, -3, 4, -6]);
    let result = PitchCycle::new(vec![6, 8, 15, 11, 11, 8, 12]);
    assert_eq!(interval_cycle.stamp_to_pitch_cycle(6), result);
}

#[test]
fn mod_test_pitch_scale_shape() {
    // stamp
    let pitch_scale_shape = ScaleShape::new(vec![2, 6, 4]);
    let scale = Scale::new(vec![0, 6, 10], 12);
    assert_eq!(pitch_scale_shape.stamp(10), scale);

    // prime
    let pitch_scale_shape = ScaleShape::new(vec![2, 5, 4, 2, 5, 4]);
    let prime = ScaleShape::new(vec![2, 5, 4]);
    assert_eq!(pitch_scale_shape.prime(), prime);

    // rotate
    let pitch_scale_shape = PitchScaleShape::new(vec![4, 7, 2, 4]);
    let rotation = pitch_scale_shape.rotate(2);
    let result = PitchScaleShape::new(vec![2, 4, 4, 7]);
    assert_eq!(rotation, result);
}

#[test]
fn mod_test_melody_class_shape() {
    let melody_class_shape = MelodyClassShape::new(vec![0, 0, 5, 8], 12);
    let melody_class = MelodyClass::new(vec![2, 2, 2, 7, 3], 12);
    assert_eq!(melody_class_shape.stamp(2), melody_class);
}

#[test]
fn mod_test_interval_cycle() {
    // stamp
    let interval_cycle = IntervalCycle::new(vec![3, -6, 7, -1, -1]);
    let pitch_cycle = MelodicMap::new(vec![3, -3, 4, 3, 2], 0);
    assert_eq!(interval_cycle.stamp(0), pitch_cycle);

    // rotate
    let interval_cycle = IntervalCycle::new(vec![2, 7, 3, -3]);
    let rotation = interval_cycle.rotate(2);
    let result = IntervalCycle::new(vec![3, -3, 2, 7]);
    assert_eq!(rotation, result);
}

#[test]
fn mod_test_interval_class_cycle() {
    // stamp
    let interval_class_cycle = IntervalClassCycle::new(vec![2, 5, 3, 5, 9], 12);
    let pitch_class_cycle = PitchClassCycle::new(vec![4, 6, 11, 2, 7], 12);
    assert_eq!(interval_class_cycle.stamp(4), pitch_class_cycle);

    // rotate
    let interval_class_cycle = IntervalClassCycle::new(vec![2, 7, 3, 3], 12);
    let rotation = interval_class_cycle.rotate(2);
    let result = IntervalClassCycle::new(vec![3, 3, 2, 7], 12);
    assert_eq!(rotation, result);
}

#[test]
fn test_scale_map_index() {
    let scale_map = ScaleMap::new(vec![2, 3, 5, 7], 3);
    assert_eq!(scale_map.eval(8), 17);
}

#[test]
fn test_scale_map_chord() {
    let scale_map = ScaleMap::new(vec![2, 3, 5, 7], 2);
    let generic_chord = Chord::new(vec![0, 2, 4]);
    let result = Chord::new(vec![2, 5, 9]);
    assert_eq!(scale_map.eval(generic_chord), result);
}

#[test]
fn test_scale_map_melody() {
    let scale_map = ScaleMap::new(vec![2, 3, 5, 7], 2);
    let generic_melody = Melody::new(vec![0, -3, 2, 4]);
    let result = Melody::new(vec![2, -3, 5, 9]);
    assert_eq!(scale_map.eval(generic_melody), result);
}

#[test]
fn scale_has_pitch_by_class() {
    let scale = Scale::new(vec![0, 2, 4, 5, 7, 9, 11], 12);
    assert!(scale.has_pitch(14));
    assert!(scale.has_pitch(-1));
    assert!(!scale.has_pitch(13));
    assert_eq!(scale.len(), 7);
    assert_eq!(scale.modulus(), 12);
}
