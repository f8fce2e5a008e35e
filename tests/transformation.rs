use harmonica::melody::Melody;
use harmonica::scale::{PitchClassSet, PitchScaleKey, PitchScaleMap};
use harmonica::transform::{Repeat, RotateMode, Transpose};

#[test]
fn mod_test_pitch_scale_map() {
    // parallel rotation
    let pitch_scale_map = PitchScaleMap::new(vec![2, 3, 5, 7], 2);
    let rotation = pitch_scale_map.parallel_rotate(2);
    let result = PitchScaleMap::new(vec![2, 4, 6, 7], 2);
    assert_eq!(rotation, result);

    // relative rotation
    let pitch_scale_map = PitchScaleMap::new(vec![2, 3, 5, 7], 2);
    let rotation = pitch_scale_map.relative_rotate(2);
    let result = PitchScaleMap::new(vec![2, 4, 6, 7], 5);
    assert_eq!(rotation, result);

    // transpose
    let pitch_scale_map = PitchScaleMap::new(vec![2, 3, 5, 7], 3);
    let transposition = PitchScaleMap::new(vec![2, 3, 5, 7], 11);
    assert_eq!(pitch_scale_map.transpose(8), transposition);
}

#[test]
fn mod_test_pitch_scale_key() {
    // parallel rotation
    let pitch_scale_key = PitchScaleKey::new(vec![0, 2, 3, 5], 7, 0);
    let rotation = pitch_scale_key.parallel_rotate(2);
    let result = PitchScaleKey::new(vec![0, 2, 4, 6], 7, 0);
    assert_eq!(rotation, result);

    // relative rotation
    let pitch_scale_key = PitchScaleKey::new(vec![0, 2, 3, 5], 7, 0);
    let rotation = pitch_scale_key.relative_rotate(2);
    let result = PitchScaleKey::new(vec![0, 2, 3, 5], 7, 3);
    assert_eq!(rotation, result);

    // transpose
    let pitch_scale_key = PitchScaleKey::new(vec![0, 2, 3, 5], 7, 3);
    let transposition = PitchScaleKey::new(vec![0, 1, 3, 5], 7, 1);
    assert_eq!(pitch_scale_key.transpose(-2), transposition);
}

#[test]
fn test_repeat_melody() {
    let melody = Melody::new(vec![2, 7, 3, 4, 8]);
    let repeat = melody.repeat(2);
    let result = Melody::new(vec![2, 7, 3, 4, 8, 2, 7, 3, 4, 8]);
    assert_eq!(repeat, result);
}

#[test]
fn test_stretch_melody() {
    let melody = Melody::new(vec![2, 7, 3, 4, 8]);
    let stretch = melody.stretch(2);
    let result = Melody::new(vec![2, 2, 7, 7, 3, 3, 4, 4, 8, 8]);
    assert_eq!(stretch, result);
}

#[test]
fn test_pitch_class_set() {
    let pitch_class_set = PitchClassSet::new(vec![0, 2, 3, 6, 9], 12);
    let transposition = PitchClassSet::new(vec![0, 1, 4, 7, 10], 12);
    assert_eq!(pitch_class_set.transpose(-2), transposition);
}
