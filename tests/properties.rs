use harmonica::analyze::{Classify, CountModes, CountTranspositions, Eval, Len, Modulus, Prime, Shape, Stamp};
use harmonica::chord::{Chord, ChordShape};
use harmonica::generate::scale_chords_in_proximity;
use harmonica::melody::{MelodicMap, Melody, MelodyClass, PitchClassCycle};
use harmonica::scale::{Scale, ScaleKey, ScaleMap, ScaleShape};
use harmonica::transform::{Repeat, Rotate, RotateMode, Transpose};
use harmonica::utility::{
    collection_is_cyclically_ascending, collection_is_sorted, collection_is_unique,
    cyclically_order_vector, find_aperiodic_substring, repeat_list, sort_vector, stretch_list,
    vector_to_hashset,
};

#[test]
fn aperiodic_shape_is_its_own_prime_form() {
    let shape = ScaleShape::new(vec![2, 2, 1, 2, 2, 2, 1]);
    assert!(shape.is_prime());
    assert_eq!(shape.prime(), ScaleShape::new(vec![2, 2, 1, 2, 2, 2, 1]));
    assert_eq!(shape.modulus(), 12);
}

#[test]
fn periodic_shape_reduces_to_its_block() {
    let shape = ScaleShape::new(vec![2, 1, 2, 1]);
    assert!(!shape.is_prime());
    assert_eq!(shape.prime(), ScaleShape::new(vec![2, 1]));
    assert_eq!(shape.prime().modulus(), 3);
}

#[test]
fn residue_set_prime_form_and_counts() {
    let scale = Scale::new(vec![0, 2, 3, 5, 6, 8, 9, 11], 12);
    assert!(!scale.is_prime());
    assert_eq!(scale.prime(), Scale::new(vec![0, 2], 3));
    assert_eq!(scale.count_modes(), 2);
    assert_eq!(scale.count_transpositions(), 3);

    let major = Scale::new(vec![0, 2, 4, 5, 7, 9, 11], 12);
    assert!(major.is_prime());
    assert_eq!(major.count_modes(), 7);
    assert_eq!(major.count_transpositions(), 12);
}

#[test]
fn prime_form_of_a_shifted_periodic_set() {
    let scale = Scale::new(vec![1, 2, 4, 5, 7, 8, 10, 11], 12);
    assert_eq!(scale.prime(), Scale::new(vec![1, 2], 3));
    let key = ScaleKey::new(vec![1, 2, 4, 5, 7, 8, 10, 11], 12, 7);
    assert_eq!(key.prime(), ScaleKey::new(vec![1, 2], 3, 1));
}

#[test]
fn aperiodic_block_of_lists() {
    assert_eq!(find_aperiodic_substring(&[]), Vec::<i16>::new());
    assert_eq!(find_aperiodic_substring(&[5]), vec![5]);
    assert_eq!(find_aperiodic_substring(&[1, 1, 1]), vec![1]);
    assert_eq!(find_aperiodic_substring(&[1, 2, 1, 2, 1, 2]), vec![1, 2]);
    assert_eq!(find_aperiodic_substring(&[1, 2, 1, 2, 1]), vec![1, 2, 1, 2, 1]);
    let once = find_aperiodic_substring(&[3, 4, 3, 4]);
    assert_eq!(find_aperiodic_substring(&once), once);
}

#[test]
fn linear_shape_stamp_round_trip() {
    let chord = Chord::new(vec![-5, 0, 4, 7, 19]);
    let shape = chord.shape();
    assert_eq!(shape, ChordShape::new(vec![5, 4, 3, 12]));
    assert_eq!(shape.stamp(-5), chord);
}

#[test]
fn cyclic_shape_stamp_round_trip() {
    let scale = Scale::new(vec![1, 4, 6, 10], 12);
    let shape = scale.shape();
    assert_eq!(shape, ScaleShape::new(vec![3, 2, 4, 3]));
    assert_eq!(shape.stamp(1), scale);

    let single = Scale::new(vec![5], 7);
    assert_eq!(single.shape(), ScaleShape::new(vec![7]));
    assert_eq!(single.shape().stamp(5), single);
}

#[test]
fn scale_map_evaluation_on_all_integers() {
    let scale_map = ScaleMap::new(vec![2, 3, 5, 7], 3);
    assert_eq!(scale_map.eval(8), 17);
    assert_eq!(scale_map.eval(0), 3);
    assert_eq!(scale_map.eval(-1), 1);
    assert_eq!(scale_map.eval(-4), -4);
    assert_eq!(scale_map.eval(-5), -6);
}

#[test]
fn key_evaluation_wraps_both_ways() {
    let key = ScaleKey::new(vec![2, 3, 6, 7, 9], 12, 6);
    assert_eq!(key.pitch_classes, vec![6, 7, 9, 2, 3]);
    assert_eq!(key.eval(-1), 3);
    assert_eq!(key.eval(5), 6);
}

#[test]
fn composition_with_shared_divisor() {
    let a = ScaleMap::new(vec![2, 4], 0);
    let b = ScaleMap::new(vec![1, 2], 0);
    // period (2 * 2) / gcd(4, 2) = 2
    let c = a.compose(&b);
    assert_eq!(c, ScaleMap::new(vec![2, 4], 0));
}

#[test]
fn rotation_takes_the_length_modulo() {
    let shape = ChordShape::new(vec![4, 6, 3, 2]);
    assert_eq!(shape.rotate(6), ChordShape::new(vec![3, 2, 4, 6]));
    assert_eq!(shape.rotate(-1), ChordShape::new(vec![2, 4, 6, 3]));
    assert_eq!(shape.rotate(0), ChordShape::new(vec![4, 6, 3, 2]));
}

#[test]
fn residues_stay_in_range() {
    let scale = Scale::new(vec![0, 4, 7], 12);
    let moved = scale.transpose(-25);
    assert_eq!(moved, Scale::new(vec![3, 6, 11], 12));
    for &pc in moved.pitch_classes.iter() {
        assert!(0 <= pc && pc < 12);
    }
    let melody_class = MelodyClass::new(vec![0, 11, 5], 12);
    assert_eq!(melody_class.transpose(30), MelodyClass::new(vec![6, 5, 11], 12));
    let cycle = PitchClassCycle::new(vec![1, 2], 5);
    assert_eq!(cycle.transpose(-3), PitchClassCycle::new(vec![3, 4], 5));
}

#[test]
fn repeat_multiplies_the_length() {
    let melody = Melody::new(vec![1, 2, 3]);
    for n in 1..5usize {
        assert_eq!(melody.repeat(n).len(), 3 * n);
        assert_eq!(melody.stretch(n).len(), 3 * n);
    }
    assert_eq!(melody.repeat(0).len(), 0);
}

#[test]
fn transposing_twice_adds_the_amounts() {
    let chord = Chord::new(vec![0, 4, 7]);
    assert_eq!(chord.transpose(3).transpose(-5), chord.transpose(-2));

    let scale = Scale::new(vec![0, 4, 7], 12);
    assert_eq!(scale.transpose(5).transpose(9), scale.transpose(14));

    let map = ScaleMap::new(vec![2, 4, 5], 1);
    assert_eq!(map.transpose(2).transpose(3), map.transpose(5));
}

#[test]
fn repeated_and_stretched_scales() {
    let scale = Scale::new(vec![0, 1], 3);
    assert_eq!(scale.repeat(2), Scale::new(vec![0, 1, 3, 4], 6));
    assert_eq!(scale.stretch(2), Scale::new(vec![0, 1, 2, 4], 6));

    let key = ScaleKey::new(vec![0, 1], 3, 1);
    assert_eq!(key.repeat(2).pitch_classes, vec![1, 3, 4, 0]);

    let map = ScaleMap::new(vec![1, 3], 0);
    assert_eq!(map.repeat(2), ScaleMap::new(vec![1, 3, 4, 6], 0));
    assert_eq!(map.stretch(2), ScaleMap::new(vec![1, 2, 4, 6], 0));

    let melodic = MelodicMap::new(vec![2, -1], 4);
    assert_eq!(melodic.repeat(2), MelodicMap::new(vec![2, -1, 1, -2], 4));
}

#[test]
fn scale_key_modes() {
    let key = ScaleKey::new(vec![0, 2, 4, 5, 7, 9, 11], 12, 0);
    let dorian = key.parallel_rotate(1);
    assert_eq!(dorian.pitch_classes, vec![0, 2, 3, 5, 7, 9, 10]);
    let relative = key.relative_rotate(1);
    assert_eq!(relative.pitch_classes, vec![2, 4, 5, 7, 9, 11, 0]);
    assert_eq!(relative.root(), 2);
}

#[test]
fn scale_map_rotation_by_whole_periods() {
    let map = ScaleMap::new(vec![2, 3, 5, 7], 2);
    assert_eq!(map.parallel_rotate(6), ScaleMap::new(vec![2, 4, 6, 7], 2));
    assert_eq!(map.relative_rotate(6), ScaleMap::new(vec![2, 4, 6, 7], 12));
    assert_eq!(map.parallel_rotate(0), ScaleMap::new(vec![2, 3, 5, 7], 2));
}

#[test]
fn chords_near_a_chord_in_a_scale() {
    let chord = Chord::new(vec![0, 6, 9]);
    let scale = Scale::new(vec![0, 6, 9], 12);
    let chords = scale_chords_in_proximity(chord, scale, 3);
    assert_eq!(chords.len(), 12);
    assert_eq!(chords[0].pitches, vec![-3, 6, 6]);
    assert_eq!(chords[1].pitches, vec![-3, 6, 9]);
    assert_eq!(chords[11].pitches, vec![0, 9, 12]);

    let none = scale_chords_in_proximity(Chord::new(vec![]), Scale::new(vec![0], 12), 1);
    assert!(none.is_empty());
}

#[test]
fn list_utilities() {
    assert_eq!(repeat_list(&[1i16, 2], 3), vec![1, 2, 1, 2, 1, 2]);
    assert_eq!(stretch_list(&[1i16, 2], 3), vec![1, 1, 1, 2, 2, 2]);
    assert_eq!(sort_vector(&[3, -1, 2, -1]), vec![-1, -1, 2, 3]);
    assert_eq!(cyclically_order_vector(&[1, 3, 4, 6], 4), vec![4, 6, 1, 3]);
    assert!(collection_is_unique(&[1, 2, 3]));
    assert!(!collection_is_unique(&[1, 2, 1]));
    assert!(collection_is_sorted(&[1, 1, 2]));
    assert!(!collection_is_sorted(&[2, 1]));
    assert!(collection_is_cyclically_ascending(&[5, 7, 1, 3]));
    assert!(!collection_is_cyclically_ascending(&[1, 7, 5, 9]));
    let set = vector_to_hashset(&[3, 1, 3]);
    assert_eq!(set.len(), 2);
    assert!(set.contains(&1) && set.contains(&3));
}

#[test]
fn classify_removes_repeated_classes() {
    let chord = Chord::new(vec![0, 12, 14, 26]);
    assert_eq!(chord.classify(12), Scale::new(vec![0, 2], 12));
}
