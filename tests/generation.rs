use harmonica::chord::Chord;
use harmonica::generate::scale_chords_in_proximity;
use harmonica::progression::ScaleSequence;
use harmonica::scale::{Scale, ScaleMap};

#[test]
fn test_compose() {
    let scale_map1 = ScaleMap::new(vec![2, 3, 5], 2);
    let scale_map2 = ScaleMap::new(vec![1, 3], 1);
    let result = ScaleMap::new(vec![3, 4, 7, 10, 12, 15], 4);

    assert_eq!(scale_map1.compose(&scale_map2), result);
}

#[test]
fn test_scale_chords_in_proximity() {
    let chord = Chord::new(vec![0, 6, 9]);
    let scale = Scale::new(vec![0, 6, 9], 12);

    let new_chords = scale_chords_in_proximity(chord, scale, 3);
    println!("{:?}", new_chords);
}

#[test]
fn test_scale_sequence() {
    let scale_sequence = ScaleSequence::new(vec![
        Scale::new(vec![0], 2),
        Scale::new(vec![1, 2], 3),
        Scale::new(vec![2, 3], 4),
    ]);

    println!("{:?}", scale_sequence);
}

#[test]
fn scale_sequence_shares_the_common_modulus() {
    let scale_sequence = ScaleSequence::new(vec![
        Scale::new(vec![0], 2),
        Scale::new(vec![1, 2], 3),
        Scale::new(vec![2, 3], 4),
    ]);
    assert_eq!(scale_sequence.scales[0], Scale::new(vec![0, 2, 4, 6, 8, 10], 12));
    assert_eq!(scale_sequence.scales[1], Scale::new(vec![1, 2, 4, 5, 7, 8, 10, 11], 12));
    assert_eq!(scale_sequence.scales[2], Scale::new(vec![2, 3, 6, 7, 10, 11], 12));
}
