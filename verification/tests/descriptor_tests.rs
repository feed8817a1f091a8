use subway_maze::brief::Brief;
use subway_maze::features::feature_data;
use subway_maze::imga::{FeatureData, FeatureVector, Mark};

#[test]
fn distance_to_self_is_zero() {
    let catalogue = feature_data();
    for (data, _mark) in catalogue.iter() {
        let v = FeatureVector::from_data(data);
        assert_eq!(v.distance(&v), 0);
    }
}

#[test]
fn distance_between_different_entries_is_positive() {
    let catalogue = feature_data();
    // the entrance entries score at least one against every other entry
    let entrance = FeatureVector::from_data(&catalogue[2].0);
    assert_eq!(catalogue[2].1, Mark::Entrance);
    for (i, (data, _mark)) in catalogue.iter().enumerate() {
        let v = FeatureVector::from_data(data);
        if i == 2 {
            assert_eq!(entrance.distance(&v), 0);
        } else {
            assert!(entrance.distance(&v) >= 1);
        }
    }
}

#[test]
fn words_round_trip_through_the_descriptor() {
    let data = FeatureData {
        x: 11,
        y: 11,
        bits_1: [20935737, 2734798361, 4260159929, 2185833650, 1217894208, 814393910],
        bits_2: [19757097, 2736895513, 4285329849, 2152409530, 2023200592, 814397990],
    };
    let v = FeatureVector::from_data(&data);
    let back = v.get_data();
    assert_eq!(back.x, data.x);
    assert_eq!(back.y, data.y);
    assert_eq!(back.bits_1, data.bits_1);
    assert_eq!(back.bits_2, data.bits_2);
}

#[test]
fn brief_unpacks_little_endian_words() {
    let b = Brief::from_words(3, 4, &[1, 0, 0, 0, 0, 0x8000_0000]);
    assert_eq!(b.x, 3);
    assert_eq!(b.y, 4);
    assert!(b.b[0]);
    assert!(!b.b[1]);
    assert!(!b.b[190]);
    assert!(b.b[191]);
    assert_eq!(b.b.iter().filter(|&&x| x).count(), 2);
}

#[test]
fn hamming_distance_counts_differing_bits() {
    let a = Brief::from_words(0, 0, &[0b1011, 0, 0, 0, 0, 0]);
    let b = Brief::from_words(0, 0, &[0b0001, 0, 0, 0, 0, 0]);
    assert_eq!(a.distance(&b), 2);
    assert_eq!(b.distance(&a), 2);
    assert_eq!(a.distance(&a), 0);
}

#[test]
fn catalogue_has_the_expected_shape() {
    let catalogue = feature_data();
    assert_eq!(catalogue.len(), 38);
    assert!(catalogue.iter().any(|(_, m)| *m == Mark::Entrance));
    assert!(catalogue.iter().any(|(_, m)| *m == Mark::Treasury));
    assert!(catalogue.iter().any(|(_, m)| *m == Mark::Empty));
}
