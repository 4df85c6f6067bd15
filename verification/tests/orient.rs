use fastcull_core::orient::apply_orientation;

/// Two pixels across, three down: each is its own number.
fn picture() -> Vec<u8> {
    (0..6u8).flat_map(|i| [i, i + 100, i + 200]).collect()
}

/// The first channel of each pixel.
fn shown(orientation: u16) -> (Vec<u8>, u32, u32) {
    let (rgb, w, h) = apply_orientation(picture(), 2, 3, orientation);
    assert!(rgb.chunks(3).all(|p| p[1] == p[0] + 100 && p[2] == p[0] + 200));
    (rgb.chunks(3).map(|p| p[0]).collect(), w, h)
}

#[test]
fn each_orientation_turns_the_picture() {
    assert_eq!(shown(1), (vec![0, 1, 2, 3, 4, 5], 2, 3));
    assert_eq!(shown(2), (vec![1, 0, 3, 2, 5, 4], 2, 3));
    assert_eq!(shown(3), (vec![5, 4, 3, 2, 1, 0], 2, 3));
    assert_eq!(shown(4), (vec![4, 5, 2, 3, 0, 1], 2, 3));
    assert_eq!(shown(5), (vec![0, 2, 4, 1, 3, 5], 3, 2));
    assert_eq!(shown(6), (vec![4, 2, 0, 5, 3, 1], 3, 2));
    assert_eq!(shown(7), (vec![5, 3, 1, 4, 2, 0], 3, 2));
    assert_eq!(shown(8), (vec![1, 3, 5, 0, 2, 4], 3, 2));
}

#[test]
fn a_corrupt_orientation_changes_nothing() {
    for orientation in [0, 9, 99, u16::MAX] {
        assert_eq!(shown(orientation), (vec![0, 1, 2, 3, 4, 5], 2, 3));
    }
}

#[test]
fn every_turn_is_undone_by_another() {
    for (turn, back) in [(2, 2), (3, 3), (4, 4), (5, 5), (6, 8), (7, 7), (8, 6)] {
        let (rgb, w, h) = apply_orientation(picture(), 2, 3, turn);
        assert_eq!(apply_orientation(rgb, w, h, back), (picture(), 2, 3));
    }
}
