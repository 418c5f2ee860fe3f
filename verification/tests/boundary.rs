//! The combinations of boundary directions that receive images.

use hoomd::boundary::image_subsets;

#[test]
fn image_subsets_of_the_bulk_are_empty() {
    assert!(image_subsets(0).is_empty());
}

#[test]
fn image_subsets_near_one_face() {
    assert_eq!(image_subsets(0b100), vec![0b100]);
}

#[test]
fn image_subsets_near_an_edge_and_a_corner() {
    assert_eq!(image_subsets(0b101), vec![0b101, 0b100, 0b001]);
    assert_eq!(image_subsets(0b1010), vec![0b1010, 0b1000, 0b0010]);
    assert_eq!(image_subsets(0b111), vec![7, 6, 5, 4, 3, 2, 1]);
}

#[test]
fn image_subsets_count_is_two_to_the_directions_minus_one() {
    let subsets = image_subsets(0b1011_0001);
    assert_eq!(subsets.len(), (1 << 4) - 1);
    assert!(subsets.windows(2).all(|pair| pair[0] > pair[1]));
    assert!(subsets.iter().all(|s| *s != 0 && s & 0b1011_0001 == *s));
}
