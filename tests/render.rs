use pathtracer::hittable::Face;
use pathtracer::render::row_bands;

#[test]
fn bands_of_ten_rows() {
    assert_eq!(row_bands(25, 10), vec![(0, 10), (10, 20), (20, 25)]);
    assert_eq!(row_bands(20, 10), vec![(0, 10), (10, 20)]);
}

#[test]
fn bands_of_empty_image() {
    assert_eq!(row_bands(0, 10), vec![]);
}

#[test]
fn band_larger_than_image() {
    assert_eq!(row_bands(3, 10), vec![(0, 3)]);
    assert_eq!(row_bands(3, 1), vec![(0, 1), (1, 2), (2, 3)]);
}

#[test]
fn bands_near_the_largest_height() {
    let bands = row_bands(u32::MAX, u32::MAX / 2 + 1);
    assert_eq!(bands, vec![(0, u32::MAX / 2 + 1), (u32::MAX / 2 + 1, u32::MAX)]);
}

#[test]
fn face_of_incidence() {
    assert_eq!(Face::of_incidence(true), Face::Back);
    assert_eq!(Face::of_incidence(false), Face::Front);
}
