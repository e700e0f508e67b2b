use auralis::sec_overflow::{checked_add, checked_mul, checked_product};

#[test]
fn add_and_mul_ok() {
    assert_eq!(checked_add(2, 3).unwrap(), 5);
    assert_eq!(checked_mul(4, 5).unwrap(), 20);
}

#[test]
fn add_overflows() {
    assert!(checked_add(usize::MAX, 1).is_err());
}

#[test]
fn mul_overflows() {
    assert!(checked_mul(usize::MAX, 2).is_err());
}

#[test]
fn product_tracks_index() {
    assert_eq!(checked_product(&[2, 3, 4]).unwrap(), 24);
    assert_eq!(checked_product(&[]).unwrap(), 0);
    let err = checked_product(&[usize::MAX, 2]).unwrap_err();
    assert!(err.contains("dim 1"));
}

#[test]
fn product_of_one_dimension_is_that_dimension() {
    assert_eq!(checked_product(&[7]).unwrap(), 7);
    assert_eq!(checked_product(&[3, 0, usize::MAX]).unwrap(), 0);
}
