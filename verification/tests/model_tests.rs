use tripsu::model::TripleMask;

#[test]
// Test for default constructor.
fn test_default() {
    let mask = TripleMask::default();
    assert!(mask.is_empty());
}

#[test]
// Test the parsing of a triple.
fn is_subject_set() {
    let mask_s = TripleMask::subject();
    let mask_so = TripleMask::subject().union(&TripleMask::object());
    assert!(mask_s.is_set(&TripleMask::subject()));
    assert!(mask_so.is_set(&TripleMask::subject()));
}

#[test]
// Test the invert method of TripleMask
fn test_triplemask_invert() {
    let mask_empty = TripleMask::default();
    let mask_so = TripleMask::subject().union(&TripleMask::object());

    assert!(mask_empty.invert().is_set(&TripleMask::subject()));
    assert!(mask_empty.invert().is_set(&TripleMask::object()));

    assert!(!mask_so.invert().is_set(&TripleMask::subject()));
    assert!(!mask_so.invert().is_set(&TripleMask::object()));
}

#[test]
fn mask_bits_encoding() {
    assert_eq!(TripleMask::subject().bits(), 0b100);
    assert_eq!(TripleMask::predicate().bits(), 0b010);
    assert_eq!(TripleMask::object().bits(), 0b001);
    assert_eq!(TripleMask::empty().bits(), 0b000);
    assert_eq!(TripleMask::empty().invert().bits(), 0b111);
}
