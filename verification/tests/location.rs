use re_compiler::location::{Error, Location, Offset};

fn at(fwd: usize, bck: usize) -> Location {
    Location { fwd, bck_seq_id: 0, bck }
}

#[test]
fn sub_gives_the_difference_in_both_streams() {
    assert_eq!(at(10, 20).sub(&at(4, 25)), Ok(Offset { fwd: 6, bck: -5 }));
    assert_eq!(at(3, 3).sub(&at(3, 3)), Ok(Offset { fwd: 0, bck: 0 }));
}

#[test]
fn sub_takes_the_largest_offsets() {
    assert_eq!(at(32767, 0).sub(&at(0, 32768)), Ok(Offset { fwd: 32767, bck: -32768 }));
}

#[test]
fn sub_fails_above_the_largest_offset() {
    assert_eq!(at(32768, 0).sub(&at(0, 0)), Err(Error::TooLarge));
    assert_eq!(at(0, 32768).sub(&at(0, 0)), Err(Error::TooLarge));
}

#[test]
fn sub_fails_below_the_smallest_offset() {
    assert_eq!(at(0, 0).sub(&at(32769, 0)), Err(Error::TooLarge));
    assert_eq!(at(0, 0).sub(&at(0, 32769)), Err(Error::TooLarge));
}

#[test]
fn sub_fails_on_distances_beyond_any_offset() {
    assert_eq!(at(usize::MAX, 0).sub(&at(0, 0)), Err(Error::TooLarge));
    assert_eq!(at(0, 0).sub(&at(0, usize::MAX)), Err(Error::TooLarge));
}

#[test]
fn sub_ignores_the_sequence_identifier() {
    let a = Location { fwd: 5, bck_seq_id: 3, bck: 5 };
    let b = Location { fwd: 1, bck_seq_id: 9, bck: 2 };
    assert_eq!(a.sub(&b), Ok(Offset { fwd: 4, bck: 3 }));
}

#[test]
fn error_message() {
    assert_eq!(Error::TooLarge.message(), "regexp too large");
}

#[test]
fn default_location_is_the_start() {
    assert_eq!(Location::default(), Location { fwd: 0, bck_seq_id: 0, bck: 0 });
}
