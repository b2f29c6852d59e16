use matchmaker::config::Padding;
use matchmaker::padding::{padding_from_number, padding_from_values, padding_values, PaddingError};

fn pad(top: u16, right: u16, bottom: u16, left: u16) -> Padding {
    Padding { top, right, bottom, left }
}

#[test]
fn one_two_or_four_values_make_a_padding() {
    assert_eq!(padding_from_values(&vec![2]), Ok(pad(2, 2, 2, 2)));
    assert_eq!(padding_from_values(&vec![1, 3]), Ok(pad(1, 3, 1, 3)));
    assert_eq!(padding_from_values(&vec![1, 2, 3, 4]), Ok(pad(1, 2, 3, 4)));
    assert_eq!(padding_from_values(&vec![]), Err(PaddingError::InvalidLength(0)));
    assert_eq!(padding_from_values(&vec![1, 2, 3]), Err(PaddingError::InvalidLength(3)));
}

#[test]
fn a_number_pads_every_side_when_it_fits() {
    assert_eq!(padding_from_number(5), Ok(pad(5, 5, 5, 5)));
    assert_eq!(padding_from_number(-1), Err(PaddingError::OutOfRange(-1)));
    assert_eq!(padding_from_number(70000), Err(PaddingError::OutOfRange(70000)));
}

#[test]
fn paddings_are_written_shortest_and_read_back() {
    for p in [pad(2, 2, 2, 2), pad(1, 3, 1, 3), pad(1, 2, 3, 4)] {
        assert_eq!(padding_from_values(&padding_values(p)), Ok(p));
    }
    assert_eq!(padding_values(pad(1, 3, 1, 3)), vec![1, 3]);
}
