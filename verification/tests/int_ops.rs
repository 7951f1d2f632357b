use fixnum::ops::{mode_number, RoundMode, RoundingDiv};

#[test]
fn it_rounds_rdiv() {
    assert_eq!(5.rdiv(2, RoundMode::Floor), Ok(2));
    assert_eq!(5.rdiv(2, RoundMode::Ceil), Ok(3));
    assert_eq!((-5).rdiv(2, RoundMode::Floor), Ok(-3));
    assert_eq!((-5).rdiv(2, RoundMode::Ceil), Ok(-2));
    assert_eq!(5.rdiv(-2, RoundMode::Floor), Ok(-3));
    assert_eq!(5.rdiv(-2, RoundMode::Ceil), Ok(-2));
    assert_eq!((-5).rdiv(-2, RoundMode::Floor), Ok(2));
    assert_eq!((-5).rdiv(-2, RoundMode::Ceil), Ok(3));
}

#[test]
fn round_mode_numbers() {
    assert_eq!(mode_number(RoundMode::Ceil), 1);
    assert_eq!(mode_number(RoundMode::Floor), -1);
    assert_eq!(mode_number(RoundMode::Nearest), 0);
}
