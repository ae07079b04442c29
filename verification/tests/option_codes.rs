use essvi::pricing::{option_type_from_code, OptionType};

#[test]
fn option_codes_accept_only_plus_minus_one() {
    assert_eq!(option_type_from_code(1), Some(OptionType::Call));
    assert_eq!(option_type_from_code(-1), Some(OptionType::Put));
    assert_eq!(option_type_from_code(0), None);
    assert_eq!(option_type_from_code(2), None);
    assert_eq!(option_type_from_code(-2), None);
    assert_eq!(option_type_from_code(i32::MIN), None);
}

#[test]
fn option_code_round_trip() {
    assert_eq!(OptionType::Call.code(), 1);
    assert_eq!(OptionType::Put.code(), -1);
    for t in [OptionType::Call, OptionType::Put] {
        assert_eq!(option_type_from_code(t.code()), Some(t));
    }
}
