use aeolus::common::unit::count_units;
use aeolus::common::unit::RefDimError;
use aeolus::common::unit::Unit;
use aeolus::common::unit::UnitParseError;

#[test]
fn unit_unit_from_string() {
    let unit = Unit::from_str("kg^2/m^3*s/K").unwrap();
    assert_eq!(unit, Unit::new([2, -3, 1, -1]));
}

#[test]
fn unit_unit_from_string_failure() {
    let unit = Unit::from_str("kg/m/d");
    assert_eq!(unit, Err(UnitParseError { unit: "kg/m/d".to_string() }));
}

#[test]
fn number_unit_from_string() {
    let unit = Unit::from_str("kg^2/m^3*s").unwrap();
    assert_eq!(unit, Unit::new([2, -3, 1, 0]));
}

#[test]
fn number_unit_from_string_failure() {
    let unit = Unit::from_str("kg/m/d");
    assert_eq!(unit, Err(UnitParseError { unit: "kg/m/d".to_string() }));
}

#[test]
fn division_lasts_until_the_next_product() {
    assert_eq!(Unit::from_str("kg/ms").unwrap().powers(), [1, -1, -1, 0]);
    assert_eq!(Unit::from_str("kg/m*s").unwrap().powers(), [1, -1, 1, 0]);
}

#[test]
fn unit_text_must_hold_a_step() {
    assert!(Unit::from_str("").is_err());
    assert!(Unit::from_str("m^").is_err());
    assert!(Unit::from_str("m^x").is_err());
    assert!(Unit::from_str("k").is_err());
}

#[test]
fn powers_that_leave_a_byte_are_refused() {
    let mut text = String::new();
    for _ in 0..14 {
        text.push_str("m^9");
    }
    assert_eq!(Unit::from_str(&text).unwrap().powers(), [0, 126, 0, 0]);
    text.push_str("m^9");
    assert!(Unit::from_str(&text).is_err());
}

#[test]
fn reference_values_must_fix_each_base_unit_once() {
    let unit = |text: &str| Unit::from_str(text).unwrap();
    assert_eq!(count_units(&[unit("m"), unit("m/s"), unit("kg/m^3")]), Ok(vec![0, 1, 2]));
    assert_eq!(count_units(&[unit("kg"), unit("s"), unit("K")]), Ok(vec![0, 2, 3]));
    assert_eq!(
        count_units(&[unit("kg/m^3"), unit("m/s")]),
        Err(RefDimError::UnderConstrained)
    );
    assert_eq!(
        count_units(&[unit("kg/m^3"), unit("m/s"), unit("m"), unit("kg")]),
        Err(RefDimError::OverConstrained)
    );
    assert_eq!(count_units(&[]), Ok(vec![]));
    assert_eq!(count_units(&[unit("m/m")]), Err(RefDimError::OverConstrained));
}
