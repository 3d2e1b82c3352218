use visual_diff::region::{Region, RegionError};

#[test]
fn test_region_contains() {
    let region = Region { x: 10, y: 10, width: 20, height: 20 };
    assert!(region.contains(10, 10));
    assert!(region.contains(29, 29));
    assert!(!region.contains(9, 10));
    assert!(!region.contains(30, 30));
}

#[test]
fn region_edges_are_half_open() {
    let region = Region { x: 10, y: 10, width: 20, height: 20 };
    assert!(region.contains(29, 10));
    assert!(region.contains(10, 29));
    assert!(!region.contains(30, 10));
    assert!(!region.contains(10, 30));
    assert!(!region.contains(10, 9));
}

#[test]
fn empty_region_contains_nothing() {
    let flat = Region { x: 3, y: 3, width: 0, height: 5 };
    let thin = Region { x: 3, y: 3, width: 5, height: 0 };
    assert!(!flat.contains(3, 3));
    assert!(!thin.contains(3, 3));
}

#[test]
fn region_at_the_far_corner_does_not_wrap() {
    let region = Region { x: u32::MAX - 1, y: u32::MAX - 1, width: 5, height: 5 };
    assert!(region.contains(u32::MAX, u32::MAX));
    assert!(region.contains(u32::MAX - 1, u32::MAX));
    assert!(!region.contains(0, 0));
    assert!(!region.contains(u32::MAX - 2, u32::MAX));
}

#[test]
fn region_parses_four_numbers() {
    assert_eq!(
        Region::parse("10,10,20,20"),
        Ok(Region { x: 10, y: 10, width: 20, height: 20 })
    );
    assert_eq!(
        Region::parse("0,4294967295,007,+5"),
        Ok(Region { x: 0, y: 4294967295, width: 7, height: 5 })
    );
}

#[test]
fn region_parses_through_from_str() {
    let region: Result<Region, RegionError> = "5,5,1,1".parse();
    assert_eq!(region, Ok(Region { x: 5, y: 5, width: 1, height: 1 }));
    let refused: Result<Region, RegionError> = "5,5,1".parse();
    assert_eq!(refused, Err(RegionError::WrongArity));
}

#[test]
fn region_with_wrong_arity_is_refused() {
    assert_eq!(Region::parse("1,2,3"), Err(RegionError::WrongArity));
    assert_eq!(Region::parse("1,2,3,4,5"), Err(RegionError::WrongArity));
    assert_eq!(Region::parse("7"), Err(RegionError::WrongArity));
}

#[test]
fn region_with_an_empty_part_is_refused() {
    assert_eq!(Region::parse(""), Err(RegionError::Empty));
    assert_eq!(Region::parse("1,,3,4"), Err(RegionError::Empty));
    assert_eq!(Region::parse("1,2,3,"), Err(RegionError::Empty));
    assert_eq!(Region::parse(",1,2,3"), Err(RegionError::Empty));
}

#[test]
fn region_with_a_bad_digit_is_refused() {
    assert_eq!(Region::parse("1,a,3,4"), Err(RegionError::InvalidDigit));
    assert_eq!(Region::parse("1, 2,3,4"), Err(RegionError::InvalidDigit));
    assert_eq!(Region::parse("-1,2,3,4"), Err(RegionError::InvalidDigit));
    assert_eq!(Region::parse("+,2,3,4"), Err(RegionError::InvalidDigit));
    assert_eq!(Region::parse("-,2,3,4"), Err(RegionError::InvalidDigit));
    assert_eq!(Region::parse("++1,2,3,4"), Err(RegionError::InvalidDigit));
    assert_eq!(Region::parse("1.5,2,3,4"), Err(RegionError::InvalidDigit));
    assert_eq!(Region::parse("1,2,3,4\u{e9}"), Err(RegionError::InvalidDigit));
}

#[test]
fn region_with_a_huge_number_is_refused() {
    assert_eq!(Region::parse("4294967296,0,0,0"), Err(RegionError::Overflow));
    assert_eq!(Region::parse("0,0,0,99999999999999999999999"), Err(RegionError::Overflow));
}

#[test]
fn first_bad_part_decides_the_error() {
    assert_eq!(Region::parse("1,2,3,4,x"), Err(RegionError::InvalidDigit));
    assert_eq!(Region::parse("x,"), Err(RegionError::InvalidDigit));
    assert_eq!(Region::parse(",x"), Err(RegionError::Empty));
    assert_eq!(Region::parse("99999999999x,1"), Err(RegionError::Overflow));
    assert_eq!(Region::parse("12x99999999999,1"), Err(RegionError::InvalidDigit));
}

#[test]
fn region_parsing_agrees_with_the_standard_integer_parser() {
    let samples = [
        "1,2,3,4", "+1,+2,+3,+4", "a,2,3,4", "1,2,3", "", ",", "1,,2", "4294967295,1,1,1",
        "4294967296,1,1,1", "00000000000001,2,3,4", " 1,2,3,4", "1,2,3,4 ", "1,2,3,-4", "+,1,2,3",
    ];
    for text in samples {
        let parts: Result<Vec<u32>, std::num::ParseIntError> =
            text.split(',').map(|part| part.parse::<u32>()).collect();
        let expected = match parts {
            Ok(numbers) if numbers.len() == 4 => Some(Region {
                x: numbers[0],
                y: numbers[1],
                width: numbers[2],
                height: numbers[3],
            }),
            _ => None,
        };
        assert_eq!(Region::parse(text).ok(), expected);
    }
}
