use provider_data::code::{check_code, read_code, EraCode};
use provider_data::week::{IsoWeekday, WeekDataV1};

#[test]
fn code_from_name() {
    let code = EraCode::new("heisei").unwrap();
    assert_eq!(code.as_str(), "heisei");
    assert_eq!(code.len(), 6);
    assert_eq!(&code.all_bytes(), b"heisei\0\0\0\0\0\0\0\0\0\0");
    let full = EraCode::new("abcdefghijklmnop").unwrap();
    assert_eq!(full.len(), 16);
    assert_eq!(full.as_str(), "abcdefghijklmnop");
    let empty = EraCode::new("").unwrap();
    assert_eq!(empty.len(), 0);
    assert_eq!(empty.as_str(), "");
}

#[test]
fn code_refuses_bad_names() {
    assert_eq!(EraCode::new("abcdefghijklmnopq"), None);
    assert_eq!(EraCode::new("sh\u{14d}wa"), None);
    assert_eq!(EraCode::new("a\0b"), None);
    assert_eq!(EraCode::new("ab\0"), None);
}

#[test]
fn code_from_raw_bytes() {
    let code = EraCode::try_from_raw(*b"meiji\0\0\0\0\0\0\0\0\0\0\0").unwrap();
    assert_eq!(code, EraCode::new("meiji").unwrap());
    assert_eq!(EraCode::try_from_raw([0u8; 16]).unwrap().as_str(), "");
    assert_eq!(EraCode::try_from_raw(*b"\0a\0\0\0\0\0\0\0\0\0\0\0\0\0\0"), None);
    assert_eq!(EraCode::try_from_raw(*b"ab\0c\0\0\0\0\0\0\0\0\0\0\0\0"), None);
    assert_eq!(EraCode::try_from_raw([0xC3; 16]), None);
    let mut last_is_high = *b"abcdefghijklmnop";
    last_is_high[15] = 0x80;
    assert_eq!(EraCode::try_from_raw(last_is_high), None);
}

#[test]
fn code_in_a_buffer() {
    let mut bytes = vec![0xFFu8, 0xFF];
    bytes.extend_from_slice(b"showa\0\0\0\0\0\0\0\0\0\0\0");
    assert!(check_code(&bytes, 2));
    assert!(!check_code(&bytes, 0));
    assert_eq!(read_code(&bytes, 2).as_str(), "showa");
}

#[test]
fn week_data_domain() {
    let week = WeekDataV1 { first_weekday: IsoWeekday::Monday, min_week_days: 4 };
    assert!(week.is_valid());
    assert_eq!(week.first_weekday, IsoWeekday::Monday);
    assert!(WeekDataV1 { first_weekday: IsoWeekday::Sunday, min_week_days: 1 }.is_valid());
    assert!(WeekDataV1 { first_weekday: IsoWeekday::Saturday, min_week_days: 7 }.is_valid());
    assert!(!WeekDataV1 { first_weekday: IsoWeekday::Sunday, min_week_days: 0 }.is_valid());
    assert!(!WeekDataV1 { first_weekday: IsoWeekday::Sunday, min_week_days: 8 }.is_valid());
}
