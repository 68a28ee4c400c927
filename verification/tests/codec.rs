use core::cmp::Ordering;
use provider_data::code::EraCode;
use provider_data::codec::{read_at, validate, InvalidLayout, Record};
use provider_data::date::EraStartDate;
use provider_data::era::EraEntry;
use provider_data::ints::{read_i32, read_u32, write_i32, write_u32};
use provider_data::sequence::Sequence;

#[test]
fn date_is_written_year_first_low_byte_first() {
    let date = EraStartDate { year: 1989, month: 1, day: 8 };
    assert_eq!(date.write(), [0xC5, 0x07, 0x00, 0x00, 1, 8]);
    let date = EraStartDate { year: -100, month: 12, day: 31 };
    assert_eq!(date.write(), [0x9C, 0xFF, 0xFF, 0xFF, 12, 31]);
}

#[test]
fn date_round_trip() {
    for year in [i32::MIN, -100, -1, 0, 1, 255, 256, 1989, 65536, i32::MAX] {
        for month in [1u8, 6, 12] {
            for day in [1u8, 15, 31] {
                let date = EraStartDate { year, month, day };
                let bytes = date.write();
                assert_eq!(validate::<EraStartDate, 6>(&bytes), Ok(()));
                assert_eq!(read_at::<EraStartDate, 6>(&bytes, 0), date);
                assert_eq!(EraStartDate::read(&bytes, 0), date);
            }
        }
    }
}

#[test]
fn integers_round_trip() {
    for v in [0u32, 1, 255, 256, 0x1234_5678, 0x8000_0000, u32::MAX] {
        assert_eq!(write_u32(v), v.to_le_bytes());
        assert_eq!(read_u32(&write_u32(v), 0), v);
    }
    for v in [i32::MIN, -2, -1, 0, 1, 0x1234_5678, i32::MAX] {
        assert_eq!(write_i32(v), v.to_le_bytes());
        assert_eq!(read_i32(&write_i32(v), 0), v);
    }
    assert_eq!(read_u32(&[9, 0x78, 0x56, 0x34, 0x12], 1), 0x1234_5678);
    assert_eq!(7u8.write(), [7]);
    assert_eq!(u8::read(&[1, 2, 3], 2), 3);
}

#[test]
fn validate_refuses_partial_record() {
    assert_eq!(validate::<EraStartDate, 6>(&[0, 0, 0, 0, 1]), Err(InvalidLayout));
    assert_eq!(validate::<EraStartDate, 6>(&[0, 0, 0, 0, 1, 1, 0]), Err(InvalidLayout));
    assert_eq!(validate::<u32, 4>(&[0, 0, 0]), Err(InvalidLayout));
    assert_eq!(validate::<u32, 4>(&[]), Ok(()));
}

#[test]
fn validate_refuses_fields_out_of_domain() {
    assert_eq!(validate::<EraStartDate, 6>(&[0, 0, 0, 0, 12, 31]), Ok(()));
    assert_eq!(validate::<EraStartDate, 6>(&[0, 0, 0, 0, 13, 1]), Err(InvalidLayout));
    assert_eq!(validate::<EraStartDate, 6>(&[0, 0, 0, 0, 0, 1]), Err(InvalidLayout));
    assert_eq!(validate::<EraStartDate, 6>(&[0, 0, 0, 0, 1, 32]), Err(InvalidLayout));
    assert_eq!(validate::<EraStartDate, 6>(&[0, 0, 0, 0, 1, 0]), Err(InvalidLayout));
    let second_is_bad = [0, 0, 0, 0, 1, 1, 0, 0, 0, 0, 1, 40];
    assert_eq!(validate::<EraStartDate, 6>(&second_is_bad), Err(InvalidLayout));
}

#[test]
fn entry_is_date_then_code() {
    let entry = EraEntry {
        start: EraStartDate { year: 2019, month: 5, day: 1 },
        code: EraCode::new("reiwa").unwrap(),
    };
    let bytes = entry.write();
    assert_eq!(&bytes[..6], &[0xE3, 0x07, 0, 0, 5, 1]);
    assert_eq!(&bytes[6..11], b"reiwa");
    assert_eq!(&bytes[11..], &[0u8; 11]);
    assert!(EraEntry::check(&bytes, 0));
    assert_eq!(EraEntry::read(&bytes, 0), entry);
}

#[test]
fn sequence_len_and_get() {
    let bytes = [1, 0, 0, 0, 2, 0, 0, 0, 0, 1, 0, 0];
    let sequence = Sequence::<u32, 4>::from_bytes(&bytes).unwrap();
    assert_eq!(sequence.len(), 3);
    assert!(!sequence.is_empty());
    assert_eq!(sequence.get(0), Some(1));
    assert_eq!(sequence.get(1), Some(2));
    assert_eq!(sequence.get(2), Some(256));
    assert_eq!(sequence.get(3), None);
    assert_eq!(sequence.to_vec(), vec![1, 2, 256]);
    assert_eq!(sequence.to_vec(), vec![1, 2, 256]);
    assert_eq!(sequence.as_bytes(), &bytes[..]);
    let copy = sequence;
    assert_eq!(copy, sequence.clone());
}

#[test]
fn sequence_refuses_malformed_buffer() {
    assert_eq!(Sequence::<u32, 4>::from_bytes(&[1, 2, 3]).err(), Some(InvalidLayout));
    assert_eq!(
        Sequence::<EraStartDate, 6>::from_bytes(&[0, 0, 0, 0, 13, 1]).err(),
        Some(InvalidLayout)
    );
    assert!(Sequence::<u32, 4>::from_bytes(&[]).unwrap().is_empty());
}

#[test]
fn sequence_binary_search() {
    let mut bytes = Vec::new();
    for v in [10u32, 20, 30, 40, 50] {
        bytes.extend_from_slice(&v.write());
    }
    let sequence = Sequence::<u32, 4>::from_bytes(&bytes).unwrap();
    assert_eq!(sequence.binary_search_by(|v| v.cmp(&30)), Ok(2));
    assert_eq!(sequence.binary_search_by(|v| v.cmp(&10)), Ok(0));
    assert_eq!(sequence.binary_search_by(|v| v.cmp(&50)), Ok(4));
    assert_eq!(sequence.binary_search_by(|v| v.cmp(&5)), Err(0));
    assert_eq!(sequence.binary_search_by(|v| v.cmp(&35)), Err(3));
    assert_eq!(sequence.binary_search_by(|v| v.cmp(&99)), Err(5));
    let empty = Sequence::<u32, 4>::from_bytes(&[]).unwrap();
    assert_eq!(empty.binary_search_by(|v| v.cmp(&1)), Err(0));
}

#[test]
fn sequence_binary_search_among_equals() {
    let mut bytes = Vec::new();
    for v in [1u32, 7, 7, 7, 9] {
        bytes.extend_from_slice(&v.write());
    }
    let sequence = Sequence::<u32, 4>::from_bytes(&bytes).unwrap();
    let found = sequence.binary_search_by(|v| v.cmp(&7)).unwrap();
    assert!((1..=3).contains(&found));
    assert_eq!(sequence.get(found), Some(7));
}

#[test]
fn dates_compare_by_year_then_month_then_day() {
    let a = EraStartDate { year: 1989, month: 1, day: 8 };
    let b = EraStartDate { year: 1989, month: 1, day: 9 };
    let c = EraStartDate { year: 1989, month: 2, day: 1 };
    let d = EraStartDate { year: 1990, month: 1, day: 1 };
    let e = EraStartDate { year: -5, month: 12, day: 31 };
    assert_eq!(a.compare(&b), Ordering::Less);
    assert_eq!(b.compare(&c), Ordering::Less);
    assert_eq!(c.compare(&d), Ordering::Less);
    assert_eq!(d.compare(&a), Ordering::Greater);
    assert_eq!(e.compare(&a), Ordering::Less);
    assert_eq!(a.compare(&a), Ordering::Equal);
    assert!(a.is_before(&b) && !b.is_before(&a) && !a.is_before(&a));
    assert_eq!(a.partial_cmp(&b), Some(a.cmp(&b)));
    assert_eq!(d.partial_cmp(&c), Some(d.cmp(&c)));
    assert_eq!(c.partial_cmp(&c), Some(c.cmp(&c)));
    assert!(a < b && b < c && c < d && e < a);
}
