use provider_data::code::EraCode;
use provider_data::codec::{InvalidLayout, Record};
use provider_data::date::EraStartDate;
use provider_data::era::{EraEntry, EraTable, JapaneseErasV1, NoEraCovers};

fn date(year: i32, month: u8, day: u8) -> EraStartDate {
    EraStartDate { year, month, day }
}

fn table_bytes(rows: &[(EraStartDate, &str)]) -> Vec<u8> {
    let mut bytes = Vec::new();
    for (start, name) in rows {
        let entry = EraEntry { start: *start, code: EraCode::new(name).unwrap() };
        bytes.extend_from_slice(&entry.write());
    }
    bytes
}

fn modern_eras() -> Vec<u8> {
    table_bytes(&[
        (date(1868, 1, 1), "meiji"),
        (date(1912, 7, 30), "taisho"),
        (date(1926, 12, 25), "showa"),
        (date(1989, 1, 8), "heisei"),
    ])
}

#[test]
fn resolve_inside_last_era() {
    let bytes = modern_eras();
    let table = EraTable::load(&bytes).unwrap();
    assert_eq!(table.resolve(date(1990, 5, 5)).unwrap().as_str(), "heisei");
}

#[test]
fn resolve_on_start_date_gives_that_era() {
    let bytes = modern_eras();
    let table = EraTable::load(&bytes).unwrap();
    assert_eq!(table.resolve(date(1912, 7, 30)).unwrap().as_str(), "taisho");
    assert_eq!(table.resolve(date(1912, 7, 29)).unwrap().as_str(), "meiji");
    assert_eq!(table.resolve(date(1868, 1, 1)).unwrap().as_str(), "meiji");
    assert_eq!(table.resolve(date(1989, 1, 8)).unwrap().as_str(), "heisei");
    assert_eq!(table.resolve(date(1989, 1, 7)).unwrap().as_str(), "showa");
}

#[test]
fn resolve_before_first_era_fails() {
    let bytes = modern_eras();
    let table = EraTable::load(&bytes).unwrap();
    assert_eq!(table.resolve(date(1800, 1, 1)), Err(NoEraCovers));
    assert_eq!(table.resolve(date(1867, 12, 31)), Err(NoEraCovers));
}

#[test]
fn resolve_equals_linear_scan() {
    let bytes = modern_eras();
    let table = EraTable::load(&bytes).unwrap();
    let entries = table.to_vec();
    for year in 1860..2000 {
        for (month, day) in [(1u8, 1u8), (1, 7), (1, 8), (7, 29), (7, 30), (12, 25), (12, 31)] {
            let query = date(year, month, day);
            let mut expected: Option<EraCode> = None;
            for entry in &entries {
                if entry.start <= query {
                    expected = Some(entry.code);
                }
            }
            assert_eq!(table.resolve(query).ok(), expected);
        }
    }
}

#[test]
fn resolve_on_empty_table_fails() {
    let table = EraTable::load(&[]).unwrap();
    assert_eq!(table.len(), 0);
    assert_eq!(table.resolve(date(2000, 1, 1)), Err(NoEraCovers));
    assert_eq!(EraTable::empty().len(), 0);
    assert_eq!(JapaneseErasV1::default().dates_to_eras.len(), 0);
}

#[test]
fn table_entries_ascend() {
    let bytes = modern_eras();
    let table = EraTable::load(&bytes).unwrap();
    assert_eq!(table.len(), 4);
    for i in 0..table.len() - 1 {
        assert!(table.get(i).unwrap().start < table.get(i + 1).unwrap().start);
    }
    assert_eq!(table.get(4), None);
    assert_eq!(table.get(0).unwrap().code.as_str(), "meiji");
    assert_eq!(table.as_bytes(), &bytes[..]);
}

#[test]
fn table_out_of_order_is_refused() {
    let bytes = table_bytes(&[(date(1912, 7, 30), "taisho"), (date(1868, 1, 1), "meiji")]);
    assert_eq!(EraTable::load(&bytes).err(), Some(InvalidLayout));
}

#[test]
fn table_with_equal_start_dates_is_refused() {
    let bytes = table_bytes(&[(date(1912, 7, 30), "taisho"), (date(1912, 7, 30), "other")]);
    assert_eq!(EraTable::load(&bytes).err(), Some(InvalidLayout));
}

#[test]
fn table_of_wrong_length_is_refused() {
    let mut bytes = modern_eras();
    bytes.pop();
    assert_eq!(EraTable::load(&bytes).err(), Some(InvalidLayout));
    assert_eq!(EraTable::load(&[0u8; 21]).err(), Some(InvalidLayout));
}

#[test]
fn table_with_month_out_of_domain_is_refused() {
    let mut bytes = modern_eras();
    bytes[4] = 13;
    assert_eq!(EraTable::load(&bytes).err(), Some(InvalidLayout));
    let mut bytes = modern_eras();
    bytes[22 + 5] = 0;
    assert_eq!(EraTable::load(&bytes).err(), Some(InvalidLayout));
}

#[test]
fn table_with_broken_code_is_refused() {
    let mut bytes = modern_eras();
    bytes[6] = 0x80;
    assert_eq!(EraTable::load(&bytes).err(), Some(InvalidLayout));
    let mut bytes = modern_eras();
    // a zero byte inside the name
    bytes[6 + 1] = 0;
    assert_eq!(EraTable::load(&bytes).err(), Some(InvalidLayout));
}

#[test]
fn negative_years_sort_first() {
    let bytes = table_bytes(&[(date(-660, 2, 11), "bce"), (date(1, 1, 1), "ce")]);
    let table = EraTable::load(&bytes).unwrap();
    assert_eq!(table.resolve(date(-100, 6, 1)).unwrap().as_str(), "bce");
    assert_eq!(table.resolve(date(-660, 2, 10)), Err(NoEraCovers));
    assert_eq!(table.resolve(date(2024, 1, 1)).unwrap().as_str(), "ce");
}

#[test]
fn data_struct_holds_the_table() {
    let bytes = modern_eras();
    let data = JapaneseErasV1 { dates_to_eras: EraTable::load(&bytes).unwrap() };
    let copy = data.clone();
    assert_eq!(data, copy);
    assert_eq!(copy.dates_to_eras.resolve(date(1950, 1, 1)).unwrap().as_str(), "showa");
}
