use provider_data::date::EraStartDate;
use std::str::FromStr;

fn date(year: i32, month: u8, day: u8) -> EraStartDate {
    EraStartDate { year, month, day }
}

#[test]
fn parse_negative_year() {
    assert_eq!(EraStartDate::from_str("-100-01-01"), Ok(date(-100, 1, 1)));
}

#[test]
fn parse_rejects_text_without_fields() {
    assert_eq!(EraStartDate::from_str("abc"), Err(()));
}

#[test]
fn parse_plain_dates() {
    assert_eq!(EraStartDate::from_str("1989-01-08"), Ok(date(1989, 1, 8)));
    assert_eq!(EraStartDate::from_str("1868-1-1"), Ok(date(1868, 1, 1)));
    assert_eq!(EraStartDate::from_str("0-0-0"), Ok(date(0, 0, 0)));
    assert_eq!(EraStartDate::from_str("-0-1-1"), Ok(date(0, 1, 1)));
    assert_eq!(EraStartDate::from_str("000002019-005-001"), Ok(date(2019, 5, 1)));
    assert_eq!(EraStartDate::from_str("2147483647-255-255"), Ok(date(i32::MAX, 255, 255)));
    assert_eq!(EraStartDate::from_str("-2147483647-12-31"), Ok(date(-i32::MAX, 12, 31)));
}

#[test]
fn parse_through_the_trait() {
    assert_eq!("1926-12-25".parse::<EraStartDate>(), Ok(date(1926, 12, 25)));
    assert_eq!(<EraStartDate as FromStr>::from_str("-660-02-11"), Ok(date(-660, 2, 11)));
    assert_eq!("1926-12".parse::<EraStartDate>(), Err(()));
}

#[test]
fn parse_accepts_plus_signs() {
    assert_eq!(EraStartDate::from_str("+5-+6-+7"), Ok(date(5, 6, 7)));
    assert_eq!(EraStartDate::from_str("-+5-6-7"), Ok(date(-5, 6, 7)));
}

#[test]
fn parse_reads_three_fields_only() {
    assert_eq!(EraStartDate::from_str("2000-01-02-xyz"), Ok(date(2000, 1, 2)));
    assert_eq!(EraStartDate::from_str("2000-01-02-"), Ok(date(2000, 1, 2)));
}

#[test]
fn parse_rejects_missing_fields() {
    for text in ["", "-", "2000", "2000-01", "2000-", "2000-01-", "-2000-01", "--", "---"] {
        assert_eq!(EraStartDate::from_str(text), Err(()), "{text:?}");
    }
}

#[test]
fn parse_rejects_fields_that_are_no_numbers() {
    for text in [
        "x-01-01",
        "2000-x-01",
        "2000-01-x",
        "20a0-01-01",
        " 2000-01-01",
        "2000-01-01 ",
        "2000- 1-01",
        "--100-01-01",
        "+-1-1-1",
        "++1-1-1",
        "+-1-1",
        "2000-01-0x1",
        "２０００-01-01",
    ] {
        assert_eq!(EraStartDate::from_str(text), Err(()), "{text:?}");
    }
}

#[test]
fn parse_rejects_numbers_out_of_range() {
    assert_eq!(EraStartDate::from_str("2147483648-01-01"), Err(()));
    assert_eq!(EraStartDate::from_str("-2147483648-01-01"), Err(()));
    assert_eq!(EraStartDate::from_str("99999999999999999999-01-01"), Err(()));
    assert_eq!(EraStartDate::from_str("2000-256-01"), Err(()));
    assert_eq!(EraStartDate::from_str("2000-01-256"), Err(()));
    assert_eq!(EraStartDate::from_str("2000-01-1000000000000000000000"), Err(()));
}

#[test]
fn parse_agrees_with_std_integers() {
    for year in ["0", "7", "+7", "007", "2147483647", "2147483648", "", "+", "1_0", "٣"] {
        for month in ["1", "+12", "255", "256", "", "0x1"] {
            let text = format!("{year}-{month}-31");
            let expected = match (year.parse::<i32>(), month.parse::<u8>()) {
                (Ok(y), Ok(m)) => Ok(date(y, m, 31)),
                _ => Err(()),
            };
            assert_eq!(EraStartDate::from_str(&text), expected, "{text:?}");
        }
    }
}

fn by_split(text: &str) -> Result<EraStartDate, ()> {
    let (sign, rest) = match text.strip_prefix('-') {
        Some(rest) => (-1, rest),
        None => (1, text),
    };
    let mut fields = rest.split('-');
    let year = fields.next().ok_or(())?.parse::<i32>().map_err(|_| ())? * sign;
    let month = fields.next().ok_or(())?.parse::<u8>().map_err(|_| ())?;
    let day = fields.next().ok_or(())?.parse::<u8>().map_err(|_| ())?;
    Ok(date(year, month, day))
}

#[test]
fn parse_agrees_with_splitting_at_dashes() {
    let alphabet = ['-', '+', '0', '1', '9', 'a'];
    let mut texts = vec![String::new()];
    let mut from = 0;
    for _ in 0..7 {
        let to = texts.len();
        for i in from..to {
            for c in alphabet {
                let mut longer = texts[i].clone();
                longer.push(c);
                texts.push(longer);
            }
        }
        from = to;
    }
    assert_eq!(texts.len(), 335_923);
    for text in &texts {
        assert_eq!(EraStartDate::from_str(text), by_split(text), "{text:?}");
    }
    for text in ["2147483647-255-255", "-2147483647-0-0", "2147483648-1-1", "1-256-1", "é-1-1"] {
        assert_eq!(EraStartDate::from_str(text), by_split(text), "{text:?}");
    }
}
