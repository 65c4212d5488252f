use daily_poweroff::calendar::{add_days, parse_date};

#[test]
fn parse_date_values_and_errors() {
    assert_eq!(parse_date("2026-05-25"), Ok((2026, 5, 25)));
    assert_eq!(parse_date("2026-5-7"), Ok((2026, 5, 7)));
    assert_eq!(parse_date("2026-02-31"), Ok((2026, 2, 31)));
    assert_eq!(
        parse_date("2026/05/25"),
        Err("invalid date: 2026/05/25; expected YYYY-MM-DD".to_string())
    );
    assert_eq!(
        parse_date("-2026-05-25"),
        Err("invalid date: -2026-05-25; expected YYYY-MM-DD".to_string())
    );
    assert_eq!(
        parse_date("20x6-05-25"),
        Err("invalid date year: 20x6-05-25".to_string())
    );
    assert_eq!(
        parse_date("2026-+-25"),
        Err("invalid date month: 2026-+-25".to_string())
    );
    assert_eq!(
        parse_date("2026-05-"),
        Err("invalid date day: 2026-05-".to_string())
    );
    assert_eq!(parse_date("2026-13-01"), Err("invalid date: 2026-13-01".to_string()));
    assert_eq!(parse_date("2026-00-01"), Err("invalid date: 2026-00-01".to_string()));
    assert_eq!(parse_date("2026-01-32"), Err("invalid date: 2026-01-32".to_string()));
}

#[test]
fn add_days_within_and_across_months() {
    assert_eq!(add_days("2026-05-25", 0), Ok("2026-05-25".to_string()));
    assert_eq!(add_days("2026-05-25", 1), Ok("2026-05-26".to_string()));
    assert_eq!(add_days("2026-05-31", 1), Ok("2026-06-01".to_string()));
    assert_eq!(add_days("2026-12-31", 1), Ok("2027-01-01".to_string()));
    assert_eq!(add_days("2024-02-28", 1), Ok("2024-02-29".to_string()));
    assert_eq!(add_days("2025-02-28", 1), Ok("2025-03-01".to_string()));
    assert_eq!(add_days("2000-02-28", 1), Ok("2000-02-29".to_string()));
    assert_eq!(add_days("2100-02-28", 1), Ok("2100-03-01".to_string()));
    assert_eq!(add_days("2026-03-01", -1), Ok("2026-02-28".to_string()));
    assert_eq!(add_days("1970-01-01", 0), Ok("1970-01-01".to_string()));
    assert_eq!(add_days("2026-01-01", 365), Ok("2027-01-01".to_string()));
}

#[test]
fn add_days_normalises_and_pads() {
    assert_eq!(add_days("2026-5-7", 0), Ok("2026-05-07".to_string()));
    assert_eq!(add_days("2026-02-31", 0), Ok("2026-03-03".to_string()));
    assert_eq!(add_days("2024-02-30", 0), Ok("2024-03-01".to_string()));
}

#[test]
fn add_days_errors() {
    assert_eq!(
        add_days("1969-12-31", 1),
        Err("failed to convert local time to epoch: 1969-12-31 12:00".to_string())
    );
    assert_eq!(
        add_days("2026-13-01", 1),
        Err("invalid date: 2026-13-01".to_string())
    );
}

#[test]
fn adding_days_in_two_steps_is_adding_their_sum() {
    let once = add_days("2026-05-25", 40).unwrap();
    assert_eq!(add_days(&once, 300), add_days("2026-05-25", 340));
    let back = add_days("2024-03-01", -1).unwrap();
    assert_eq!(back, "2024-02-29");
    assert_eq!(add_days(&back, 1), add_days("2024-03-01", 0));
}
