use litelearn::datetime::{parse_datetime, DateTimeValue};

fn dt(year: u16, month: u8, day: u8, hour: u8, minute: u8, second: u8) -> Option<DateTimeValue> {
    Some(DateTimeValue { year, month, day, hour, minute, second })
}

#[test]
fn full_timestamp() {
    assert_eq!(parse_datetime("2024-09-20 12:34:56"), dt(2024, 9, 20, 12, 34, 56));
    assert_eq!(parse_datetime("  2024-09-20 12:34:56\t"), dt(2024, 9, 20, 12, 34, 56));
}

#[test]
fn date_only_is_midnight() {
    assert_eq!(parse_datetime("2024-09-20"), dt(2024, 9, 20, 0, 0, 0));
}

#[test]
fn blank_or_unreadable_is_none() {
    assert_eq!(parse_datetime(""), None);
    assert_eq!(parse_datetime("   "), None);
    assert_eq!(parse_datetime("yesterday"), None);
    assert_eq!(parse_datetime("2024-09"), None);
    assert_eq!(parse_datetime("2024-09-20-01 10:00:00"), None);
}

#[test]
fn unreadable_pieces_are_left_out() {
    assert_eq!(parse_datetime("2024-xx-09-20 1:2"), dt(2024, 9, 20, 1, 2, 0));
    assert_eq!(parse_datetime("2024-09-20 aa:30:40"), dt(2024, 9, 20, 30, 40, 0));
}

#[test]
fn numbers_are_cut_to_their_width() {
    assert_eq!(parse_datetime("70000-300-20 256:01:02"), dt(70000u32 as u16, 300u32 as u8, 20, 0, 1, 2));
}
