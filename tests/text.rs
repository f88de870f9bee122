use dirmtime::render::{format_line, render_line, root_path};
use dirmtime::report::Row;
use dirmtime::time::Timestamp;

fn row(path: &str, secs: i64, nanos: u32) -> Row {
    Row { path: path.to_string(), time: Timestamp { secs, nanos } }
}

#[test]
fn line_joins_path_and_time() {
    assert_eq!(format_line(&"./a".to_string(), &"x y".to_string()), "./a x y");
}

#[test]
fn whole_second_has_no_fraction() {
    assert_eq!(render_line(&row("./B", 1431648000, 0)), Some("./B 2015-05-15 00:00:00".to_string()));
}

#[test]
fn fraction_is_written() {
    assert_eq!(
        render_line(&row("./A", 1431648001, 500_000_000)),
        Some("./A 2015-05-15 00:00:01.500".to_string())
    );
    assert_eq!(
        render_line(&row("./A", 0, 123_456_789)),
        Some("./A 1970-01-01 00:00:00.123456789".to_string())
    );
}

#[test]
fn time_before_epoch_is_written() {
    assert_eq!(render_line(&row("p", -1, 0)), Some("p 1969-12-31 23:59:59".to_string()));
}

#[test]
fn time_out_of_calendar_range_is_not_written() {
    assert_eq!(render_line(&row("p", i64::MAX, 0)), None);
}

#[test]
fn root_defaults_to_current_directory() {
    assert_eq!(root_path(None), ".");
    assert_eq!(root_path(None), root_path(Some(".".to_string())));
    assert_eq!(root_path(Some("/tmp/x".to_string())), "/tmp/x");
}

#[test]
fn epoch_offsets() {
    assert_eq!(Timestamp::since_epoch(5, 7), Some(Timestamp { secs: 5, nanos: 7 }));
    assert_eq!(Timestamp::since_epoch(u64::MAX, 0), None);
    assert_eq!(Timestamp::before_epoch(2, 0), Some(Timestamp { secs: -2, nanos: 0 }));
    assert_eq!(Timestamp::before_epoch(2, 250_000_000), Some(Timestamp { secs: -3, nanos: 750_000_000 }));
    assert_eq!(Timestamp::before_epoch(1u64 << 63, 0), Some(Timestamp { secs: i64::MIN, nanos: 0 }));
    assert_eq!(Timestamp::before_epoch(1u64 << 63, 1), None);
}
