use time_tracker::date::Date;
use time_tracker::display::{chart_data, date_label, day_label, DisplayData, TimeFrame};
use time_tracker::store::{InputLine, Storage};
use time_tracker::utils::{format_time_countdown, format_time_timer};

fn d(year: i64, month: u8, day: u8) -> Date {
    Date { year, month, day }
}

#[test]
fn timer_format_exact_values() {
    assert_eq!(format_time_timer(0), "00:00:00");
    assert_eq!(format_time_timer(59), "00:00:59");
    assert_eq!(format_time_timer(60), "00:01:00");
    assert_eq!(format_time_timer(3600), "01:00:00");
    assert_eq!(format_time_timer(3661), "01:01:01");
    assert_eq!(format_time_timer(86399), "23:59:59");
    assert_eq!(format_time_timer(360000), "100:00:00");
}

#[test]
fn countdown_format_shows_remaining() {
    assert_eq!(format_time_countdown(0, 90), "00:01:30");
    assert_eq!(format_time_countdown(10, 70), "00:01:00");
    assert_eq!(format_time_countdown(1500, 1500), "00:00:00");
    assert_eq!(format_time_countdown(0, 1500), "00:25:00");
}

#[test]
fn date_labels() {
    assert_eq!(date_label(d(2022, 1, 1)), "1-1-2022");
    assert_eq!(date_label(d(2022, 11, 30)), "30-11-2022");
    assert_eq!(day_label(d(2022, 11, 5)), "05");
    assert_eq!(day_label(d(2022, 11, 30)), "30");
}

#[test]
fn display_data_carries_labels_and_counts() {
    let storage = Storage::build("21-10-2022,8\n11-11-2022,10").unwrap();
    let rows = storage.get_previous(d(2022, 11, 11), 3);
    let display = DisplayData::build(TimeFrame::Past30, &rows);
    assert_eq!(display.data.len(), 3);
    assert_eq!(display.data[0], (String::from("9-11-2022"), 0));
    assert_eq!(display.data[1], (String::from("10-11-2022"), 0));
    assert_eq!(display.data[2], (String::from("11-11-2022"), 10));
}

#[test]
fn chart_data_uses_two_digit_days() {
    let rows = vec![
        InputLine { date: d(2022, 11, 5), blocks: 2 },
        InputLine { date: d(2022, 11, 30), blocks: 7 },
    ];
    let chart = chart_data(&rows);
    assert_eq!(chart.len(), 2);
    assert_eq!(chart[0], (String::from("05"), 2));
    assert_eq!(chart[1], (String::from("30"), 7));
}
