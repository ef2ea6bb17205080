use weatherapp::weather::{
    clock_of_reading, current_clock, get_hourly_slots, hour_to_label, label_from_hourly_string,
    select_upcoming_hours, upcoming_from_readings, MinuteStamp, NowStamp, StampReading,
};

#[test]
fn label_from_hourly_string_parses_formatted() {
    assert_eq!(label_from_hourly_string("72.5° at 14:00:00"), "2PM");
    assert_eq!(label_from_hourly_string("68.0° at 0:00:00"), "12AM");
    assert_eq!(label_from_hourly_string("80.0° at 12:30:00"), "12PM");
    assert_eq!(label_from_hourly_string("75.0° at 9:45:00"), "9AM");
}

#[test]
fn label_from_hourly_string_invalid_returns_question() {
    assert_eq!(label_from_hourly_string("no time here"), "?");
    assert_eq!(label_from_hourly_string(""), "?");
}

#[test]
fn label_from_hourly_string_uses_last_marker_and_defaults_to_midnight() {
    assert_eq!(label_from_hourly_string("x at 3:00 at 17:00:00"), "5PM");
    assert_eq!(label_from_hourly_string("70° at noon"), "12AM");
    assert_eq!(label_from_hourly_string("70° at 23"), "11PM");
    assert_eq!(label_from_hourly_string("70° at +7:00"), "7AM");
}

#[test]
fn hour_to_label_covers_the_day() {
    assert_eq!(hour_to_label(0), "12AM");
    assert_eq!(hour_to_label(1), "1AM");
    assert_eq!(hour_to_label(11), "11AM");
    assert_eq!(hour_to_label(12), "12PM");
    assert_eq!(hour_to_label(13), "1PM");
    assert_eq!(hour_to_label(23), "11PM");
    assert_eq!(hour_to_label(24), "12PM");
}

#[test]
fn current_clock_reads_forecast_stamp() {
    assert_eq!(current_clock("2024-07-04T14:30"), Some("14:30:00".to_string()));
    assert_eq!(current_clock("2024-07-04T09:05"), Some("09:05:00".to_string()));
    assert_eq!(current_clock("not a time"), None);
    assert_eq!(current_clock("2024-13-04T09:05"), None);
}

#[test]
fn hourly_line_label_reads_back_its_hour() {
    for hour in [0u32, 7, 12, 19, 23] {
        let clock = current_clock(&format!("2024-07-04T{:02}:15", hour)).unwrap();
        let line = format!("61.5° at {}", clock);
        assert_eq!(label_from_hourly_string(&line), hour_to_label(hour));
    }
}

fn now_at(hour: u32, minute: u32, second: u32, nanosecond: u32) -> NowStamp {
    NowStamp { year: 2024, month: 7, day: 4, hour, minute, second, nanosecond }
}

#[test]
fn select_upcoming_hours_keeps_later_hours_of_today() {
    let hourly = vec![
        "2024-07-04T09:00".to_string(),
        "2024-07-04T10:00".to_string(),
        "2024-07-04T11:00".to_string(),
        "2024-07-05T11:00".to_string(),
        "2024-07-04T12:00".to_string(),
    ];
    let slots = select_upcoming_hours(&hourly, 10, &now_at(10, 0, 0, 0)).unwrap();
    let seen: Vec<(usize, String)> = slots.into_iter().map(|s| (s.index, s.clock)).collect();
    assert_eq!(
        seen,
        vec![
            (1, "10:00:00".to_string()),
            (2, "11:00:00".to_string()),
            (4, "12:00:00".to_string())
        ]
    );
    let slots = select_upcoming_hours(&hourly, 3, &now_at(10, 0, 0, 5)).unwrap();
    let seen: Vec<usize> = slots.into_iter().map(|s| s.index).collect();
    assert_eq!(seen, vec![2]);
    let slots = select_upcoming_hours(&hourly, 10, &now_at(10, 0, 1, 0)).unwrap();
    assert_eq!(slots.len(), 2);
}

#[test]
fn select_upcoming_hours_refuses_unreadable_stamps_within_limit() {
    let hourly = vec!["2024-07-04T09:00".to_string(), "garbage".to_string()];
    assert!(select_upcoming_hours(&hourly, 2, &now_at(8, 0, 0, 0)).is_none());
    let slots = select_upcoming_hours(&hourly, 1, &now_at(8, 0, 0, 0)).unwrap();
    assert_eq!(slots.len(), 1);
}

#[test]
fn get_hourly_slots_skips_days_long_past() {
    let hourly = vec!["2000-01-01T12:00".to_string(), "2000-01-01T13:00".to_string()];
    let slots = get_hourly_slots(&hourly, 2).unwrap();
    assert!(slots.is_empty());
    assert!(get_hourly_slots(&vec!["bad".to_string()], 1).is_none());
    assert!(get_hourly_slots(&vec!["bad".to_string()], 0).unwrap().is_empty());
}

fn reading(day: u32, hour: u32, minute: u32, unambiguous: bool) -> Option<StampReading> {
    Some(StampReading {
        stamp: MinuteStamp { year: 2024, month: 7, day, hour, minute },
        unambiguous,
    })
}

#[test]
fn upcoming_from_readings_needs_every_reading_usable() {
    let readings = vec![reading(4, 9, 0, true), reading(4, 11, 30, true), reading(5, 12, 0, true)];
    let slots = upcoming_from_readings(&readings, &now_at(10, 0, 0, 0)).unwrap();
    let seen: Vec<(usize, String)> = slots.into_iter().map(|s| (s.index, s.clock)).collect();
    assert_eq!(seen, vec![(1, "11:30:00".to_string())]);
    let ambiguous = vec![reading(4, 11, 0, true), reading(4, 12, 0, false)];
    assert!(upcoming_from_readings(&ambiguous, &now_at(10, 0, 0, 0)).is_none());
    let unreadable = vec![None, reading(4, 12, 0, true)];
    assert!(upcoming_from_readings(&unreadable, &now_at(10, 0, 0, 0)).is_none());
    assert!(upcoming_from_readings(&vec![], &now_at(10, 0, 0, 0)).unwrap().is_empty());
}

#[test]
fn clock_of_reading_shows_usable_readings_only() {
    assert_eq!(clock_of_reading(&reading(4, 7, 5, true)), Some("07:05:00".to_string()));
    assert_eq!(clock_of_reading(&reading(4, 7, 5, false)), None);
    assert_eq!(clock_of_reading(&None), None);
}
