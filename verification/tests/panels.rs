use weatherapp::dashboard::{current_summary, hour_axis_labels, next_exit_state};
use weatherapp::opm::{opm_report_lines, showopm};

#[test]
fn showopm_lists_status_location_and_messages() {
    assert_eq!(
        showopm("Washington, DC", "Open", "On time", "Operating"),
        vec![
            "Status: Operating",
            "Location: Washington, DC",
            "Information: Open",
            "Extended: On time"
        ]
    );
}

#[test]
fn opm_report_lines_frames_the_report() {
    assert_eq!(
        opm_report_lines("DC", "Open", "More", "Open"),
        vec![
            "",
            "---- OPM Status ----",
            "Location: DC",
            "Status: Open",
            "Information: Open",
            "Extended:More",
            ""
        ]
    );
}

#[test]
fn next_exit_state_quits_on_q_only() {
    assert!(next_exit_state(false, Some('q')));
    assert!(!next_exit_state(false, Some('Q')));
    assert!(!next_exit_state(false, None));
    assert!(next_exit_state(true, Some('x')));
    assert!(next_exit_state(true, None));
}

#[test]
fn current_summary_fills_placeholders() {
    assert_eq!(
        current_summary(&vec![]),
        ("--°".to_string(), "--:--:--".to_string())
    );
    assert_eq!(
        current_summary(&vec!["70°".to_string()]),
        ("70°".to_string(), "--:--:--".to_string())
    );
    assert_eq!(
        current_summary(&vec!["70°".to_string(), "14:00:00".to_string()]),
        ("70°".to_string(), "14:00:00".to_string())
    );
}

#[test]
fn hour_axis_labels_take_one_label_per_point() {
    let times = vec![
        "70° at 13:00:00".to_string(),
        "71° at 14:00:00".to_string(),
        "72° at 15:00:00".to_string(),
    ];
    assert_eq!(hour_axis_labels(&times, 2), vec!["1PM", "2PM"]);
    assert_eq!(hour_axis_labels(&times, 9), vec!["1PM", "2PM", "3PM"]);
}
