use weatherapp::wmata::{
    eta_display, eta_sort_key, format_station_lines, format_train_row, is_valid_station_code,
    load_config, normalize_destination, normalize_eta, parse_max_rows, parse_station_codes,
    prediction_endpoint, sort_trains, status_lines, EtaState, TrainInfo, Trains, WmataConfig, WmataReply,
    DEFAULT_MAX_ROWS, DEFAULT_STATION_CODE, DESTINATION_COL_WIDTH, MAX_ALLOWED_ROWS,
};
use weatherapp::wmata::{group_station_boards, station_endpoint, StationBoard};

fn train(location: &str, dest: &str, line: &str, min: &str) -> TrainInfo {
    TrainInfo {
        destination_name: dest.to_string(),
        line: line.to_string(),
        location_name: location.to_string(),
        min: min.to_string(),
    }
}

#[test]
fn eta_sort_orders_boarding_arriving_then_numeric() {
    assert!(eta_sort_key("BRD") < eta_sort_key("ARR"));
    assert!(eta_sort_key("ARR") < eta_sort_key("3"));
    assert!(eta_sort_key("3") < eta_sort_key("10"));
}

#[test]
fn normalize_destination_truncates_with_ellipsis() {
    let destination = normalize_destination("Largo Town Center", DESTINATION_COL_WIDTH);
    assert_eq!(destination, "Largo Tow…");
    assert_eq!(destination.chars().count(), DESTINATION_COL_WIDTH);
}

#[test]
fn normalize_destination_pads_short_destination() {
    let destination = normalize_destination("NoMa", DESTINATION_COL_WIDTH);
    assert_eq!(destination, "NoMa      ");
    assert_eq!(destination.chars().count(), DESTINATION_COL_WIDTH);
}

#[test]
fn format_train_row_aligns_destination_line_and_eta() {
    let row = format_train_row(&train("Metro Center", "Shady Grove", "RD", "3"));
    assert_eq!(row, "Shady Gro… RD   3");
}

#[test]
fn format_train_row_keeps_line_and_eta_visible_in_fixed_width() {
    let row = format_train_row(&train("Metro Center", "Largo Town Center", "BL", "10"));
    assert_eq!(row, "Largo Tow… BL  10");
    assert_eq!(
        row.chars().count(),
        DESTINATION_COL_WIDTH + 1 + 2 + 1 + 3,
        "destination + spacer + line + spacer + eta"
    );
}

#[test]
fn format_station_lines_adds_station_header_and_sorts_eta() {
    let lines = format_station_lines(
        vec![
            train("Metro Center", "Glenmont", "RD", "10"),
            train("Metro Center", "Shady Grove", "RD", "BRD"),
            train("Metro Center", "Silver Spring", "RD", "ARR"),
            train("Metro Center", "Glenmont", "RD", "3"),
        ],
        3,
    );

    assert_eq!(lines[0], "Station: Metro Center");
    assert_eq!(lines[1], "Shady Gro… RD BRD");
    assert_eq!(lines[2], "Silver Sp… RD ARR");
    assert_eq!(lines[3], "Glenmont   RD   3");
}

#[test]
fn format_station_lines_handles_empty_results() {
    let lines = format_station_lines(vec![], 5);
    assert_eq!(lines, vec!["Station: --", "No arrivals found"]);
}

#[test]
fn parse_station_codes_uses_default_for_missing_or_invalid_values() {
    assert_eq!(
        parse_station_codes(None),
        vec![DEFAULT_STATION_CODE.to_string()]
    );
    assert_eq!(
        parse_station_codes(Some("foo,123")),
        vec![DEFAULT_STATION_CODE.to_string()]
    );
}

#[test]
fn parse_station_codes_accepts_valid_codes_and_normalizes_case() {
    assert_eq!(
        parse_station_codes(Some("a01, c02,invalid")),
        vec!["A01".to_string(), "C02".to_string()]
    );
}

#[test]
fn parse_max_rows_uses_fallback_for_missing_or_invalid_values() {
    assert_eq!(parse_max_rows(None, 6), 6);
    assert_eq!(parse_max_rows(Some("nope"), 6), 6);
}

#[test]
fn parse_max_rows_clamps_to_allowed_bounds() {
    assert_eq!(parse_max_rows(Some("0"), 6), 1);
    assert_eq!(parse_max_rows(Some("999"), 6), MAX_ALLOWED_ROWS);
}

#[test]
fn parse_max_rows_reads_trimmed_number_and_clamps_fallback() {
    assert_eq!(parse_max_rows(Some(" 7 "), 6), 7);
    assert_eq!(parse_max_rows(Some("+12"), 6), 12);
    assert_eq!(parse_max_rows(Some("-3"), 6), 6);
    assert_eq!(parse_max_rows(None, 0), 1);
    assert_eq!(parse_max_rows(None, 50), MAX_ALLOWED_ROWS);
    assert_eq!(parse_max_rows(Some("99999999999999999999999"), 4), 4);
}

#[test]
fn parse_station_codes_keeps_order_and_skips_empty_pieces() {
    assert_eq!(
        parse_station_codes(Some(",d04,,\tb35 ,A1,AA1,a012")),
        vec!["D04".to_string(), "B35".to_string()]
    );
    assert_eq!(parse_station_codes(Some("")), vec!["A01".to_string()]);
}

#[test]
fn is_valid_station_code_checks_letter_and_digits() {
    assert!(is_valid_station_code("A01"));
    assert!(is_valid_station_code("Z99"));
    assert!(!is_valid_station_code("a01"));
    assert!(!is_valid_station_code("A0"));
    assert!(!is_valid_station_code("A011"));
    assert!(!is_valid_station_code("AB1"));
    assert!(!is_valid_station_code("É01"));
}

#[test]
fn load_config_uses_default_rows_when_zero() {
    let config = load_config(Some("c02,a01"), None, 0);
    assert_eq!(config.max_rows, DEFAULT_MAX_ROWS);
    assert_eq!(config.station_codes, vec!["C02".to_string(), "A01".to_string()]);
    assert_eq!(config.primary_station_code(), "C02");
    let config = load_config(None, Some("3"), 9);
    assert_eq!(config.max_rows, 3);
    assert_eq!(config.primary_station_code(), "A01");
    let config = load_config(None, None, 9);
    assert_eq!(config.max_rows, 9);
}

#[test]
fn primary_station_code_falls_back_to_default_when_empty() {
    let config = WmataConfig { station_codes: vec![], max_rows: 6 };
    assert_eq!(config.primary_station_code(), "A01");
}

#[test]
fn prediction_endpoint_names_primary_station() {
    let config = load_config(Some("D04,A01"), None, 0);
    assert_eq!(
        prediction_endpoint(&config),
        "https://api.wmata.com/StationPrediction.svc/json/GetPrediction/D04"
    );
}

#[test]
fn normalize_eta_reads_keywords_and_minutes() {
    assert_eq!(normalize_eta(" brd "), EtaState::Boarding);
    assert_eq!(normalize_eta("Boarding"), EtaState::Boarding);
    assert_eq!(normalize_eta("arv"), EtaState::Arriving);
    assert_eq!(normalize_eta("ARRIVING"), EtaState::Arriving);
    assert_eq!(normalize_eta("del"), EtaState::Delayed);
    assert_eq!(normalize_eta("Delayed"), EtaState::Delayed);
    assert_eq!(normalize_eta("n/a"), EtaState::Unknown);
    assert_eq!(normalize_eta("---"), EtaState::Unknown);
    assert_eq!(normalize_eta("   "), EtaState::Unknown);
    assert_eq!(normalize_eta(" 12 "), EtaState::Minutes(12));
    assert_eq!(normalize_eta("+4"), EtaState::Minutes(4));
    assert_eq!(normalize_eta("-4"), EtaState::Unknown);
    assert_eq!(normalize_eta("3 min"), EtaState::Unknown);
    assert_eq!(normalize_eta("99999999999"), EtaState::Unknown);
}

#[test]
fn eta_display_shows_normalized_text() {
    assert_eq!(eta_display("brd"), "BRD");
    assert_eq!(eta_display("Arriving"), "ARR");
    assert_eq!(eta_display("DELAYED"), "DLY");
    assert_eq!(eta_display("?"), "--");
    assert_eq!(eta_display("007"), "7");
    assert_eq!(eta_display(" 15"), "15");
}

#[test]
fn eta_display_reads_back_as_same_state() {
    for min in ["BRD", "arr", " dly", "x", "12", "+0", "--", "boarding"] {
        assert_eq!(normalize_eta(&eta_display(min)), normalize_eta(min));
    }
}

#[test]
fn eta_sort_key_ranks_every_state() {
    assert_eq!(eta_sort_key("BRD"), (0, 0));
    assert_eq!(eta_sort_key("ARR"), (1, 0));
    assert_eq!(eta_sort_key("42"), (2, 42));
    assert_eq!(eta_sort_key("DLY"), (3, 0));
    assert_eq!(eta_sort_key("later"), (4, 0));
}

#[test]
fn normalize_destination_edge_widths() {
    assert_eq!(normalize_destination("Glenmont", 0), "");
    assert_eq!(normalize_destination("Glenmont", 1), "…");
    assert_eq!(normalize_destination("Glenmont", 8), "Glenmont");
    assert_eq!(normalize_destination("Glenmont", 7), "Glenmo…");
    assert_eq!(normalize_destination("", 3), "   ");
}

#[test]
fn format_train_row_widens_for_long_line_and_eta() {
    let row = format_train_row(&train("X", "NoMa", "ORG", "1234"));
    assert_eq!(row, "NoMa       ORG 1234");
    let row = format_train_row(&train("X", "NoMa", "", "nope"));
    assert_eq!(row, "NoMa           --");
}

#[test]
fn format_station_lines_limits_rows_and_keeps_equal_keys_in_order() {
    let lines = format_station_lines(
        vec![
            train("First", "Vienna", "OR", "5"),
            train("Second", "Vienna", "OR", "5"),
            train("Third", "Ashburn", "SV", "5"),
        ],
        2,
    );
    assert_eq!(
        lines,
        vec!["Station: Third", "Ashburn    SV   5", "Vienna     OR   5"]
    );
    let lines = format_station_lines(vec![train("Only", "Glenmont", "RD", "1")], 0);
    assert_eq!(lines, vec!["Station: Only"]);
}

#[test]
fn sort_trains_is_stable_by_key() {
    let sorted = sort_trains(vec![
        train("a", "Vienna", "OR", "5"),
        train("b", "Ashburn", "SV", "DLY"),
        train("c", "Vienna", "OR", " 5"),
        train("d", "Vienna", "OR", "5"),
        train("e", "Largo", "BL", "BRD"),
    ]);
    let order: Vec<&str> = sorted.iter().map(|t| t.location_name.as_str()).collect();
    assert_eq!(order, vec!["e", "a", "c", "d", "b"]);
}

#[test]
fn status_lines_reports_each_outcome() {
    assert_eq!(
        status_lines(WmataReply::MissingApiKey, 6),
        vec!["Station: --", "Set WMATA_API_KEY to enable live arrivals"]
    );
    assert_eq!(
        status_lines(WmataReply::RequestFailed, 6),
        vec!["Station: --", "WMATA API request failed"]
    );
    assert_eq!(
        status_lines(WmataReply::Unparsable, 6),
        vec!["Station: --", "Error parsing WMATA response"]
    );
    assert_eq!(
        status_lines(
            WmataReply::Arrivals(Trains { trains: vec![train("Metro Center", "Glenmont", "RD", "2")] }),
            6
        ),
        vec!["Station: Metro Center", "Glenmont   RD   2"]
    );
}

#[test]
fn normalize_eta_ignores_case_and_surrounding_space() {
    for min in ["brd", " Arv", "dly ", "12", " +3 ", "n/a", "tbd", "soon", "", "\t7\u{a0}"] {
        let state = normalize_eta(min);
        assert_eq!(normalize_eta(&min.trim().to_ascii_uppercase()), state);
        assert_eq!(normalize_eta(&min.to_ascii_uppercase()), state);
        assert_eq!(normalize_eta(&format!(" {} ", min)), state);
        assert_eq!(normalize_eta(&format!("\u{3000}\n{}\t", min)), state);
    }
}

#[test]
fn format_station_lines_rows_ignore_input_order() {
    let trains = || {
        vec![
            train("Metro Center", "Glenmont", "RD", "10"),
            train("Metro Center", "Shady Grove", "RD", "BRD"),
            train("Metro Center", "Glenmont", "RD", " 10"),
            train("Metro Center", "Silver Spring", "RD", "ARR"),
        ]
    };
    let forward = format_station_lines(trains(), 3);
    let mut reversed_input = trains();
    reversed_input.reverse();
    let backward = format_station_lines(reversed_input, 3);
    assert_eq!(forward, backward);
}

#[test]
fn parse_station_codes_is_a_fixed_point() {
    for raw in [None, Some("a01, c02,invalid"), Some(""), Some(" d04 ,z99,b1,K10 ")] {
        let codes = parse_station_codes(raw);
        assert_eq!(parse_station_codes(Some(&codes.join(","))), codes);
    }
}

#[test]
fn station_endpoint_names_station() {
    assert_eq!(
        station_endpoint("C02"),
        "https://api.wmata.com/StationPrediction.svc/json/GetPrediction/C02"
    );
}

#[test]
fn group_station_boards_labels_and_separates_stations() {
    let boards = vec![
        StationBoard {
            code: "A01".to_string(),
            lines: vec!["Station: Metro Center".to_string(), "Shady Gro… RD BRD".to_string()],
        },
        StationBoard {
            code: "D04".to_string(),
            lines: vec!["Station: Foggy Bottom".to_string(), "Vienna     OR   5".to_string()],
        },
        StationBoard { code: "B35".to_string(), lines: vec![] },
    ];
    assert_eq!(
        group_station_boards(&boards),
        vec![
            "Station: Metro Center (A01)",
            "Shady Gro… RD BRD",
            "",
            "Station: Foggy Bottom (D04)",
            "Vienna     OR   5",
            "",
        ]
    );
    assert!(group_station_boards(&vec![]).is_empty());
}

#[test]
fn normalize_eta_reads_integer_edges() {
    assert_eq!(normalize_eta("-0"), EtaState::Minutes(0));
    assert_eq!(normalize_eta("+"), EtaState::Unknown);
    assert_eq!(normalize_eta("2147483647"), EtaState::Minutes(2147483647));
    assert_eq!(normalize_eta("2147483648"), EtaState::Unknown);
    assert_eq!(normalize_eta("-2147483648"), EtaState::Unknown);
    assert_eq!(normalize_eta("+-1"), EtaState::Unknown);
    assert_eq!(eta_display("2147483647"), "2147483647");
    assert_eq!(parse_max_rows(Some("+"), 5), 5);
    assert_eq!(parse_max_rows(Some("18446744073709551615"), 5), MAX_ALLOWED_ROWS);
    assert_eq!(parse_max_rows(Some("18446744073709551616"), 5), 5);
}
