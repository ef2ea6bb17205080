//! WMATA rail arrivals: configuration read from raw settings, ETA
//! normalisation, and the fixed-width arrival board.
use vstd::prelude::*;
use vstd::string::*;
use crate::text::{
    compare_text, i32_text, int_text, integer_literal, is_ascii_upper, pad_left, pad_left_text,
    pad_right, pad_right_text, parse_i32, text_eq, text_lt, lemma_text_lt_irreflexive,
    lemma_text_lt_asymmetric, lemma_text_lt_transitive, lemma_text_lt_total, lemma_nat_text_digits,
    lemma_digits_literal, is_white_space, is_ascii_lower, nat_text, all_white, lemma_trim_surrounding,
    lemma_trim_idempotent, lemma_trim_upper, lemma_upper_idempotent, lemma_literal_upper, lemma_unsigned_literal_nonneg, is_digit, parse_usize, push_char, trim, trim_text, upper,
    upper_text,
};

verus! {

/// Station used when no valid station code is configured (Metro Center).
pub const DEFAULT_STATION_CODE: &'static str = "A01";

/// Maximum number of arrival rows shown when nothing else is configured.
pub const DEFAULT_MAX_ROWS: usize = 6;

/// Largest number of arrival rows a configuration may ask for.
pub const MAX_ALLOWED_ROWS: usize = 20;

/// Width, in characters, of the destination column of the board.
pub const DESTINATION_COL_WIDTH: usize = 10;

/// View of the default station code.
pub open spec fn default_station_code() -> Seq<char> {
    DEFAULT_STATION_CODE@
}

/// Views of a sequence of strings.
pub open spec fn texts(v: Seq<String>) -> Seq<Seq<char>> {
    v.map_values(|s: String| s@)
}

/// View of an optional text.
pub open spec fn opt_text(raw: Option<&str>) -> Option<Seq<char>> {
    match raw {
        Some(s) => Some(s@),
        None => None,
    }
}

/// Settings of the arrivals panel.
#[derive(Debug)]
pub struct WmataConfig {
    pub station_codes: Vec<String>,
    pub max_rows: usize,
}

/// The station whose arrivals are fetched: the first configured code, or the default.
pub open spec fn primary_code(codes: Seq<Seq<char>>) -> Seq<char> {
    if codes.len() > 0 {
        codes[0]
    } else {
        default_station_code()
    }
}

impl WmataConfig {
    pub fn primary_station_code(&self) -> (r: &str)
        ensures
            r@ == primary_code(texts(self.station_codes@)),
    {
        if self.station_codes.len() > 0 {
            self.station_codes[0].as_str()
        } else {
            DEFAULT_STATION_CODE
        }
    }
}

/// A WMATA station code: one upper-case ASCII letter and two ASCII digits.
pub open spec fn is_station_code(s: Seq<char>) -> bool {
    &&& s.len() == 3
    &&& is_ascii_upper(s[0])
    &&& is_digit(s[1])
    &&& is_digit(s[2])
}

pub fn is_valid_station_code(code: &str) -> (r: bool)
    ensures
        r == is_station_code(code@),
{
    if code.unicode_len() != 3 {
        return false;
    }
    let a = code.get_char(0);
    let b = code.get_char(1);
    let c = code.get_char(2);
    'A' <= a && a <= 'Z' && '0' <= b && b <= '9' && '0' <= c && c <= '9'
}

/// Pieces of `s` between the separators `sep`; always at least one piece.
pub open spec fn split_on(s: Seq<char>, sep: char) -> Seq<Seq<char>>
    decreases s.len(),
{
    if s.len() == 0 {
        seq![Seq::<char>::empty()]
    } else {
        let pieces = split_on(s.drop_last(), sep);
        if s.last() == sep {
            pieces.push(Seq::<char>::empty())
        } else {
            pieces.update(pieces.len() - 1, pieces.last().push(s.last()))
        }
    }
}

/// The station codes named by comma-separated pieces: each piece trimmed and
/// upper-cased, and only valid codes kept, in order.
pub open spec fn piece_codes(pieces: Seq<Seq<char>>) -> Seq<Seq<char>> {
    pieces.map_values(|p: Seq<char>| upper(trim(p))).filter(|c: Seq<char>| is_station_code(c))
}

/// The configured station codes; the default station when none is valid.
pub open spec fn station_codes_spec(raw: Option<Seq<char>>) -> Seq<Seq<char>> {
    let text = match raw {
        Some(r) => r,
        None => Seq::<char>::empty(),
    };
    let codes = piece_codes(split_on(text, ','));
    if codes.len() == 0 {
        seq![default_station_code()]
    } else {
        codes
    }
}

proof fn lemma_piece_codes_push(ps: Seq<Seq<char>>, x: Seq<char>)
    ensures
        piece_codes(ps.push(x)) == if is_station_code(upper(trim(x))) {
            piece_codes(ps).push(upper(trim(x)))
        } else {
            piece_codes(ps)
        },
{
    let f = |p: Seq<char>| upper(trim(p));
    let pred = |c: Seq<char>| is_station_code(c);
    assert(ps.push(x).map_values(f) =~= ps.map_values(f).push(f(x)));
    let m = ps.map_values(f).push(f(x));
    assert(m.drop_last() =~= ps.map_values(f));
    reveal_with_fuel(Seq::filter, 1);
}

/// Reads the comma-separated station codes of a setting.
pub fn parse_station_codes(raw: Option<&str>) -> (codes: Vec<String>)
    ensures
        texts(codes@) == station_codes_spec(opt_text(raw)),
{
    let text: &str = match raw {
        Some(s) => s,
        None => "",
    };
    proof {
        reveal_strlit("");
    }
    let ghost src = text@;
    assert(src == match opt_text(raw) {
        Some(r) => r,
        None => Seq::<char>::empty(),
    });
    let n = text.unicode_len();
    let mut codes: Vec<String> = Vec::new();
    let mut piece = String::new();
    let mut i: usize = 0;
    assert(src.take(0) =~= Seq::<char>::empty());
    assert(piece_codes(Seq::<Seq<char>>::empty()) =~= Seq::<Seq<char>>::empty()) by {
        reveal_with_fuel(Seq::filter, 1);
    }
    while i < n
        invariant
            n == src.len(),
            src == text@,
            i <= n,
            split_on(src.take(i as int), ',').len() >= 1,
            texts(codes@) == piece_codes(split_on(src.take(i as int), ',').drop_last()),
            piece@ == split_on(src.take(i as int), ',').last(),
        decreases n - i,
    {
        let c = text.get_char(i);
        let ghost before = split_on(src.take(i as int), ',');
        assert(src.take(i + 1).drop_last() =~= src.take(i as int));
        assert(src.take(i + 1).last() == c);
        if c == ',' {
            let trimmed = trim_text(piece.as_str());
            let code = upper_text(trimmed);
            proof {
                lemma_piece_codes_push(before.drop_last(), before.last());
                assert(before.drop_last().push(before.last()) =~= before);
            }
            if is_valid_station_code(code.as_str()) {
                codes.push(code);
                assert(texts(codes@) =~= piece_codes(before));
            } else {
                assert(texts(codes@) =~= piece_codes(before));
            }
            piece = String::new();
            assert(split_on(src.take(i + 1), ',') =~= before.push(Seq::<char>::empty()));
            assert(split_on(src.take(i + 1), ',').drop_last() =~= before);
        } else {
            push_char(&mut piece, c);
            assert(split_on(src.take(i + 1), ',').drop_last() =~= before.drop_last());
        }
        i = i + 1;
    }
    assert(src.take(n as int) =~= src);
    let ghost all = split_on(src, ',');
    let trimmed = trim_text(piece.as_str());
    let code = upper_text(trimmed);
    proof {
        lemma_piece_codes_push(all.drop_last(), all.last());
        assert(all.drop_last().push(all.last()) =~= all);
    }
    if is_valid_station_code(code.as_str()) {
        codes.push(code);
    }
    assert(texts(codes@) =~= piece_codes(all));
    if codes.len() == 0 {
        codes.push(DEFAULT_STATION_CODE.to_owned());
        assert(texts(codes@) =~= seq![default_station_code()]);
    }
    codes
}

/// `v` limited to the allowed row counts `1..=MAX_ALLOWED_ROWS`.
pub open spec fn clamp_rows(v: int) -> int {
    if v < 1 {
        1
    } else if v > MAX_ALLOWED_ROWS {
        MAX_ALLOWED_ROWS as int
    } else {
        v
    }
}

/// The configured row count: the trimmed setting read as a number, else the
/// fallback; either way limited to `1..=MAX_ALLOWED_ROWS`.
pub open spec fn max_rows_spec(raw: Option<Seq<char>>, fallback: int) -> int {
    match raw {
        None => clamp_rows(fallback),
        Some(r) => match integer_literal(trim(r), false) {
            Some(v) => if v <= usize::MAX {
                clamp_rows(v)
            } else {
                clamp_rows(fallback)
            },
            None => clamp_rows(fallback),
        },
    }
}

fn clamp_rows_exec(v: usize) -> (r: usize)
    ensures
        r == clamp_rows(v as int),
{
    if v < 1 {
        1
    } else if v > MAX_ALLOWED_ROWS {
        MAX_ALLOWED_ROWS
    } else {
        v
    }
}

/// Reads the row-count setting.
pub fn parse_max_rows(raw: Option<&str>, fallback: usize) -> (r: usize)
    ensures
        r == max_rows_spec(opt_text(raw), fallback as int),
        1 <= r <= MAX_ALLOWED_ROWS,
{
    let bounded = clamp_rows_exec(fallback);
    proof {
        if let Some(t) = raw {
            lemma_unsigned_literal_nonneg(trim(t@));
        }
    }
    match raw {
        None => bounded,
        Some(text) => match parse_usize(trim_text(text)) {
            Some(value) => clamp_rows_exec(value),
            None => bounded,
        },
    }
}

/// The row count asked for by a caller, `0` meaning the default.
pub open spec fn requested_rows(default_max_rows: int) -> int {
    if default_max_rows == 0 {
        DEFAULT_MAX_ROWS as int
    } else {
        default_max_rows
    }
}

/// Builds the panel settings from the raw values of the station and row settings.
pub fn load_config(station_raw: Option<&str>, rows_raw: Option<&str>, default_max_rows: usize) -> (c: WmataConfig)
    ensures
        texts(c.station_codes@) == station_codes_spec(opt_text(station_raw)),
        c.max_rows == max_rows_spec(opt_text(rows_raw), requested_rows(default_max_rows as int)),
{
    let station_codes = parse_station_codes(station_raw);
    let max_rows = parse_max_rows(
        rows_raw,
        if default_max_rows == 0 {
            DEFAULT_MAX_ROWS
        } else {
            default_max_rows
        },
    );
    WmataConfig { station_codes, max_rows }
}

/// Address of the WMATA prediction service for the primary station.
pub open spec fn prediction_endpoint_spec(code: Seq<char>) -> Seq<char> {
    "https://api.wmata.com/StationPrediction.svc/json/GetPrediction/"@ + code
}

pub fn prediction_endpoint(config: &WmataConfig) -> (r: String)
    ensures
        r@ == prediction_endpoint_spec(primary_code(texts(config.station_codes@))),
{
    station_endpoint(config.primary_station_code())
}

/// Address of the WMATA prediction service for one station.
pub fn station_endpoint(code: &str) -> (r: String)
    ensures
        r@ == prediction_endpoint_spec(code@),
{
    let mut r = "https://api.wmata.com/StationPrediction.svc/json/GetPrediction/".to_owned();
    r.append(code);
    r
}


/// Reply of the WMATA prediction service.
#[derive(Debug)]
pub struct Trains {
    pub trains: Vec<TrainInfo>,
}

/// One predicted train.
#[derive(Debug, Clone)]
pub struct TrainInfo {
    pub destination_name: String,
    pub line: String,
    pub location_name: String,
    pub min: String,
}

/// What the minutes field of a prediction says about the train.
#[derive(Debug, Clone, Copy, PartialEq, Eq, Structural)]
pub enum EtaState {
    Boarding,
    Arriving,
    Minutes(i32),
    Delayed,
    Unknown,
}

/// Reading of a minutes field: keywords are matched case-insensitively after
/// trimming; otherwise a non-negative `i32` literal gives the minutes.
pub open spec fn eta_state_of(min: Seq<char>) -> EtaState {
    eta_of_trimmed(trim(min))
}

/// Reading of an already trimmed minutes field.
pub open spec fn eta_of_trimmed(t: Seq<char>) -> EtaState {
    let u = upper(t);
    if t.len() == 0 {
        EtaState::Unknown
    } else if u == "BRD"@ || u == "BOARDING"@ {
        EtaState::Boarding
    } else if u == "ARR"@ || u == "ARV"@ || u == "ARRIVING"@ {
        EtaState::Arriving
    } else if u == "DLY"@ || u == "DEL"@ || u == "DELAYED"@ {
        EtaState::Delayed
    } else if u == "-"@ || u == "--"@ || u == "---"@ || u == "NULL"@ || u == "N/A"@ || u == "NA"@
        || u == "TBD"@ || u == "?"@ {
        EtaState::Unknown
    } else {
        match integer_literal(t, true) {
            Some(v) => if 0 <= v <= i32::MAX {
                EtaState::Minutes(v as i32)
            } else {
                EtaState::Unknown
            },
            None => EtaState::Unknown,
        }
    }
}

pub fn normalize_eta(min: &str) -> (r: EtaState)
    ensures
        r == eta_state_of(min@),
{
    let trimmed = trim_text(min);
    if trimmed.is_empty() {
        return EtaState::Unknown;
    }
    let normalized = upper_text(trimmed);
    let u = normalized.as_str();
    if text_eq(u, "BRD") || text_eq(u, "BOARDING") {
        EtaState::Boarding
    } else if text_eq(u, "ARR") || text_eq(u, "ARV") || text_eq(u, "ARRIVING") {
        EtaState::Arriving
    } else if text_eq(u, "DLY") || text_eq(u, "DEL") || text_eq(u, "DELAYED") {
        EtaState::Delayed
    } else if text_eq(u, "-") || text_eq(u, "--") || text_eq(u, "---") || text_eq(u, "NULL")
        || text_eq(u, "N/A") || text_eq(u, "NA") || text_eq(u, "TBD") || text_eq(u, "?") {
        EtaState::Unknown
    } else {
        match parse_i32(trimmed) {
            Some(minutes) => if minutes >= 0 {
                EtaState::Minutes(minutes)
            } else {
                EtaState::Unknown
            },
            None => EtaState::Unknown,
        }
    }
}

/// Sort key of an ETA: boarding, then arriving, then minutes in numeric
/// order, then delayed, then unknown.
pub open spec fn eta_key(state: EtaState) -> (u8, i32) {
    match state {
        EtaState::Boarding => (0u8, 0i32),
        EtaState::Arriving => (1u8, 0i32),
        EtaState::Minutes(m) => (2u8, m),
        EtaState::Delayed => (3u8, 0i32),
        EtaState::Unknown => (4u8, 0i32),
    }
}

pub fn eta_sort_key(min: &str) -> (r: (u8, i32))
    ensures
        r == eta_key(eta_state_of(min@)),
{
    match normalize_eta(min) {
        EtaState::Boarding => (0, 0),
        EtaState::Arriving => (1, 0),
        EtaState::Minutes(minutes) => (2, minutes),
        EtaState::Delayed => (3, 0),
        EtaState::Unknown => (4, 0),
    }
}

/// Text shown for an ETA on the board.
pub open spec fn eta_text(state: EtaState) -> Seq<char> {
    match state {
        EtaState::Boarding => "BRD"@,
        EtaState::Arriving => "ARR"@,
        EtaState::Minutes(m) => int_text(m as int),
        EtaState::Delayed => "DLY"@,
        EtaState::Unknown => "--"@,
    }
}

pub fn eta_display(min: &str) -> (r: String)
    ensures
        r@ == eta_text(eta_state_of(min@)),
{
    match normalize_eta(min) {
        EtaState::Boarding => "BRD".to_owned(),
        EtaState::Arriving => "ARR".to_owned(),
        EtaState::Minutes(minutes) => i32_text(minutes),
        EtaState::Delayed => "DLY".to_owned(),
        EtaState::Unknown => "--".to_owned(),
    }
}

/// A destination fitted to `width` characters: padded with spaces when it
/// fits, else cut to `width - 1` characters followed by an ellipsis.
pub open spec fn fit_to_width(d: Seq<char>, width: nat) -> Seq<char> {
    if width == 0 {
        Seq::<char>::empty()
    } else if d.len() <= width {
        pad_right(d, width)
    } else {
        d.take(width - 1).push('…')
    }
}

pub fn normalize_destination(destination: &str, width: usize) -> (r: String)
    ensures
        r@ == fit_to_width(destination@, width as nat),
        r@.len() == width,
{
    if width == 0 {
        return String::new();
    }
    let destination_length = destination.unicode_len();
    if destination_length <= width {
        return pad_right_text(destination, width);
    }
    if width == 1 {
        let mut r = String::new();
        push_char(&mut r, '…');
        assert(r@ =~= fit_to_width(destination@, width as nat));
        return r;
    }
    let mut truncated = destination.substring_char(0, width - 1).to_owned();
    push_char(&mut truncated, '…');
    assert(truncated@ =~= fit_to_width(destination@, width as nat));
    truncated
}

/// One board row: destination column, line code left-aligned in two
/// characters, ETA right-aligned in three, separated by single spaces.
pub open spec fn train_row(t: TrainInfo) -> Seq<char> {
    pad_right(fit_to_width(t.destination_name@, DESTINATION_COL_WIDTH as nat), DESTINATION_COL_WIDTH as nat)
        + seq![' '] + pad_right(t.line@, 2) + seq![' '] + pad_left(eta_text(eta_state_of(t.min@)), 3)
}

pub fn format_train_row(train: &TrainInfo) -> (r: String)
    ensures
        r@ == train_row(*train),
{
    let eta = eta_display(train.min.as_str());
    let destination = normalize_destination(train.destination_name.as_str(), DESTINATION_COL_WIDTH);
    let mut row = pad_right_text(destination.as_str(), DESTINATION_COL_WIDTH);
    push_char(&mut row, ' ');
    let line = pad_right_text(train.line.as_str(), 2);
    row.append(line.as_str());
    push_char(&mut row, ' ');
    let eta_col = pad_left_text(eta.as_str(), 3);
    row.append(eta_col.as_str());
    row
}


/// Order key of a train on the board: ETA key, then destination, then line,
/// then the trimmed minutes text.
pub open spec fn train_key(t: TrainInfo) -> (int, int, Seq<char>, Seq<char>, Seq<char>) {
    let k = eta_key(eta_state_of(t.min@));
    (k.0 as int, k.1 as int, t.destination_name@, t.line@, trim(t.min@))
}

/// Strict lexicographic order of train keys.
pub open spec fn key_lt(
    a: (int, int, Seq<char>, Seq<char>, Seq<char>),
    b: (int, int, Seq<char>, Seq<char>, Seq<char>),
) -> bool {
    ||| a.0 < b.0
    ||| a.0 == b.0 && a.1 < b.1
    ||| a.0 == b.0 && a.1 == b.1 && text_lt(a.2, b.2)
    ||| a.0 == b.0 && a.1 == b.1 && a.2 == b.2 && text_lt(a.3, b.3)
    ||| a.0 == b.0 && a.1 == b.1 && a.2 == b.2 && a.3 == b.3 && text_lt(a.4, b.4)
}

pub proof fn lemma_key_lt_irreflexive(a: (int, int, Seq<char>, Seq<char>, Seq<char>))
    ensures
        !key_lt(a, a),
{
    lemma_text_lt_irreflexive(a.2);
    lemma_text_lt_irreflexive(a.3);
    lemma_text_lt_irreflexive(a.4);
}

pub proof fn lemma_key_lt_transitive(
    a: (int, int, Seq<char>, Seq<char>, Seq<char>),
    b: (int, int, Seq<char>, Seq<char>, Seq<char>),
    c: (int, int, Seq<char>, Seq<char>, Seq<char>),
)
    requires
        key_lt(a, b),
        key_lt(b, c),
    ensures
        key_lt(a, c),
{
    if text_lt(a.2, b.2) && text_lt(b.2, c.2) {
        lemma_text_lt_transitive(a.2, b.2, c.2);
    }
    if text_lt(a.3, b.3) && text_lt(b.3, c.3) {
        lemma_text_lt_transitive(a.3, b.3, c.3);
    }
    if text_lt(a.4, b.4) && text_lt(b.4, c.4) {
        lemma_text_lt_transitive(a.4, b.4, c.4);
    }
}

pub proof fn lemma_key_lt_asymmetric(
    a: (int, int, Seq<char>, Seq<char>, Seq<char>),
    b: (int, int, Seq<char>, Seq<char>, Seq<char>),
)
    requires
        key_lt(a, b),
    ensures
        !key_lt(b, a),
{
    if key_lt(b, a) {
        lemma_key_lt_transitive(a, b, a);
        lemma_key_lt_irreflexive(a);
    }
}

pub proof fn lemma_key_total(
    a: (int, int, Seq<char>, Seq<char>, Seq<char>),
    b: (int, int, Seq<char>, Seq<char>, Seq<char>),
)
    ensures
        key_lt(a, b) || key_lt(b, a) || a == b,
{
    if a.2 != b.2 {
        lemma_text_lt_total(a.2, b.2);
    }
    if a.3 != b.3 {
        lemma_text_lt_total(a.3, b.3);
    }
    if a.4 != b.4 {
        lemma_text_lt_total(a.4, b.4);
    }
}

/// Three-way comparison of two trains by their order key.
pub fn compare_trains(a: &TrainInfo, b: &TrainInfo) -> (r: i8)
    ensures
        r < 0 <==> key_lt(train_key(*a), train_key(*b)),
        r == 0 <==> train_key(*a) == train_key(*b),
        r > 0 <==> key_lt(train_key(*b), train_key(*a)),
{
    let ka = eta_sort_key(a.min.as_str());
    let kb = eta_sort_key(b.min.as_str());
    proof {
        lemma_key_lt_irreflexive(train_key(*a));
        if key_lt(train_key(*a), train_key(*b)) {
            lemma_key_lt_asymmetric(train_key(*a), train_key(*b));
        }
        if key_lt(train_key(*b), train_key(*a)) {
            lemma_key_lt_asymmetric(train_key(*b), train_key(*a));
        }
    }
    if ka.0 != kb.0 {
        return if ka.0 < kb.0 { -1 } else { 1 };
    }
    if ka.1 != kb.1 {
        return if ka.1 < kb.1 { -1 } else { 1 };
    }
    let c = compare_text(a.destination_name.as_str(), b.destination_name.as_str());
    if c != 0 {
        return c;
    }
    let c = compare_text(a.line.as_str(), b.line.as_str());
    if c != 0 {
        return c;
    }
    let r = compare_text(trim_text(a.min.as_str()), trim_text(b.min.as_str()));
    r
}

/// Whether the train at index `i` of `s` comes before the one at index `j` in
/// a stable sort: a smaller key, or an equal key and an earlier position.
pub open spec fn ranks_before(s: Seq<TrainInfo>, i: int, j: int) -> bool {
    ||| key_lt(train_key(s[i]), train_key(s[j]))
    ||| train_key(s[i]) == train_key(s[j]) && i < j
}

/// `p` lists the positions of `s` in the order of `r`, and that order is the
/// stable one by key.
pub open spec fn stable_order(s: Seq<TrainInfo>, r: Seq<TrainInfo>, p: Seq<int>) -> bool {
    &&& p.len() == s.len()
    &&& r.len() == s.len()
    &&& forall|k: int| 0 <= k < p.len() ==> 0 <= #[trigger] p[k] < s.len() && r[k] == s[p[k]]
    &&& forall|i: int| 0 <= i < s.len() ==> #[trigger] p.contains(i)
    &&& forall|k1: int, k2: int|
        0 <= k1 < k2 < p.len() ==> ranks_before(s, #[trigger] p[k1], #[trigger] p[k2])
}

/// `r` is `s` sorted by train key, trains with equal keys kept in their order.
pub open spec fn is_stable_sort_of(s: Seq<TrainInfo>, r: Seq<TrainInfo>) -> bool {
    exists|p: Seq<int>| stable_order(s, r, p)
}

/// Inserting the train at `new_idx` behind every train whose key is not larger
/// than its own keeps a stably ordered position list stably ordered.
proof fn lemma_insert_keeps_order(s: Seq<TrainInfo>, p: Seq<int>, pos: int, new_idx: int)
    requires
        0 <= pos <= p.len(),
        0 <= new_idx < s.len(),
        forall|k: int| 0 <= k < p.len() ==> 0 <= #[trigger] p[k] < new_idx,
        forall|k1: int, k2: int|
            0 <= k1 < k2 < p.len() ==> ranks_before(s, #[trigger] p[k1], #[trigger] p[k2]),
        pos > 0 ==> !key_lt(train_key(s[new_idx]), train_key(s[p[pos - 1]])),
        forall|k: int| pos <= k < p.len() ==> key_lt(train_key(s[new_idx]), train_key(s[#[trigger] p[k]])),
    ensures
        forall|k1: int, k2: int|
            0 <= k1 < k2 < p.len() + 1 ==> ranks_before(
                s,
                #[trigger] p.insert(pos, new_idx)[k1],
                #[trigger] p.insert(pos, new_idx)[k2],
            ),
{
    let q = p.insert(pos, new_idx);
    let kn = train_key(s[new_idx]);
    assert forall|k1: int, k2: int| 0 <= k1 < k2 < p.len() + 1 implies ranks_before(s, #[trigger] q[k1], #[trigger] q[k2]) by {
        if k1 < pos && k2 == pos {
            let kp = train_key(s[p[pos - 1]]);
            let k1k = train_key(s[p[k1]]);
            lemma_key_total(kn, kp);
            if k1 < pos - 1 {
                assert(ranks_before(s, p[k1], p[pos - 1]));
                if key_lt(k1k, kp) && key_lt(kp, kn) {
                    lemma_key_lt_transitive(k1k, kp, kn);
                }
            }
        } else if k1 == pos {
            assert(q[k2] == p[k2 - 1]);
        } else if k1 < pos && k2 > pos {
            assert(q[k2] == p[k2 - 1]);
            assert(ranks_before(s, p[k1], p[k2 - 1]));
        } else if k1 > pos {
            assert(q[k1] == p[k1 - 1]);
            assert(q[k2] == p[k2 - 1]);
            assert(ranks_before(s, p[k1 - 1], p[k2 - 1]));
        } else {
            assert(ranks_before(s, p[k1], p[k2]));
        }
    }
}

/// Sorts trains by their order key; trains with equal keys keep their order.
pub fn sort_trains(trains: Vec<TrainInfo>) -> (r: Vec<TrainInfo>)
    ensures
        is_stable_sort_of(trains@, r@),
{
    let ghost s = trains@;
    let n = trains.len();
    let mut rest = trains;
    let mut sorted: Vec<TrainInfo> = Vec::new();
    let ghost mut p: Seq<int> = Seq::empty();
    let mut done: usize = 0;
    assert(s.skip(0) =~= s);
    while done < n
        invariant
            n == s.len(),
            done <= n,
            rest@ == s.skip(done as int),
            sorted@.len() == done,
            p.len() == done,
            forall|k: int| 0 <= k < done ==> 0 <= #[trigger] p[k] < done && sorted@[k] == s[p[k]],
            forall|i: int| 0 <= i < done ==> #[trigger] p.contains(i),
            forall|k1: int, k2: int|
                0 <= k1 < k2 < done ==> ranks_before(s, #[trigger] p[k1], #[trigger] p[k2]),
        decreases n - done,
    {
        let t = rest.remove(0);
        assert(t == s[done as int]);
        assert(rest@ =~= s.skip(done + 1));
        let mut pos = sorted.len();
        loop
            invariant
                pos <= sorted@.len(),
                sorted@.len() == done,
                p.len() == done,
                forall|k: int| 0 <= k < done ==> 0 <= #[trigger] p[k] < done && sorted@[k] == s[p[k]],
                forall|k: int| pos <= k < done ==> key_lt(train_key(t), train_key(#[trigger] sorted@[k])),
            ensures
                pos <= done,
                pos > 0 ==> !key_lt(train_key(t), train_key(sorted@[pos - 1])),
                forall|k: int| pos <= k < done ==> key_lt(train_key(t), train_key(#[trigger] sorted@[k])),
            decreases pos,
        {
            if pos == 0 {
                break;
            }
            let c = compare_trains(&sorted[pos - 1], &t);
            if c <= 0 {
                break;
            }
            pos = pos - 1;
        }
        proof {
            assert forall|k: int| pos <= k < p.len() implies key_lt(train_key(s[done as int]), train_key(s[#[trigger] p[k]])) by {
                assert(sorted@[k] == s[p[k]]);
            }
            if pos > 0 {
                assert(sorted@[pos - 1] == s[p[pos - 1]]);
            }
            lemma_insert_keeps_order(s, p, pos as int, done as int);
        }
        let ghost old_p = p;
        let ghost old_sorted = sorted@;
        sorted.insert(pos, t);
        proof {
            p = p.insert(pos as int, done as int);
            assert forall|k: int| 0 <= k < done + 1 implies 0 <= #[trigger] p[k] < done + 1 && sorted@[k] == s[p[k]] by {
                if k < pos {
                    assert(p[k] == old_p[k]);
                } else if k > pos {
                    assert(p[k] == old_p[k - 1]);
                    assert(sorted@[k] == old_sorted[k - 1]);
                }
            }
            assert forall|i: int| 0 <= i < done + 1 implies #[trigger] p.contains(i) by {
                if i < done {
                    assert(old_p.contains(i));
                    let k = choose|k: int| 0 <= k < old_p.len() && old_p[k] == i;
                    if k < pos {
                        assert(p[k] == i);
                    } else {
                        assert(p[k + 1] == i);
                    }
                } else {
                    assert(p[pos as int] == i);
                }
            }
        }
        done = done + 1;
    }
    assert(stable_order(s, sorted@, p));
    sorted
}


/// Header line naming the station of the board.
pub open spec fn station_header(name: Seq<char>) -> Seq<char> {
    "Station: "@ + name
}

/// The board of sorted trains: the station of the first one, then at most
/// `max` rows.
pub open spec fn board_lines(sorted: Seq<TrainInfo>, max: nat) -> Seq<Seq<char>> {
    let shown = if max < sorted.len() { max } else { sorted.len() };
    seq![station_header(sorted[0].location_name@)] + sorted.take(shown as int).map_values(
        |t: TrainInfo| train_row(t),
    )
}

pub open spec fn min_count(a: int, b: int) -> int {
    if a < b {
        a
    } else {
        b
    }
}

/// Lines shown for a station without predictions.
pub open spec fn no_arrivals_lines() -> Seq<Seq<char>> {
    seq!["Station: --"@, "No arrivals found"@]
}

/// `lines` is the board of `trains`: the fixed message when there are none,
/// else the board of the trains stably sorted by key.
pub open spec fn is_board_of(trains: Seq<TrainInfo>, max: nat, lines: Seq<Seq<char>>) -> bool {
    if trains.len() == 0 {
        lines == no_arrivals_lines()
    } else {
        exists|sorted: Seq<TrainInfo>| is_stable_sort_of(trains, sorted) && lines == board_lines(sorted, max)
    }
}

pub fn format_station_lines(trains: Vec<TrainInfo>, max: usize) -> (lines: Vec<String>)
    ensures
        is_board_of(trains@, max as nat, texts(lines@)),
        lines@.len() == if trains@.len() == 0 {
            2
        } else {
            1 + min_count(max as int, trains@.len() as int)
        },
{
    let ghost s = trains@;
    if trains.len() == 0 {
        let mut lines: Vec<String> = Vec::new();
        lines.push("Station: --".to_owned());
        lines.push("No arrivals found".to_owned());
        assert(texts(lines@) =~= no_arrivals_lines());
        return lines;
    }
    let sorted = sort_trains(trains);
    let ghost witness = choose|p: Seq<int>| stable_order(s, sorted@, p);
    let mut header = "Station: ".to_owned();
    header.append(sorted[0].location_name.as_str());
    let mut lines: Vec<String> = Vec::new();
    lines.push(header);
    let shown = if max < sorted.len() {
        max
    } else {
        sorted.len()
    };
    let mut i: usize = 0;
    while i < shown
        invariant
            shown <= sorted@.len(),
            i <= shown,
            sorted@.len() > 0,
            texts(lines@) == seq![station_header(sorted@[0].location_name@)] + sorted@.take(i as int).map_values(
                |t: TrainInfo| train_row(t),
            ),
        decreases shown - i,
    {
        let row = format_train_row(&sorted[i]);
        let ghost old_lines = lines@;
        lines.push(row);
        assert(texts(lines@) =~= texts(old_lines).push(row@));
        assert(sorted@.take(i + 1) =~= sorted@.take(i as int).push(sorted@[i as int]));
        assert(sorted@.take(i + 1).map_values(|t: TrainInfo| train_row(t)) =~= sorted@.take(i as int).map_values(
            |t: TrainInfo| train_row(t),
        ).push(train_row(sorted@[i as int])));
        assert(texts(lines@) =~= seq![station_header(sorted@[0].location_name@)] + sorted@.take(i + 1).map_values(
            |t: TrainInfo| train_row(t),
        ));
        i = i + 1;
    }
    assert(texts(lines@) == board_lines(sorted@, max as nat));
    assert(is_stable_sort_of(s, sorted@));
    lines
}

/// Outcome of asking the WMATA service for predictions.
#[derive(Debug)]
pub enum WmataReply {
    /// No API key is configured, so nothing was asked.
    MissingApiKey,
    /// The request could not be sent or answered.
    RequestFailed,
    /// The answer was not a prediction list.
    Unparsable,
    /// The predicted trains.
    Arrivals(Trains),
}

/// Lines of the arrivals panel for each outcome of the request.
pub open spec fn is_status_of(reply: WmataReply, max: nat, lines: Seq<Seq<char>>) -> bool {
    match reply {
        WmataReply::MissingApiKey => lines == seq!["Station: --"@, "Set WMATA_API_KEY to enable live arrivals"@],
        WmataReply::RequestFailed => lines == seq!["Station: --"@, "WMATA API request failed"@],
        WmataReply::Unparsable => lines == seq!["Station: --"@, "Error parsing WMATA response"@],
        WmataReply::Arrivals(reply) => is_board_of(reply.trains@, max, lines),
    }
}

fn two_lines(first: &str, second: &str) -> (r: Vec<String>)
    ensures
        texts(r@) == seq![first@, second@],
{
    let mut r: Vec<String> = Vec::new();
    r.push(first.to_owned());
    r.push(second.to_owned());
    assert(texts(r@) =~= seq![first@, second@]);
    r
}

/// The arrivals panel for the outcome of a prediction request.
pub fn status_lines(reply: WmataReply, max_rows: usize) -> (lines: Vec<String>)
    ensures
        is_status_of(reply, max_rows as nat, texts(lines@)),
{
    match reply {
        WmataReply::MissingApiKey => two_lines("Station: --", "Set WMATA_API_KEY to enable live arrivals"),
        WmataReply::RequestFailed => two_lines("Station: --", "WMATA API request failed"),
        WmataReply::Unparsable => two_lines("Station: --", "Error parsing WMATA response"),
        WmataReply::Arrivals(reply) => format_station_lines(reply.trains, max_rows),
    }
}


proof fn lemma_ranks_before_irreflexive(s: Seq<TrainInfo>, i: int)
    ensures
        !ranks_before(s, i, i),
{
    lemma_key_lt_irreflexive(train_key(s[i]));
}

proof fn lemma_ranks_before_transitive(s: Seq<TrainInfo>, i: int, j: int, k: int)
    requires
        ranks_before(s, i, j),
        ranks_before(s, j, k),
    ensures
        ranks_before(s, i, k),
{
    let (ki, kj, kk) = (train_key(s[i]), train_key(s[j]), train_key(s[k]));
    if key_lt(ki, kj) && key_lt(kj, kk) {
        lemma_key_lt_transitive(ki, kj, kk);
    }
}

/// Two position lists that are both strictly ordered by rank and hold the
/// same positions are the same list.
proof fn lemma_ranked_lists_equal(s: Seq<TrainInfo>, p1: Seq<int>, p2: Seq<int>)
    requires
        p1.len() == p2.len(),
        forall|k1: int, k2: int|
            0 <= k1 < k2 < p1.len() ==> ranks_before(s, #[trigger] p1[k1], #[trigger] p1[k2]),
        forall|k1: int, k2: int|
            0 <= k1 < k2 < p2.len() ==> ranks_before(s, #[trigger] p2[k1], #[trigger] p2[k2]),
        forall|x: int| p1.contains(x) <==> p2.contains(x),
    ensures
        p1 == p2,
    decreases p1.len(),
{
    if p1.len() == 0 {
        assert(p1 =~= p2);
    } else {
        assert(p1.contains(p1[0]));
        assert(p2.contains(p2[0]));
        let j = choose|j: int| 0 <= j < p2.len() && p2[j] == p1[0];
        let i = choose|i: int| 0 <= i < p1.len() && p1[i] == p2[0];
        if p1[0] != p2[0] {
            assert(ranks_before(s, p2[0], p2[j]));
            assert(ranks_before(s, p1[0], p1[i]));
            lemma_ranks_before_transitive(s, p2[0], p1[0], p2[0]);
            lemma_ranks_before_irreflexive(s, p2[0]);
        }
        let q1 = p1.drop_first();
        let q2 = p2.drop_first();
        assert forall|x: int| q1.contains(x) <==> q2.contains(x) by {
            if q1.contains(x) {
                let k = choose|k: int| 0 <= k < q1.len() && q1[k] == x;
                assert(p1[k + 1] == x);
                if x == p1[0] {
                    assert(ranks_before(s, p1[0], p1[k + 1]));
                    lemma_ranks_before_irreflexive(s, x);
                }
                assert(p1.contains(x));
                let m = choose|m: int| 0 <= m < p2.len() && p2[m] == x;
                assert(m != 0);
                assert(q2[m - 1] == x);
            }
            if q2.contains(x) {
                let k = choose|k: int| 0 <= k < q2.len() && q2[k] == x;
                assert(p2[k + 1] == x);
                if x == p2[0] {
                    assert(ranks_before(s, p2[0], p2[k + 1]));
                    lemma_ranks_before_irreflexive(s, x);
                }
                assert(p2.contains(x));
                let m = choose|m: int| 0 <= m < p1.len() && p1[m] == x;
                assert(m != 0);
                assert(q1[m - 1] == x);
            }
        }
        assert forall|k1: int, k2: int| 0 <= k1 < k2 < q1.len() implies ranks_before(s, #[trigger] q1[k1], #[trigger] q1[k2]) by {
            assert(ranks_before(s, p1[k1 + 1], p1[k2 + 1]));
        }
        assert forall|k1: int, k2: int| 0 <= k1 < k2 < q2.len() implies ranks_before(s, #[trigger] q2[k1], #[trigger] q2[k2]) by {
            assert(ranks_before(s, p2[k1 + 1], p2[k2 + 1]));
        }
        lemma_ranked_lists_equal(s, q1, q2);
        assert(p1 =~= seq![p1[0]] + q1);
        assert(p2 =~= seq![p2[0]] + q2);
    }
}

/// A stable sort by key has one outcome: any two stable sorts of the same
/// trains are equal.
pub proof fn lemma_stable_sort_unique(s: Seq<TrainInfo>, r1: Seq<TrainInfo>, r2: Seq<TrainInfo>)
    requires
        is_stable_sort_of(s, r1),
        is_stable_sort_of(s, r2),
    ensures
        r1 == r2,
{
    let p1 = choose|p: Seq<int>| stable_order(s, r1, p);
    let p2 = choose|p: Seq<int>| stable_order(s, r2, p);
    assert forall|x: int| p1.contains(x) <==> p2.contains(x) by {
        if p1.contains(x) {
            let k = choose|k: int| 0 <= k < p1.len() && p1[k] == x;
            assert(0 <= p1[k] < s.len());
        }
        if p2.contains(x) {
            let k = choose|k: int| 0 <= k < p2.len() && p2[k] == x;
            assert(0 <= p2[k] < s.len());
        }
    }
    lemma_ranked_lists_equal(s, p1, p2);
    assert forall|k: int| 0 <= k < r1.len() implies r1[k] == r2[k] by {
        assert(r1[k] == s[p1[k]]);
        assert(r2[k] == s[p2[k]]);
    }
    assert(r1 =~= r2);
}

/// A stable sort lists the trains in non-decreasing key order.
pub proof fn lemma_stable_sort_sorted(s: Seq<TrainInfo>, r: Seq<TrainInfo>)
    requires
        is_stable_sort_of(s, r),
    ensures
        forall|k1: int, k2: int|
            0 <= k1 < k2 < r.len() ==> !key_lt(#[trigger] train_key(r[k2]), #[trigger] train_key(r[k1])),
{
    let p = choose|p: Seq<int>| stable_order(s, r, p);
    assert forall|k1: int, k2: int| 0 <= k1 < k2 < r.len() implies !key_lt(#[trigger] train_key(r[k2]), #[trigger] train_key(r[k1])) by {
        assert(ranks_before(s, p[k1], p[k2]));
        let (a, b) = (train_key(s[p[k1]]), train_key(s[p[k2]]));
        lemma_key_lt_irreflexive(a);
        if key_lt(a, b) {
            lemma_key_lt_asymmetric(a, b);
        }
    }
}

/// Trains due in minutes are ordered by their minutes before anything else
/// about them: a train due sooner always has the smaller order key, whatever
/// the destinations, lines or spelling of the minutes.
pub proof fn lemma_sooner_train_first(t1: TrainInfo, t2: TrainInfo, m1: i32, m2: i32)
    requires
        eta_state_of(t1.min@) == EtaState::Minutes(m1),
        eta_state_of(t2.min@) == EtaState::Minutes(m2),
        m1 < m2,
    ensures
        key_lt(train_key(t1), train_key(t2)),
        !key_lt(train_key(t2), train_key(t1)),
{
    lemma_key_lt_asymmetric(train_key(t1), train_key(t2));
}

/// ETA classes come in the order boarding, arriving, due in minutes, delayed,
/// unknown: a train of an earlier class always has the smaller order key.
pub proof fn lemma_eta_class_first(t1: TrainInfo, t2: TrainInfo)
    ensures
        eta_state_of(t1.min@) is Boarding && !(eta_state_of(t2.min@) is Boarding) ==> key_lt(
            train_key(t1),
            train_key(t2),
        ),
        eta_state_of(t1.min@) is Arriving && (eta_state_of(t2.min@) is Minutes || eta_state_of(t2.min@) is Delayed
            || eta_state_of(t2.min@) is Unknown) ==> key_lt(train_key(t1), train_key(t2)),
        eta_state_of(t1.min@) is Minutes && (eta_state_of(t2.min@) is Delayed || eta_state_of(t2.min@) is Unknown)
            ==> key_lt(train_key(t1), train_key(t2)),
        eta_state_of(t1.min@) is Delayed && eta_state_of(t2.min@) is Unknown ==> key_lt(
            train_key(t1),
            train_key(t2),
        ),
{
}

/// On a stably sorted board the ETAs never go backwards: a train placed after
/// another is of the same or a later ETA class (boarding, arriving, minutes,
/// delayed, unknown), two trains due in minutes come in non-decreasing
/// minutes whatever their destinations, and trains of the same ETA come in
/// order of destination, then of line.
pub proof fn lemma_sorted_board_eta_order(s: Seq<TrainInfo>, r: Seq<TrainInfo>, i: int, j: int)
    requires
        is_stable_sort_of(s, r),
        0 <= i < j < r.len(),
    ensures
        eta_state_of(r[j].min@) is Boarding ==> eta_state_of(r[i].min@) is Boarding,
        eta_state_of(r[j].min@) is Arriving ==> (eta_state_of(r[i].min@) is Boarding || eta_state_of(r[i].min@) is Arriving),
        eta_state_of(r[j].min@) is Minutes ==> (eta_state_of(r[i].min@) is Boarding || eta_state_of(r[i].min@) is Arriving
            || eta_state_of(r[i].min@) is Minutes),
        eta_state_of(r[j].min@) is Delayed ==> !(eta_state_of(r[i].min@) is Unknown),
        eta_state_of(r[i].min@) matches EtaState::Minutes(mi) ==> (eta_state_of(r[j].min@) matches EtaState::Minutes(mj)
            ==> mi <= mj),
        eta_state_of(r[i].min@) == eta_state_of(r[j].min@) ==> !text_lt(
            r[j].destination_name@,
            r[i].destination_name@,
        ),
        eta_state_of(r[i].min@) == eta_state_of(r[j].min@) && r[i].destination_name@ == r[j].destination_name@
            ==> !text_lt(r[j].line@, r[i].line@),
{
    lemma_stable_sort_sorted(s, r);
    assert(!key_lt(train_key(r[j]), train_key(r[i])));
}

/// The arrivals board of a list of trains is determined by the trains and the
/// row limit alone.
pub proof fn lemma_board_unique(trains: Seq<TrainInfo>, max: nat, l1: Seq<Seq<char>>, l2: Seq<Seq<char>>)
    requires
        is_board_of(trains, max, l1),
        is_board_of(trains, max, l2),
    ensures
        l1 == l2,
{
    if trains.len() > 0 {
        let s1 = choose|sorted: Seq<TrainInfo>| is_stable_sort_of(trains, sorted) && l1 == board_lines(sorted, max);
        let s2 = choose|sorted: Seq<TrainInfo>| is_stable_sort_of(trains, sorted) && l2 == board_lines(sorted, max);
        lemma_stable_sort_unique(trains, s1, s2);
    }
}


/// Every configured station code is valid, and there is at least one.
pub proof fn lemma_station_codes_valid(raw: Option<Seq<char>>)
    ensures
        station_codes_spec(raw).len() >= 1,
        forall|i: int| 0 <= i < station_codes_spec(raw).len() ==> is_station_code(#[trigger] station_codes_spec(raw)[i]),
{
    broadcast use vstd::seq_lib::group_filter_ensures;
    reveal_strlit("A01");
}

/// The station whose arrivals are fetched is always a valid station code.
pub proof fn lemma_primary_code_valid(station_raw: Option<Seq<char>>)
    ensures
        is_station_code(primary_code(station_codes_spec(station_raw))),
{
    lemma_station_codes_valid(station_raw);
}

pub proof fn lemma_fit_to_width_len(d: Seq<char>, width: nat)
    ensures
        fit_to_width(d, width).len() == width,
{
}

/// A board row is as wide as its columns: the destination column, a space,
/// the line column (two characters or the line code), a space, and the ETA
/// column (three characters or the ETA text).
pub proof fn lemma_train_row_width(t: TrainInfo)
    ensures
        train_row(t).len() == DESTINATION_COL_WIDTH + 1 + (if t.line@.len() < 2 { 2 } else { t.line@.len() }) + 1
            + (if eta_text(eta_state_of(t.min@)).len() < 3 { 3 } else { eta_text(eta_state_of(t.min@)).len() }),
{
    lemma_fit_to_width_len(t.destination_name@, DESTINATION_COL_WIDTH as nat);
}

proof fn lemma_trim_plain(s: Seq<char>)
    requires
        s.len() > 0,
        !is_white_space(s[0]),
        !is_white_space(s.last()),
    ensures
        crate::text::trim(s) == s,
{
}

proof fn lemma_upper_plain(s: Seq<char>)
    requires
        forall|i: int| 0 <= i < s.len() ==> !is_ascii_lower(#[trigger] s[i]),
    ensures
        upper(s) == s,
{
    assert(upper(s) =~= s);
}

/// The ETA text shown on the board reads back as the same ETA.
pub proof fn lemma_eta_display_round_trip(min: Seq<char>)
    ensures
        eta_state_of(eta_text(eta_state_of(min))) == eta_state_of(min),
{
    reveal_strlit("BRD");
    reveal_strlit("BOARDING");
    reveal_strlit("ARR");
    reveal_strlit("ARV");
    reveal_strlit("ARRIVING");
    reveal_strlit("DLY");
    reveal_strlit("DEL");
    reveal_strlit("DELAYED");
    reveal_strlit("-");
    reveal_strlit("--");
    reveal_strlit("---");
    reveal_strlit("NULL");
    reveal_strlit("N/A");
    reveal_strlit("NA");
    reveal_strlit("TBD");
    reveal_strlit("?");
    let st = eta_state_of(min);
    let d = eta_text(st);
    match st {
        EtaState::Minutes(m) => {
            lemma_nat_text_digits(m as nat);
            assert(d == nat_text(m as nat));
            assert(crate::text::is_digit(d[0]));
            assert(crate::text::is_digit(d.last()));
            lemma_trim_plain(d);
            lemma_upper_plain(d);
            lemma_digits_literal(d, true);
        },
        _ => {
            lemma_trim_plain(d);
            lemma_upper_plain(d);
        },
    }
}

/// Reading an ETA ignores ASCII case and surrounding white space: the field
/// upper-cased, trimmed, both, or wrapped in white space reads the same.
pub proof fn lemma_eta_ignores_case_and_padding(min: Seq<char>, w1: Seq<char>, w2: Seq<char>)
    requires
        all_white(w1),
        all_white(w2),
    ensures
        eta_state_of(upper(min)) == eta_state_of(min),
        eta_state_of(trim(min)) == eta_state_of(min),
        eta_state_of(upper(trim(min))) == eta_state_of(min),
        eta_state_of(w1 + min + w2) == eta_state_of(min),
{
    lemma_eta_ignores_case(min);
    lemma_trim_idempotent(min);
    lemma_eta_ignores_case(trim(min));
    lemma_trim_surrounding(w1, min, w2);
}

proof fn lemma_eta_ignores_case(min: Seq<char>)
    ensures
        eta_state_of(upper(min)) == eta_state_of(min),
{
    let t = trim(min);
    lemma_trim_upper(min);
    lemma_upper_idempotent(t);
    lemma_literal_upper(t, true);
    assert(upper(t).len() == t.len());
}

/// Text of a board row from a train's order key: the key holds everything a
/// row shows.
pub open spec fn key_row(k: (int, int, Seq<char>, Seq<char>, Seq<char>)) -> Seq<char> {
    pad_right(fit_to_width(k.2, DESTINATION_COL_WIDTH as nat), DESTINATION_COL_WIDTH as nat) + seq![' ']
        + pad_right(k.3, 2) + seq![' '] + pad_left(eta_text(eta_of_trimmed(k.4)), 3)
}

proof fn lemma_row_from_key(t: TrainInfo)
    ensures
        train_row(t) == key_row(train_key(t)),
{
}

/// Non-strict order of train keys.
pub open spec fn key_le(
    a: (int, int, Seq<char>, Seq<char>, Seq<char>),
    b: (int, int, Seq<char>, Seq<char>, Seq<char>),
) -> bool {
    !key_lt(b, a)
}

proof fn lemma_key_le_total_ordering()
    ensures
        vstd::relations::total_ordering(
            |a: (int, int, Seq<char>, Seq<char>, Seq<char>), b: (int, int, Seq<char>, Seq<char>, Seq<char>)|
                key_le(a, b),
        ),
{
    let leq = |a: (int, int, Seq<char>, Seq<char>, Seq<char>), b: (int, int, Seq<char>, Seq<char>, Seq<char>)|
        key_le(a, b);
    assert forall|x: (int, int, Seq<char>, Seq<char>, Seq<char>)| #[trigger] leq(x, x) by {
        lemma_key_lt_irreflexive(x);
    }
    assert forall|x: (int, int, Seq<char>, Seq<char>, Seq<char>), y: (int, int, Seq<char>, Seq<char>, Seq<char>)|
        #[trigger] leq(x, y) && #[trigger] leq(y, x) implies x == y by {
        lemma_key_total(x, y);
    }
    assert forall|
        x: (int, int, Seq<char>, Seq<char>, Seq<char>),
        y: (int, int, Seq<char>, Seq<char>, Seq<char>),
        z: (int, int, Seq<char>, Seq<char>, Seq<char>),
    | #[trigger] leq(x, y) && #[trigger] leq(y, z) implies leq(x, z) by {
        lemma_key_total(x, y);
        if key_lt(z, x) {
            if key_lt(x, y) {
                lemma_key_lt_transitive(z, x, y);
            }
        }
    }
    assert forall|x: (int, int, Seq<char>, Seq<char>, Seq<char>), y: (int, int, Seq<char>, Seq<char>, Seq<char>)|
        #[trigger] leq(x, y) || #[trigger] leq(y, x) by {
        lemma_key_total(x, y);
        lemma_key_lt_irreflexive(x);
        if key_lt(x, y) {
            lemma_key_lt_asymmetric(x, y);
        }
    }
}

/// Listing `s` in the order of a permutation `p` of its positions keeps its
/// multiset of elements.
proof fn lemma_reindex_to_multiset<A>(s: Seq<A>, x: Seq<A>, p: Seq<int>)
    requires
        x.len() == s.len(),
        p.len() == s.len(),
        forall|k: int| 0 <= k < p.len() ==> 0 <= #[trigger] p[k] < s.len() && x[k] == s[p[k]],
        forall|i: int| 0 <= i < s.len() ==> #[trigger] p.contains(i),
        forall|k1: int, k2: int|
            0 <= k1 < p.len() && 0 <= k2 < p.len() && k1 != k2 ==> #[trigger] p[k1] != #[trigger] p[k2],
    ensures
        x.to_multiset() == s.to_multiset(),
    decreases s.len(),
{
    broadcast use vstd::seq_lib::group_to_multiset_ensures;
    broadcast use vstd::multiset::group_multiset_axioms;

    if s.len() == 0 {
        assert(x =~= s);
    } else {
        let n = s.len() - 1;
        assert(p.contains(n));
        let j = choose|j: int| 0 <= j < p.len() && p[j] == n;
        let s2 = s.drop_last();
        let x2 = x.remove(j);
        let p2 = p.remove(j);
        assert forall|k: int| 0 <= k < p2.len() implies 0 <= #[trigger] p2[k] < s2.len() && x2[k] == s2[p2[k]] by {
            if k < j {
                assert(p2[k] == p[k]);
                assert(p[k] != p[j]);
            } else {
                assert(p2[k] == p[k + 1]);
                assert(p[k + 1] != p[j]);
            }
        }
        assert forall|i: int| 0 <= i < s2.len() implies #[trigger] p2.contains(i) by {
            assert(p.contains(i));
            let k = choose|k: int| 0 <= k < p.len() && p[k] == i;
            if k < j {
                assert(p2[k] == i);
            } else {
                assert(k != j);
                assert(p2[k - 1] == i);
            }
        }
        assert forall|k1: int, k2: int|
            0 <= k1 < p2.len() && 0 <= k2 < p2.len() && k1 != k2 implies #[trigger] p2[k1] != #[trigger] p2[k2] by {
            let a = if k1 < j { k1 } else { k1 + 1 };
            let b = if k2 < j { k2 } else { k2 + 1 };
            assert(p2[k1] == p[a]);
            assert(p2[k2] == p[b]);
        }
        lemma_reindex_to_multiset(s2, x2, p2);
        assert(s2.push(s.last()) =~= s);
        assert(x[j] == s.last());
        assert(x.to_multiset().count(x[j]) > 0) by {
            assert(x.contains(x[j]));
        }
        assert(x.to_multiset() =~= x2.to_multiset().insert(x[j]));
    }
}

/// Mapping two sequences with the same elements gives sequences with the same
/// elements.
proof fn lemma_map_to_multiset<A, B>(a: Seq<A>, b: Seq<A>, f: spec_fn(A) -> B)
    requires
        a.to_multiset() == b.to_multiset(),
    ensures
        a.map_values(f).to_multiset() == b.map_values(f).to_multiset(),
    decreases a.len(),
{
    broadcast use vstd::seq_lib::group_to_multiset_ensures;
    broadcast use vstd::multiset::group_multiset_axioms;

    vstd::seq_lib::to_multiset_len(a);
    vstd::seq_lib::to_multiset_len(b);
    if a.len() == 0 {
        assert(b.len() == 0);
        assert(a.map_values(f) =~= b.map_values(f));
    } else {
        let x = a.last();
        let a2 = a.drop_last();
        assert(a2.push(x) =~= a);
        assert(a.contains(x));
        assert(b.to_multiset().count(x) > 0);
        assert(b.contains(x));
        let i = choose|i: int| 0 <= i < b.len() && b[i] == x;
        let b2 = b.remove(i);
        assert(a2.to_multiset() =~= a.to_multiset().remove(x));
        lemma_map_to_multiset(a2, b2, f);
        assert(a.map_values(f) =~= a2.map_values(f).push(f(x)));
        assert(b.map_values(f).remove(i) =~= b2.map_values(f));
        assert(b.map_values(f)[i] == f(x));
        assert(b.map_values(f).contains(f(x)));
        assert(b.map_values(f).to_multiset() =~= b2.map_values(f).to_multiset().insert(f(x)));
    }
}

pub open spec fn keys_of(s: Seq<TrainInfo>) -> Seq<(int, int, Seq<char>, Seq<char>, Seq<char>)> {
    s.map_values(|t: TrainInfo| train_key(t))
}

/// A stable sort keeps the multiset of keys and lists them in order.
proof fn lemma_stable_sort_keys(s: Seq<TrainInfo>, r: Seq<TrainInfo>)
    requires
        is_stable_sort_of(s, r),
    ensures
        keys_of(r).to_multiset() == keys_of(s).to_multiset(),
        vstd::relations::sorted_by(
            keys_of(r),
            |a: (int, int, Seq<char>, Seq<char>, Seq<char>), b: (int, int, Seq<char>, Seq<char>, Seq<char>)|
                key_le(a, b),
        ),
{
    let p = choose|p: Seq<int>| stable_order(s, r, p);
    assert forall|k1: int, k2: int|
        0 <= k1 < p.len() && 0 <= k2 < p.len() && k1 != k2 implies #[trigger] p[k1] != #[trigger] p[k2] by {
        if k1 < k2 {
            assert(ranks_before(s, p[k1], p[k2]));
        } else {
            assert(ranks_before(s, p[k2], p[k1]));
        }
        lemma_ranks_before_irreflexive(s, p[k1]);
    }
    assert forall|k: int| 0 <= k < p.len() implies 0 <= #[trigger] p[k] < s.len() && keys_of(r)[k] == keys_of(s)[p[k]] by {
        assert(r[k] == s[p[k]]);
    }
    lemma_reindex_to_multiset(keys_of(s), keys_of(r), p);
    lemma_stable_sort_sorted(s, r);
    assert forall|i: int, j: int| 0 <= i < j < keys_of(r).len() implies #[trigger] key_le(keys_of(r)[i], keys_of(r)[j]) by {
        assert(keys_of(r)[i] == train_key(r[i]));
        assert(keys_of(r)[j] == train_key(r[j]));
    }
}

/// The rows of the arrivals board do not depend on the order in which the
/// trains arrive; when all trains name the same station, neither does the
/// header.
pub proof fn lemma_board_rows_ignore_order(
    trains: Seq<TrainInfo>,
    perm: Seq<TrainInfo>,
    max: nat,
    l1: Seq<Seq<char>>,
    l2: Seq<Seq<char>>,
)
    requires
        perm.to_multiset() == trains.to_multiset(),
        is_board_of(trains, max, l1),
        is_board_of(perm, max, l2),
    ensures
        l1.len() == l2.len(),
        l1.drop_first() == l2.drop_first(),
        (forall|i: int, j: int|
            0 <= i < trains.len() && 0 <= j < trains.len() ==> #[trigger] trains[i].location_name@
                == #[trigger] trains[j].location_name@) ==> l1 == l2,
{
    broadcast use vstd::seq_lib::group_to_multiset_ensures;

    vstd::seq_lib::to_multiset_len(perm);
    vstd::seq_lib::to_multiset_len(trains);
    assert(perm.len() == trains.len());
    if trains.len() == 0 {
        assert(l1 == l2);
    } else {
        let s1 = choose|sorted: Seq<TrainInfo>| is_stable_sort_of(trains, sorted) && l1 == board_lines(sorted, max);
        let s2 = choose|sorted: Seq<TrainInfo>| is_stable_sort_of(perm, sorted) && l2 == board_lines(sorted, max);
        lemma_stable_sort_keys(trains, s1);
        lemma_stable_sort_keys(perm, s2);
        lemma_map_to_multiset(perm, trains, |t: TrainInfo| train_key(t));
        lemma_key_le_total_ordering();
        vstd::seq_lib::lemma_sorted_unique(
            keys_of(s1),
            keys_of(s2),
            |a: (int, int, Seq<char>, Seq<char>, Seq<char>), b: (int, int, Seq<char>, Seq<char>, Seq<char>)|
                key_le(a, b),
        );
        assert(s1.len() == s2.len());
        let shown = if max < s1.len() { max } else { s1.len() };
        let rows1 = s1.take(shown as int).map_values(|t: TrainInfo| train_row(t));
        let rows2 = s2.take(shown as int).map_values(|t: TrainInfo| train_row(t));
        assert forall|k: int| 0 <= k < rows1.len() implies rows1[k] == rows2[k] by {
            lemma_row_from_key(s1[k]);
            lemma_row_from_key(s2[k]);
            assert(keys_of(s1)[k] == keys_of(s2)[k]);
        }
        assert(rows1 =~= rows2);
        assert(l1.drop_first() =~= rows1);
        assert(l2.drop_first() =~= rows2);
        if forall|i: int, j: int|
            0 <= i < trains.len() && 0 <= j < trains.len() ==> #[trigger] trains[i].location_name@
                == #[trigger] trains[j].location_name@ {
            let p1 = choose|p: Seq<int>| stable_order(trains, s1, p);
            let p2 = choose|p: Seq<int>| stable_order(perm, s2, p);
            assert(s1[0] == trains[p1[0]]);
            assert(s2[0] == perm[p2[0]]);
            assert(perm.contains(perm[p2[0]]));
            assert(trains.to_multiset().count(perm[p2[0]]) > 0);
            assert(trains.contains(perm[p2[0]]));
            let i = choose|i: int| 0 <= i < trains.len() && trains[i] == perm[p2[0]];
            assert(trains[i].location_name@ == trains[p1[0]].location_name@);
            assert(l1[0] == l2[0]);
            assert(l1 =~= seq![l1[0]] + l1.drop_first());
            assert(l2 =~= seq![l2[0]] + l2.drop_first());
        }
    }
}

/// Texts joined with a separator between them.
pub open spec fn join_with(pieces: Seq<Seq<char>>, sep: char) -> Seq<char>
    decreases pieces.len(),
{
    if pieces.len() == 0 {
        Seq::<char>::empty()
    } else if pieces.len() == 1 {
        pieces[0]
    } else {
        join_with(pieces.drop_last(), sep) + seq![sep] + pieces.last()
    }
}

proof fn lemma_split_without_sep(y: Seq<char>, c: char)
    requires
        !y.contains(c),
    ensures
        split_on(y, c) == seq![y],
    decreases y.len(),
{
    if y.len() > 0 {
        assert(!y.drop_last().contains(c)) by {
            if y.drop_last().contains(c) {
                let k = choose|k: int| 0 <= k < y.drop_last().len() && y.drop_last()[k] == c;
                assert(y[k] == c);
            }
        }
        assert(y[y.len() - 1] == y.last());
        lemma_split_without_sep(y.drop_last(), c);
        assert(y.drop_last().push(y.last()) =~= y);
        assert(split_on(y, c) =~= seq![y]);
    } else {
        assert(y =~= Seq::<char>::empty());
    }
}

proof fn lemma_split_after_sep(x: Seq<char>, y: Seq<char>, c: char)
    requires
        !y.contains(c),
    ensures
        split_on(x + seq![c] + y, c) == split_on(x, c).push(y),
    decreases y.len(),
{
    let z = x + seq![c] + y;
    if y.len() == 0 {
        assert(z.drop_last() =~= x);
        assert(y =~= Seq::<char>::empty());
    } else {
        assert(!y.drop_last().contains(c)) by {
            if y.drop_last().contains(c) {
                let k = choose|k: int| 0 <= k < y.drop_last().len() && y.drop_last()[k] == c;
                assert(y[k] == c);
            }
        }
        assert(y[y.len() - 1] == y.last());
        lemma_split_after_sep(x, y.drop_last(), c);
        assert(z.drop_last() =~= x + seq![c] + y.drop_last());
        assert(z.last() == y.last());
        assert(y.drop_last().push(y.last()) =~= y);
        assert(split_on(z, c) =~= split_on(x, c).push(y));
    }
}

/// Splitting joined pieces that hold no separator gives the pieces back.
proof fn lemma_split_join(pieces: Seq<Seq<char>>, c: char)
    requires
        pieces.len() >= 1,
        forall|i: int| 0 <= i < pieces.len() ==> !(#[trigger] pieces[i]).contains(c),
    ensures
        split_on(join_with(pieces, c), c) == pieces,
    decreases pieces.len(),
{
    if pieces.len() == 1 {
        lemma_split_without_sep(pieces[0], c);
        assert(pieces =~= seq![pieces[0]]);
    } else {
        let front = pieces.drop_last();
        assert forall|i: int| 0 <= i < front.len() implies !(#[trigger] front[i]).contains(c) by {
            assert(front[i] == pieces[i]);
        }
        lemma_split_join(front, c);
        assert(pieces.last() == pieces[pieces.len() - 1]);
        lemma_split_after_sep(join_with(front, c), pieces.last(), c);
        assert(front.push(pieces.last()) =~= pieces);
    }
}

proof fn lemma_filter_keeps_all(ps: Seq<Seq<char>>)
    requires
        forall|i: int| 0 <= i < ps.len() ==> is_station_code(#[trigger] ps[i]),
    ensures
        ps.filter(|c: Seq<char>| is_station_code(c)) == ps,
    decreases ps.len(),
{
    reveal_with_fuel(Seq::filter, 1);
    if ps.len() > 0 {
        let front = ps.drop_last();
        assert forall|i: int| 0 <= i < front.len() implies is_station_code(#[trigger] front[i]) by {
            assert(front[i] == ps[i]);
        }
        lemma_filter_keeps_all(front);
        assert(ps.last() == ps[ps.len() - 1]);
        assert(front.push(ps.last()) =~= ps);
    } else {
        assert(ps.filter(|c: Seq<char>| is_station_code(c)) =~= ps);
    }
}

/// Reading valid station codes joined by commas gives the same codes back.
pub proof fn lemma_station_codes_round_trip(codes: Seq<Seq<char>>)
    requires
        codes.len() >= 1,
        forall|i: int| 0 <= i < codes.len() ==> is_station_code(#[trigger] codes[i]),
    ensures
        station_codes_spec(Some(join_with(codes, ','))) == codes,
{
    assert forall|i: int| 0 <= i < codes.len() implies !(#[trigger] codes[i]).contains(',') by {
        let code = codes[i];
        if code.contains(',') {
            let k = choose|k: int| 0 <= k < code.len() && code[k] == ',';
            assert(k == 0 || k == 1 || k == 2);
        }
    }
    lemma_split_join(codes, ',');
    let f = |p: Seq<char>| upper(trim(p));
    assert forall|i: int| 0 <= i < codes.len() implies codes.map_values(f)[i] == codes[i] by {
        let code = codes[i];
        lemma_trim_plain(code);
        lemma_upper_plain(code);
    }
    assert(codes.map_values(f) =~= codes);
    lemma_filter_keeps_all(codes);
}

/// Parsing the configured station codes joined by commas gives the same
/// configuration again: the station setting's reading is a fixed point.
pub proof fn lemma_station_codes_fixed_point(raw: Option<Seq<char>>)
    ensures
        station_codes_spec(Some(join_with(station_codes_spec(raw), ','))) == station_codes_spec(raw),
{
    lemma_station_codes_valid(raw);
    lemma_station_codes_round_trip(station_codes_spec(raw));
}

/// A station code is exactly three characters: an ASCII letter from `A` to `Z`
/// followed by two ASCII digits from `0` to `9`.
pub proof fn lemma_station_code_shape(s: Seq<char>)
    ensures
        is_station_code(s) <==> (s.len() == 3 && 'A' <= s[0] && s[0] <= 'Z' && '0' <= s[1] && s[1] <= '9'
            && '0' <= s[2] && s[2] <= '9'),
{
}

/// A station setting that holds one well-formed code and nothing else
/// configures exactly that station.
pub proof fn lemma_single_code_setting(s: Seq<char>)
    requires
        s.len() == 3,
        'A' <= s[0] && s[0] <= 'Z',
        '0' <= s[1] && s[1] <= '9',
        '0' <= s[2] && s[2] <= '9',
    ensures
        station_codes_spec(Some(s)) == seq![s],
{
    lemma_station_code_shape(s);
    let codes = seq![s];
    assert forall|i: int| 0 <= i < codes.len() implies is_station_code(#[trigger] codes[i]) by {
        assert(codes[i] == s);
    }
    assert(join_with(codes, ',') == s);
    lemma_station_codes_round_trip(codes);
}

/// The arrivals panel lines of one configured station.
#[derive(Debug)]
pub struct StationBoard {
    pub code: String,
    pub lines: Vec<String>,
}

/// One station's section of the grouped panel: its header line followed by
/// ` (<code>)`, then its other lines.
pub open spec fn labelled_section(code: Seq<char>, lines: Seq<Seq<char>>) -> Seq<Seq<char>> {
    if lines.len() == 0 {
        Seq::empty()
    } else {
        seq![lines[0] + " ("@ + code + ")"@] + lines.drop_first()
    }
}

/// The sections of all stations in order, separated by empty lines.
pub open spec fn grouped_lines(sections: Seq<(Seq<char>, Seq<Seq<char>>)>) -> Seq<Seq<char>>
    decreases sections.len(),
{
    if sections.len() == 0 {
        Seq::empty()
    } else if sections.len() == 1 {
        labelled_section(sections[0].0, sections[0].1)
    } else {
        grouped_lines(sections.drop_last()) + seq![Seq::<char>::empty()] + labelled_section(
            sections.last().0,
            sections.last().1,
        )
    }
}

pub open spec fn board_views(boards: Seq<StationBoard>) -> Seq<(Seq<char>, Seq<Seq<char>>)> {
    boards.map_values(|b: StationBoard| (b.code@, texts(b.lines@)))
}

/// The arrivals panel for several stations: each station's lines grouped
/// under its header, which names the station code.
pub fn group_station_boards(boards: &Vec<StationBoard>) -> (r: Vec<String>)
    ensures
        texts(r@) == grouped_lines(board_views(boards@)),
{
    let ghost views = board_views(boards@);
    let mut out: Vec<String> = Vec::new();
    let mut i: usize = 0;
    while i < boards.len()
        invariant
            i <= boards@.len(),
            views == board_views(boards@),
            texts(out@) == grouped_lines(views.take(i as int)),
        decreases boards@.len() - i,
    {
        let board = &boards[i];
        let ghost before = texts(out@);
        let ghost sec = labelled_section(board.code@, texts(board.lines@));
        if i > 0 {
            out.push(String::new());
        }
        let ghost with_gap = texts(out@);
        if board.lines.len() > 0 {
            let mut header = board.lines[0].clone();
            header.append(" (");
            header.append(board.code.as_str());
            header.append(")");
            out.push(header);
            let mut k: usize = 1;
            while k < board.lines.len()
                invariant
                    1 <= k <= board.lines@.len(),
                    texts(out@) == with_gap + seq![board.lines@[0]@ + " ("@ + board.code@ + ")"@] + texts(
                        board.lines@,
                    ).subrange(1, k as int),
                decreases board.lines@.len() - k,
            {
                let ghost prev = texts(out@);
                out.push(board.lines[k].clone());
                assert(texts(out@) =~= prev.push(board.lines@[k as int]@));
                assert(texts(board.lines@).subrange(1, k + 1) =~= texts(board.lines@).subrange(1, k as int).push(
                    board.lines@[k as int]@,
                ));
                k = k + 1;
            }
            assert(texts(board.lines@).subrange(1, board.lines@.len() as int) =~= texts(board.lines@).drop_first());
            assert(texts(out@) =~= with_gap + sec);
        } else {
            assert(texts(out@) =~= with_gap + sec);
        }
        proof {
            let t = views.take(i + 1);
            assert(t.drop_last() =~= views.take(i as int));
            assert(t.last() == (board.code@, texts(board.lines@)));
            if i > 0 {
                assert(with_gap =~= before + seq![Seq::<char>::empty()]);
            } else {
                assert(with_gap =~= Seq::<Seq<char>>::empty());
                assert(t =~= seq![(board.code@, texts(board.lines@))]);
            }
        }
        i = i + 1;
    }
    assert(views.take(boards@.len() as int) =~= views);
    out
}


/// The panel of a single station is its own lines: the header with the code
/// appended as ` (<code>)`, then each further line of the station unchanged,
/// in its place.
pub proof fn lemma_single_station_section(code: Seq<char>, lines: Seq<Seq<char>>)
    requires
        lines.len() > 0,
    ensures
        grouped_lines(seq![(code, lines)]).len() == lines.len(),
        grouped_lines(seq![(code, lines)])[0] == lines[0] + " ("@ + code + ")"@,
        forall|k: int| 1 <= k < lines.len() ==> #[trigger] grouped_lines(seq![(code, lines)])[k] == lines[k],
{
    let g = grouped_lines(seq![(code, lines)]);
    assert(seq![(code, lines)].len() == 1);
    assert(g == labelled_section(code, lines));
    assert forall|k: int| 1 <= k < lines.len() implies #[trigger] g[k] == lines[k] by {
        assert(lines.drop_first()[k - 1] == lines[k]);
    }
}

/// Adding a station to the panel keeps the panel so far, then an empty line,
/// then the new station's own section.
pub proof fn lemma_grouped_lines_push(sections: Seq<(Seq<char>, Seq<Seq<char>>)>, x: (Seq<char>, Seq<Seq<char>>))
    requires
        sections.len() > 0,
    ensures
        grouped_lines(sections.push(x)) == grouped_lines(sections) + seq![Seq::<char>::empty()] + grouped_lines(
            seq![x],
        ),
{
    assert(sections.push(x).drop_last() =~= sections);
    assert(seq![x].len() == 1);
}

} // verus!
