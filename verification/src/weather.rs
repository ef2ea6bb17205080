//! Weather panel logic: reading the forecast's local time stamps, choosing the
//! hours still ahead today, and the hour labels of the temperature chart.
use vstd::prelude::*;
use vstd::string::*;
use chrono::{Datelike, Local, NaiveDateTime, NaiveTime, TimeZone, Timelike};
use crate::text::{
    digit_char, first_index_of, first_index_of_char, integer_literal, last_occurrence,
    last_occurrence_of, lemma_find_char_from_bounds, lemma_rfind_from_occurs, nat_text,
    parse_u32, u32_text, lemma_digit_char_value, lemma_rfind_from_finds, lemma_digits_literal,
    occurs_at, find_char_from, digits_value, all_digits,
};
use crate::wmata::texts;

verus! {

/// chrono's date and time without a time zone, carried opaquely from a parsed
/// stamp to the check of its local time.
#[verifier::external_type_specification]
#[verifier::external_body]
pub struct ExNaiveDateTime(chrono::NaiveDateTime);

/// Date and time to the minute, as read from a forecast time stamp.
#[derive(Debug)]
pub struct MinuteStamp {
    pub year: i32,
    pub month: u32,
    pub day: u32,
    pub hour: u32,
    pub minute: u32,
}

impl MinuteStamp {
    pub open spec fn fields(self) -> (i32, u32, u32, u32, u32) {
        (self.year, self.month, self.day, self.hour, self.minute)
    }
}

/// The current local date and time of day.
#[derive(Debug)]
pub struct NowStamp {
    pub year: i32,
    pub month: u32,
    pub day: u32,
    pub hour: u32,
    pub minute: u32,
    pub second: u32,
    pub nanosecond: u32,
}

/// An hour of the forecast still ahead: its position in the forecast and its
/// local time of day.
#[derive(Debug)]
pub struct HourSlot {
    pub index: usize,
    pub clock: String,
}

/// Date and time fields (year, month, day, hour, minute) that chrono reads
/// from `s` with the format `%Y-%m-%dT%H:%M`, or `None` when it refuses `s`.
pub uninterp spec fn chrono_minute_stamp(s: Seq<char>) -> Option<(i32, u32, u32, u32, u32)>;

/// Calls `chrono::NaiveDateTime::parse_from_str(s, "%Y-%m-%dT%H:%M")` and
/// reads the date and time fields of the result.  Its result is named by
/// `chrono_minute_stamp`; of it only chrono's guarantee that an hour lies in
/// `0..24` and a minute in `0..60` is stated.
#[verifier::external_body]
fn parse_minute_stamp(s: &str) -> (r: Option<(NaiveDateTime, MinuteStamp)>)
    ensures
        r is None <==> chrono_minute_stamp(s@) is None,
        r matches Some(v) ==> chrono_minute_stamp(s@) == Some(v.1.fields()),
        r matches Some(v) ==> v.1.hour < 24 && v.1.minute < 60,
{
    match NaiveDateTime::parse_from_str(s, "%Y-%m-%dT%H:%M") {
        Ok(n) => Some(
            (
                n,
                MinuteStamp {
                    year: n.year(),
                    month: n.month(),
                    day: n.day(),
                    hour: n.hour(),
                    minute: n.minute(),
                },
            ),
        ),
        Err(_) => None,
    }
}

/// Calls `chrono::Local.from_local_datetime(n)` and tells whether the local
/// time names exactly one instant (`single`).  The answer depends on the
/// machine's time zone, so nothing is stated of it.
#[verifier::external_body]
fn is_unambiguous_local(n: &NaiveDateTime) -> bool {
    Local.from_local_datetime(n).single().is_some()
}

/// Two decimal digits of a number below one hundred.
pub open spec fn two_digits(n: nat) -> Seq<char> {
    seq![digit_char((n / 10) as int), digit_char((n % 10) as int)]
}

/// Time of day as chrono displays a whole minute: `HH:MM:00`.
pub open spec fn clock_text_spec(hour: nat, minute: nat) -> Seq<char> {
    two_digits(hour) + seq![':'] + two_digits(minute) + seq![':', '0', '0']
}

/// Calls `chrono::NaiveTime::from_hms_opt(hour, minute, 0)` and its `Display`,
/// which writes hours, minutes and seconds as two digits each, separated by
/// colons, and no fraction for a whole second.
#[verifier::external_body]
fn clock_text(hour: u32, minute: u32) -> (r: String)
    requires
        hour < 24,
        minute < 60,
    ensures
        r@ == clock_text_spec(hour as nat, minute as nat),
{
    match NaiveTime::from_hms_opt(hour, minute, 0) {
        Some(t) => t.to_string(),
        None => String::new(),
    }
}

/// A current date and time whose fields lie in the ranges chrono documents
/// for them (a nanosecond count of a second or more marks a leap second).
pub open spec fn now_valid(now: NowStamp) -> bool {
    &&& 1 <= now.month <= 12
    &&& 1 <= now.day <= 31
    &&& now.hour < 24
    &&& now.minute < 60
    &&& now.second < 60
    &&& now.nanosecond < 2_000_000_000
}

/// Calls `chrono::Local::now()` and reads its local date and time-of-day
/// fields.  The value depends on the clock and time zone of the machine; only
/// the field ranges that chrono's `Datelike` and `Timelike` document are stated.
#[verifier::external_body]
fn local_now() -> (r: NowStamp)
    ensures
        now_valid(r),
{
    let now = Local::now();
    NowStamp {
        year: now.year(),
        month: now.month(),
        day: now.day(),
        hour: now.hour(),
        minute: now.minute(),
        second: now.second(),
        nanosecond: now.nanosecond(),
    }
}

/// What was read from one forecast time stamp: its fields, and whether the
/// local time it names is unambiguous on this machine.
#[derive(Debug)]
pub struct StampReading {
    pub stamp: MinuteStamp,
    pub unambiguous: bool,
}

/// A reading usable as a local time: the stamp was read and is unambiguous.
pub open spec fn reading_ok(r: Option<StampReading>) -> bool {
    r matches Some(rd) && rd.unambiguous
}

/// A reading's stamp holds a valid time of day.
pub open spec fn reading_valid(r: Option<StampReading>) -> bool {
    r matches Some(rd) ==> rd.stamp.hour < 24 && rd.stamp.minute < 60
}

/// Reads a forecast time stamp with chrono and checks its local time.
fn read_stamp(s: &str) -> (r: Option<StampReading>)
    ensures
        r is None <==> chrono_minute_stamp(s@) is None,
        r matches Some(rd) ==> chrono_minute_stamp(s@) == Some(rd.stamp.fields()),
        reading_valid(r),
{
    match parse_minute_stamp(s) {
        None => None,
        Some((naive, stamp)) => {
            let unambiguous = is_unambiguous_local(&naive);
            Some(StampReading { stamp, unambiguous })
        },
    }
}

/// The time of day of a reading; none when the stamp was unreadable or its
/// local time ambiguous.
pub fn clock_of_reading(reading: &Option<StampReading>) -> (r: Option<String>)
    requires
        reading_valid(*reading),
    ensures
        r is Some <==> reading_ok(*reading),
        r matches Some(c) ==> (reading matches Some(rd) && c@ == clock_text_spec(
            rd.stamp.hour as nat,
            rd.stamp.minute as nat,
        )),
{
    match reading {
        Some(rd) => if rd.unambiguous {
            Some(clock_text(rd.stamp.hour, rd.stamp.minute))
        } else {
            None
        },
        None => None,
    }
}

/// The local time of day of a forecast time stamp, when chrono reads it and
/// the local time it names is unambiguous.  Whether it is ambiguous depends on
/// the machine's time zone, so a `None` for a readable stamp is not stated.
pub fn current_clock(datetime: &str) -> (r: Option<String>)
    ensures
        chrono_minute_stamp(datetime@) is None ==> r is None,
        r matches Some(c) ==> (chrono_minute_stamp(datetime@) matches Some(st) && c@ == clock_text_spec(
            st.3 as nat,
            st.4 as nat,
        )),
{
    let reading = read_stamp(datetime);
    clock_of_reading(&reading)
}

/// The stamp falls on the current local day.
pub open spec fn same_day(st: (i32, u32, u32, u32, u32), now: NowStamp) -> bool {
    st.0 == now.year && st.1 == now.month && st.2 == now.day
}

/// The stamp's time of day is not earlier than the current one.
pub open spec fn not_before(st: (i32, u32, u32, u32, u32), now: NowStamp) -> bool {
    let secs = st.3 * 3600 + st.4 * 60;
    let now_secs = now.hour * 3600 + now.minute * 60 + now.second;
    secs > now_secs || (secs == now_secs && now.nanosecond == 0)
}

pub open spec fn is_upcoming(st: (i32, u32, u32, u32, u32), now: NowStamp) -> bool {
    same_day(st, now) && not_before(st, now)
}

/// A forecast hour is still ahead exactly when it falls on today's date and
/// its time of day is not earlier than the current one: a later hour, or the
/// same hour and a later minute, or the very same minute with no second or
/// fraction of a second gone.
pub proof fn lemma_upcoming_is_chronological(st: (i32, u32, u32, u32, u32), now: NowStamp)
    requires
        st.3 < 24,
        st.4 < 60,
        now_valid(now),
    ensures
        is_upcoming(st, now) <==> (st.0 == now.year && st.1 == now.month && st.2 == now.day && (st.3 > now.hour
            || (st.3 == now.hour && st.4 > now.minute) || (st.3 == now.hour && st.4 == now.minute
            && now.second == 0 && now.nanosecond == 0))),
{
}

/// The hours among the first `n` forecast stamps that are still ahead today,
/// with their positions and times of day, in forecast order.
pub open spec fn upcoming_slots(hours: Seq<Seq<char>>, n: nat, now: NowStamp) -> Seq<(int, Seq<char>)>
    decreases n,
{
    if n == 0 {
        Seq::empty()
    } else {
        let prev = upcoming_slots(hours, (n - 1) as nat, now);
        match chrono_minute_stamp(hours[n - 1]) {
            Some(st) => if is_upcoming(st, now) {
                prev.push((n - 1, clock_text_spec(st.3 as nat, st.4 as nat)))
            } else {
                prev
            },
            None => prev,
        }
    }
}

pub open spec fn slot_views(v: Seq<HourSlot>) -> Seq<(int, Seq<char>)> {
    v.map_values(|h: HourSlot| (h.index as int, h.clock@))
}

/// Some of the first `n` stamps is one chrono refuses.
pub open spec fn has_unreadable_stamp(hours: Seq<Seq<char>>, n: int) -> bool {
    exists|i: int| 0 <= i < n && #[trigger] chrono_minute_stamp(hours[i]) is None
}

pub open spec fn min_len(len: int, limit: int) -> int {
    if len < limit {
        len
    } else {
        limit
    }
}

/// The upcoming hours among readings, with their positions and times of day,
/// in order.
pub open spec fn upcoming_of_readings(rs: Seq<Option<StampReading>>, now: NowStamp) -> Seq<(int, Seq<char>)>
    decreases rs.len(),
{
    if rs.len() == 0 {
        Seq::empty()
    } else {
        let prev = upcoming_of_readings(rs.drop_last(), now);
        match rs.last() {
            Some(rd) => if is_upcoming(rd.stamp.fields(), now) {
                prev.push((rs.len() - 1, clock_text_spec(rd.stamp.hour as nat, rd.stamp.minute as nat)))
            } else {
                prev
            },
            None => prev,
        }
    }
}

/// Picks the readings of today not earlier than `now`; there is no answer when
/// some reading is unreadable or names an ambiguous local time.
pub fn upcoming_from_readings(readings: &Vec<Option<StampReading>>, now: &NowStamp) -> (r: Option<Vec<HourSlot>>)
    requires
        forall|i: int| 0 <= i < readings@.len() ==> reading_valid(#[trigger] readings@[i]),
    ensures
        r is None <==> exists|i: int| 0 <= i < readings@.len() && !reading_ok(#[trigger] readings@[i]),
        r matches Some(slots) ==> slot_views(slots@) == upcoming_of_readings(readings@, *now),
{
    let n = readings.len();
    let now_secs: u64 = now.hour as u64 * 3600 + now.minute as u64 * 60 + now.second as u64;
    let mut slots: Vec<HourSlot> = Vec::new();
    let mut i: usize = 0;
    while i < n
        invariant
            n == readings@.len(),
            i <= n,
            now_secs == now.hour * 3600 + now.minute * 60 + now.second,
            forall|k: int| 0 <= k < readings@.len() ==> reading_valid(#[trigger] readings@[k]),
            forall|j: int| 0 <= j < i ==> reading_ok(#[trigger] readings@[j]),
            slot_views(slots@) == upcoming_of_readings(readings@.take(i as int), *now),
        decreases n - i,
    {
        assert(readings@.take(i + 1).drop_last() =~= readings@.take(i as int));
        assert(readings@.take(i + 1).last() == readings@[i as int]);
        match &readings[i] {
            None => {
                return None;
            },
            Some(rd) => {
                if !rd.unambiguous {
                    return None;
                }
                assert(reading_valid(readings@[i as int]));
                let stamp = &rd.stamp;
                let secs: u64 = stamp.hour as u64 * 3600 + stamp.minute as u64 * 60;
                let upcoming = stamp.year == now.year && stamp.month == now.month && stamp.day == now.day
                    && (secs > now_secs || (secs == now_secs && now.nanosecond == 0));
                let ghost old_slots = slots@;
                if upcoming {
                    let clock = clock_text(stamp.hour, stamp.minute);
                    slots.push(HourSlot { index: i, clock });
                    assert(slot_views(slots@) =~= slot_views(old_slots).push(
                        (i as int, clock_text_spec(stamp.hour as nat, stamp.minute as nat)),
                    ));
                }
            },
        }
        i = i + 1;
    }
    assert(readings@.take(n as int) =~= readings@);
    Some(slots)
}

/// Every readable, unambiguous forecast stamp of today whose time of day is
/// not earlier than now is among the chosen hours, with its position and its
/// `HH:MM:00` time of day.
pub proof fn lemma_upcoming_reading_chosen(rs: Seq<Option<StampReading>>, now: NowStamp, k: int)
    requires
        now_valid(now),
        0 <= k < rs.len(),
        rs[k] is Some,
        rs[k].unwrap().stamp.hour < 24,
        rs[k].unwrap().stamp.minute < 60,
        rs[k].unwrap().stamp.year == now.year,
        rs[k].unwrap().stamp.month == now.month,
        rs[k].unwrap().stamp.day == now.day,
        rs[k].unwrap().stamp.hour > now.hour || (rs[k].unwrap().stamp.hour == now.hour
            && rs[k].unwrap().stamp.minute > now.minute) || (rs[k].unwrap().stamp.hour == now.hour
            && rs[k].unwrap().stamp.minute == now.minute && now.second == 0 && now.nanosecond == 0),
    ensures
        upcoming_of_readings(rs, now).contains(
            (k, clock_text_spec(rs[k].unwrap().stamp.hour as nat, rs[k].unwrap().stamp.minute as nat)),
        ),
    decreases rs.len(),
{
    let rd = rs[k].unwrap();
    let entry = (k, clock_text_spec(rd.stamp.hour as nat, rd.stamp.minute as nat));
    let prev = upcoming_of_readings(rs.drop_last(), now);
    if k == rs.len() - 1 {
        lemma_upcoming_is_chronological(rd.stamp.fields(), now);
        assert(rs.last() == rs[k]);
        assert(upcoming_of_readings(rs, now) == prev.push(entry));
        assert(prev.push(entry)[prev.len() as int] == entry);
    } else {
        assert(rs.drop_last()[k] == rs[k]);
        lemma_upcoming_reading_chosen(rs.drop_last(), now, k);
        let j = choose|j: int| 0 <= j < prev.len() && prev[j] == entry;
        let all = upcoming_of_readings(rs, now);
        assert(all == prev || all == prev.push(all.last()));
        if all != prev {
            assert(all[j] == prev[j]);
        }
    }
}

/// Readings that agree with chrono's reading of the stamps give the upcoming
/// hours of the stamps.
proof fn lemma_readings_match_stamps(hours: Seq<Seq<char>>, rs: Seq<Option<StampReading>>, n: nat, now: NowStamp)
    requires
        rs.len() == n,
        n <= hours.len(),
        forall|i: int| 0 <= i < n ==> (#[trigger] rs[i] is None <==> chrono_minute_stamp(hours[i]) is None),
        forall|i: int| 0 <= i < n ==> (#[trigger] rs[i] matches Some(rd) ==> chrono_minute_stamp(hours[i]) == Some(rd.stamp.fields())),
    ensures
        upcoming_of_readings(rs, now) == upcoming_slots(hours, n, now),
    decreases n,
{
    if n > 0 {
        let prev = rs.drop_last();
        assert forall|i: int| 0 <= i < n - 1 implies (#[trigger] prev[i] is None <==> chrono_minute_stamp(hours[i]) is None) by {
            assert(prev[i] == rs[i]);
        }
        assert forall|i: int| 0 <= i < n - 1 implies (#[trigger] prev[i] matches Some(rd) ==> chrono_minute_stamp(hours[i]) == Some(rd.stamp.fields())) by {
            assert(prev[i] == rs[i]);
        }
        lemma_readings_match_stamps(hours, prev, (n - 1) as nat, now);
        assert(rs.last() == rs[n - 1]);
    }
}

/// Picks, among the first `limit` forecast stamps, the hours of today not
/// earlier than `now`.  There is no answer when a stamp cannot be read or
/// names an ambiguous local time; whether a local time is ambiguous depends on
/// the machine's time zone and is not stated.  With no stamp to read, the
/// answer is that no hour is ahead.
pub fn select_upcoming_hours(hourly: &Vec<String>, limit: usize, now: &NowStamp) -> (r: Option<Vec<HourSlot>>)
    ensures
        min_len(hourly@.len() as int, limit as int) == 0 ==> (r matches Some(slots) && slots@.len() == 0),
        has_unreadable_stamp(texts(hourly@), min_len(hourly@.len() as int, limit as int)) ==> r is None,
        r matches Some(slots) ==> slot_views(slots@) == upcoming_slots(
            texts(hourly@),
            min_len(hourly@.len() as int, limit as int) as nat,
            *now,
        ),
{
    let ghost hours = texts(hourly@);
    let n = if hourly.len() < limit {
        hourly.len()
    } else {
        limit
    };
    let mut readings: Vec<Option<StampReading>> = Vec::new();
    let mut i: usize = 0;
    while i < n
        invariant
            n <= hourly@.len(),
            hours == texts(hourly@),
            i <= n,
            readings@.len() == i,
            forall|k: int| 0 <= k < i ==> reading_valid(#[trigger] readings@[k]),
            forall|k: int| 0 <= k < i ==> (#[trigger] readings@[k] is None <==> chrono_minute_stamp(hours[k]) is None),
            forall|k: int| 0 <= k < i ==> (#[trigger] readings@[k] matches Some(rd) ==> chrono_minute_stamp(hours[k]) == Some(rd.stamp.fields())),
        decreases n - i,
    {
        assert(hours[i as int] == hourly@[i as int]@);
        let reading = read_stamp(hourly[i].as_str());
        readings.push(reading);
        i = i + 1;
    }
    let r = upcoming_from_readings(&readings, now);
    proof {
        if has_unreadable_stamp(hours, n as int) {
            let j = choose|j: int| 0 <= j < n && #[trigger] chrono_minute_stamp(hours[j]) is None;
            assert(!reading_ok(readings@[j]));
        }
        lemma_readings_match_stamps(hours, readings@, n as nat, *now);
        if n == 0 {
            assert(r matches Some(slots) && slot_views(slots@).len() == slots@.len());
        }
    }
    r
}

/// The hours of today still ahead among the first `temp_count` forecast
/// stamps, judged against the local time at the moment of the call.  As for
/// `select_upcoming_hours`, a stamp naming an ambiguous local time gives no
/// answer, which is not stated.
pub fn get_hourly_slots(hourly: &Vec<String>, temp_count: usize) -> (r: Option<Vec<HourSlot>>)
    ensures
        min_len(hourly@.len() as int, temp_count as int) == 0 ==> (r matches Some(slots) && slots@.len() == 0),
        has_unreadable_stamp(texts(hourly@), min_len(hourly@.len() as int, temp_count as int)) ==> r is None,
        r matches Some(slots) ==> exists|now: NowStamp|
            now_valid(now) && slot_views(slots@) == #[trigger] upcoming_slots(
                texts(hourly@),
                min_len(hourly@.len() as int, temp_count as int) as nat,
                now,
            ),
{
    let now = local_now();
    select_upcoming_hours(hourly, temp_count, &now)
}

/// Twelve-hour clock label of an hour of the day, such as `2PM` or `12AM`.
pub open spec fn hour_label(hour: nat) -> Seq<char> {
    let h12: nat = if hour % 12 == 0 {
        12
    } else {
        hour % 12
    };
    nat_text(h12) + if hour < 12 {
        "AM"@
    } else {
        "PM"@
    }
}

pub fn hour_to_label(hour: u32) -> (r: String)
    ensures
        r@ == hour_label(hour as nat),
{
    let h12 = if hour % 12 == 0 {
        12
    } else {
        hour % 12
    };
    let mut r = u32_text(h12);
    if hour < 12 {
        r.append("AM");
    } else {
        r.append("PM");
    }
    r
}

/// The chart label of an hour of the day on the twelve-hour clock: midnight
/// is `12AM`, hours one to eleven keep their number with `AM`, noon is `12PM`,
/// and hours thirteen to twenty-three count from noon with `PM`.
pub proof fn lemma_hour_label_twelve_hour_clock(h: nat)
    requires
        h < 24,
    ensures
        h == 0 ==> hour_label(h) == nat_text(12) + "AM"@,
        1 <= h <= 11 ==> hour_label(h) == nat_text(h) + "AM"@,
        h == 12 ==> hour_label(h) == nat_text(12) + "PM"@,
        13 <= h <= 23 ==> hour_label(h) == nat_text((h - 12) as nat) + "PM"@,
{
    if 1 <= h <= 11 {
        assert(h % 12 == h);
    }
    if 13 <= h <= 23 {
        assert(h % 12 == h - 12);
    }
}

/// Label of the hour written after the last ` at ` of an hourly line such as
/// `72.5° at 14:00:00`: the digits up to the first colon, read as a number
/// (zero when they are not one); `?` when there is no ` at `.
pub open spec fn hourly_label(s: Seq<char>) -> Seq<char> {
    match last_occurrence(s, " at "@) {
        None => "?"@,
        Some(pos) => {
            let t = s.subrange(pos + 4, s.len() as int);
            let colon = match first_index_of(t, ':') {
                Some(c) => c,
                None => t.len() as int,
            };
            let hour = match integer_literal(t.subrange(0, colon), false) {
                Some(v) => if v <= u32::MAX {
                    v
                } else {
                    0
                },
                None => 0,
            };
            hour_label(hour as nat)
        },
    }
}

/// Extract hour-of-day label from a formatted hourly string like "72.5° at 14:00:00".
pub fn label_from_hourly_string(s: &str) -> (r: String)
    ensures
        r@ == hourly_label(s@),
{
    proof {
        reveal_strlit(" at ");
    }
    match last_occurrence_of(s, " at ") {
        None => "?".to_owned(),
        Some(pos) => {
            proof {
                lemma_rfind_from_occurs(s@, " at "@, s@.len() - " at "@.len());
            }
            let n = s.unicode_len();
            let time_str = s.substring_char(pos + 4, n);
            let colon_pos = match first_index_of_char(time_str, ':') {
                Some(c) => {
                    proof {
                        lemma_find_char_from_bounds(time_str@, ':', 0);
                    }
                    c
                },
                None => time_str.unicode_len(),
            };
            let hour_str = time_str.substring_char(0, colon_pos);
            let hour = match parse_u32(hour_str) {
                Some(h) => h,
                None => 0,
            };
            proof {
                crate::text::lemma_unsigned_literal_nonneg(hour_str@);
            }
            hour_to_label(hour)
        },
    }
}


/// The chart label of an hourly line `<temperature> at <clock>` is the label
/// of the clock's hour: the label reads back the hour the line was written with.
pub proof fn lemma_label_reads_clock_hour(prefix: Seq<char>, hour: nat, minute: nat)
    requires
        hour < 24,
        minute < 60,
    ensures
        hourly_label(prefix + " at "@ + clock_text_spec(hour, minute)) == hour_label(hour),
{
    reveal_strlit(" at ");
    let pat = " at "@;
    let c = clock_text_spec(hour, minute);
    let s = prefix + pat + c;
    let p = prefix.len() as int;
    lemma_digit_char_value((hour / 10) as int);
    lemma_digit_char_value((hour % 10) as int);
    lemma_digit_char_value((minute / 10) as int);
    lemma_digit_char_value((minute % 10) as int);
    assert(c.len() == 8);
    assert(s.len() == p + 12);
    assert(s.subrange(p, p + 4) =~= pat);
    assert(occurs_at(s, pat, p));
    assert forall|j: int| p < j <= p + 8 implies !occurs_at(s, pat, j) by {
        if occurs_at(s, pat, j) {
            assert(s.subrange(j, j + 4)[0] == pat[0]);
            assert(s.subrange(j, j + 4)[1] == pat[1]);
            assert(s[j] == ' ');
            assert(s[j + 1] == 'a');
        }
    }
    lemma_rfind_from_finds(s, pat, s.len() - 4, p);
    assert(last_occurrence(s, pat) == Some(p));
    let t = s.subrange(p + 4, s.len() as int);
    assert(t =~= c);
    assert(find_char_from(c, ':', 2) == Some(2int));
    assert(find_char_from(c, ':', 1) == Some(2int));
    assert(find_char_from(c, ':', 0) == Some(2int));
    let h = c.subrange(0, 2);
    assert(h =~= two_digits(hour));
    assert(all_digits(h));
    lemma_digits_literal(h, false);
    assert(h.drop_last() =~= seq![h[0]]);
    assert(seq![h[0]].drop_last() =~= Seq::<char>::empty());
    assert(digits_value(seq![h[0]]) == digits_value(Seq::<char>::empty()) * 10 + (hour / 10) as int);
    assert(digits_value(h) == (hour / 10) * 10 + hour % 10);
}

} // verus!
