//! Decisions of the dashboard screen that do not depend on drawing: when to
//! quit, and the texts shown in the current-weather and chart panels.
use vstd::prelude::*;
use vstd::string::*;
use crate::weather::{hourly_label, label_from_hourly_string};
use crate::wmata::texts;

verus! {

/// Whether the dashboard exits after a key press (`None` for anything that is
/// not a character key press): it exits on `q`, and once exiting it stays so.
pub fn next_exit_state(exiting: bool, pressed: Option<char>) -> (r: bool)
    ensures
        r == (exiting || pressed == Some('q')),
{
    match pressed {
        Some(c) => exiting || c == 'q',
        None => exiting,
    }
}

/// Temperature and clock texts of the current-weather panel, with
/// placeholders for what is missing.
pub fn current_summary(current: &Vec<String>) -> (r: (String, String))
    ensures
        r.0@ == (if current@.len() > 0 { current@[0]@ } else { "--°"@ }),
        r.1@ == (if current@.len() > 1 { current@[1]@ } else { "--:--:--"@ }),
{
    let temp = if current.len() > 0 {
        current[0].clone()
    } else {
        "--°".to_owned()
    };
    let clock = if current.len() > 1 {
        current[1].clone()
    } else {
        "--:--:--".to_owned()
    };
    (temp, clock)
}

/// Hour labels of the temperature chart's axis, one per plotted point.
pub fn hour_axis_labels(hourly_time: &Vec<String>, points: usize) -> (r: Vec<String>)
    ensures
        texts(r@) == texts(hourly_time@).take(
            if points < hourly_time@.len() { points as int } else { hourly_time@.len() as int },
        ).map_values(|s: Seq<char>| hourly_label(s)),
{
    let n = if points < hourly_time.len() {
        points
    } else {
        hourly_time.len()
    };
    let mut labels: Vec<String> = Vec::new();
    let mut i: usize = 0;
    while i < n
        invariant
            n <= hourly_time@.len(),
            i <= n,
            texts(labels@) == texts(hourly_time@).take(i as int).map_values(|s: Seq<char>| hourly_label(s)),
        decreases n - i,
    {
        let label = label_from_hourly_string(hourly_time[i].as_str());
        let ghost old_labels = labels@;
        labels.push(label);
        assert(texts(labels@) =~= texts(old_labels).push(label@));
        assert(texts(hourly_time@).take(i + 1) =~= texts(hourly_time@).take(i as int).push(hourly_time@[i as int]@));
        assert(texts(hourly_time@).take(i + 1).map_values(|s: Seq<char>| hourly_label(s)) =~= texts(hourly_time@).take(
            i as int,
        ).map_values(|s: Seq<char>| hourly_label(s)).push(hourly_label(hourly_time@[i as int]@)));
        assert(texts(labels@) =~= texts(hourly_time@).take(i + 1).map_values(|s: Seq<char>| hourly_label(s)));
        i = i + 1;
    }
    labels
}

} // verus!
