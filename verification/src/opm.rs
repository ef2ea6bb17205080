//! Federal operating status (OPM) lines.
use vstd::prelude::*;
use vstd::string::*;
use crate::wmata::texts;

verus! {

fn labelled(label: &str, value: &str) -> (r: String)
    ensures
        r@ == label@ + value@,
{
    let mut r = label.to_owned();
    r.append(value);
    r
}

/// The status panel lines: status, location, short message, extended information.
pub open spec fn opm_panel(location: Seq<char>, shortmessage: Seq<char>, extendedinfo: Seq<char>, status: Seq<char>) -> Seq<Seq<char>> {
    seq![
        "Status: "@ + status,
        "Location: "@ + location,
        "Information: "@ + shortmessage,
        "Extended: "@ + extendedinfo,
    ]
}

pub fn showopm(location: &str, shortmessage: &str, extendedinfo: &str, status: &str) -> (r: Vec<String>)
    ensures
        texts(r@) == opm_panel(location@, shortmessage@, extendedinfo@, status@),
{
    let mut opm: Vec<String> = Vec::new();
    opm.push(labelled("Status: ", status));
    opm.push(labelled("Location: ", location));
    opm.push(labelled("Information: ", shortmessage));
    opm.push(labelled("Extended: ", extendedinfo));
    assert(texts(opm@) =~= opm_panel(location@, shortmessage@, extendedinfo@, status@));
    opm
}

/// The plain-text status report, one entry per printed line, framed by empty lines.
pub open spec fn opm_report(location: Seq<char>, shortmessage: Seq<char>, extendedinfo: Seq<char>, status: Seq<char>) -> Seq<Seq<char>> {
    seq![
        Seq::<char>::empty(),
        "---- OPM Status ----"@,
        "Location: "@ + location,
        "Status: "@ + status,
        "Information: "@ + shortmessage,
        "Extended:"@ + extendedinfo,
        Seq::<char>::empty(),
    ]
}

pub fn opm_report_lines(location: &str, shortmessage: &str, extendedinfo: &str, status: &str) -> (r: Vec<String>)
    ensures
        texts(r@) == opm_report(location@, shortmessage@, extendedinfo@, status@),
{
    let mut lines: Vec<String> = Vec::new();
    lines.push(String::new());
    lines.push("---- OPM Status ----".to_owned());
    lines.push(labelled("Location: ", location));
    lines.push(labelled("Status: ", status));
    lines.push(labelled("Information: ", shortmessage));
    lines.push(labelled("Extended:", extendedinfo));
    lines.push(String::new());
    assert(texts(lines@) =~= opm_report(location@, shortmessage@, extendedinfo@, status@));
    lines
}

} // verus!
