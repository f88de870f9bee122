use vstd::prelude::*;
use vstd::string::StringExecFns;
use crate::report::Row;

verus! {

/// The calendar text (`YYYY-MM-DD HH:MM:SS`, with a fraction of a second
/// where it is not zero) of the UTC wall-clock time `secs` seconds and
/// `nanos` nanoseconds after the epoch; absent where that time is out of the
/// calendar's range.
pub uninterp spec fn calendar_text(secs: int, nanos: int) -> Option<Seq<char>>;

/// Relies on chrono's `DateTime::from_timestamp` (which gives `None` on an
/// out-of-range time or an invalid nanosecond count) and on the `Display` of
/// `NaiveDateTime` for the text.
#[verifier::external_body]
fn calendar(secs: i64, nanos: u32) -> (r: Option<String>)
    ensures
        r is Some <==> calendar_text(secs as int, nanos as int) is Some,
        r matches Some(s) ==> s@ == calendar_text(secs as int, nanos as int)->0,
{
    match chrono::DateTime::from_timestamp(secs, nanos) {
        Some(d) => Some(d.naive_utc().to_string()),
        None => None,
    }
}

/// The text of one report line: the path, one space, the rendered time.
pub open spec fn line_text(path: Seq<char>, stamp: Seq<char>) -> Seq<char> {
    path + seq![' '] + stamp
}

/// Joins a path and a rendered time into one report line.
pub fn format_line(path: &String, stamp: &String) -> (r: String)
    ensures
        r@ == line_text(path@, stamp@),
{
    let mut line = path.clone();
    proof {
        reveal_strlit(" ");
    }
    line.append(" ");
    line.append(stamp.as_str());
    line
}

/// Renders one row of the report; absent where its time cannot be written
/// as a calendar date.
pub fn render_line(row: &Row) -> (r: Option<String>)
    ensures
        match calendar_text(row.time.secs as int, row.time.nanos as int) {
            None => r is None,
            Some(t) => r matches Some(l) && l@ == line_text(row.path@, t),
        },
{
    match calendar(row.time.secs, row.time.nanos) {
        Some(stamp) => Some(format_line(&row.path, &stamp)),
        None => None,
    }
}

/// The root to report on: the given argument, or the current directory `.`
/// where none was given.
pub fn root_path(arg: Option<String>) -> (r: String)
    ensures
        arg matches Some(a) ==> r == a,
        arg is None ==> r@ == seq!['.'],
{
    match arg {
        Some(a) => a,
        None => {
            proof {
                reveal_strlit(".");
            }
            String::from_str(".")
        },
    }
}

} // verus!
