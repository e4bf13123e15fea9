//! Texts the page templates show.
use crate::dates::{date_text, format_date, valid_day};
use crate::models::homework::DueDate;
use vstd::prelude::*;

verus! {

/// The Turkish word for "on `weekday`" (Monday being 0), as the
/// "every ..." phrase takes it.
pub open spec fn weekday_word(weekday: int) -> Seq<char> {
    if weekday == 0 {
        "pazartesiye"@
    } else if weekday == 1 {
        "salıya"@
    } else if weekday == 2 {
        "çarşambaya"@
    } else if weekday == 3 {
        "perşembeye"@
    } else if weekday == 4 {
        "cumaya"@
    } else if weekday == 5 {
        "cumartesiye"@
    } else {
        "pazara"@
    }
}

/// How a due date reads: "for the date ..." or "every ...".
pub open spec fn due_date_words(due: DueDate) -> Seq<char> {
    match due {
        DueDate::Date(d) => date_text(d as int) + " tarihi için"@,
        DueDate::Repeat(r) => "Her "@ + weekday_word(r as int),
    }
}

fn weekday_str(weekday: i32) -> (s: &'static str)
    requires
        0 <= weekday < 7,
    ensures
        s@ == weekday_word(weekday as int),
{
    if weekday == 0 {
        "pazartesiye"
    } else if weekday == 1 {
        "salıya"
    } else if weekday == 2 {
        "çarşambaya"
    } else if weekday == 3 {
        "perşembeye"
    } else if weekday == 4 {
        "cumaya"
    } else if weekday == 5 {
        "cumartesiye"
    } else {
        "pazara"
    }
}

/// The text of a due date; a repeating one names its weekday.
pub fn due_date_text(due: DueDate) -> (r: String)
    requires
        due matches DueDate::Repeat(w) ==> 0 <= w < 7,
        due matches DueDate::Date(d) ==> valid_day(d as int),
    ensures
        r@ == due_date_words(due),
{
    match due {
        DueDate::Date(d) => {
            let mut out = format_date(d);
            out.append(" tarihi için");
            out
        },
        DueDate::Repeat(w) => {
            let mut out = String::from_str("Her ");
            out.append(weekday_str(w));
            out
        },
    }
}

/// The date `day` days after `today`.
pub fn date_label(today: i32, day: i32) -> (r: String)
    requires
        valid_day(today as int),
        valid_day(today + day),
    ensures
        r@ == date_text(today + day),
{
    format_date(today + day)
}

} // verus!
