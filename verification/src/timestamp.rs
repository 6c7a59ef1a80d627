//! The timestamp embedded in a client log filename.
//!
//! A filename carries a 19-character window `YYYY-MM-DD HH-MM-SS`. Parsing
//! that window is delegated to the `chrono` crate; the parsed value is held
//! here as plain integer fields, so that comparing two timestamps is the
//! crate's own, verified logic.

use chrono::Datelike;
use chrono::Timelike;
use vstd::prelude::*;

verus! {

/// A calendar timestamp as plain field values.
#[derive(Clone, Copy, Debug, PartialEq, Eq, Structural)]
pub struct Timestamp {
    pub year: i32,
    pub month: u32,
    pub day: u32,
    pub hour: u32,
    pub minute: u32,
    pub second: u32,
}

impl Timestamp {
    /// Chronological order: lexicographic over the fields, year first.
    pub open spec fn le_spec(self, other: Self) -> bool {
        if self.year != other.year {
            self.year < other.year
        } else if self.month != other.month {
            self.month < other.month
        } else if self.day != other.day {
            self.day < other.day
        } else if self.hour != other.hour {
            self.hour < other.hour
        } else if self.minute != other.minute {
            self.minute < other.minute
        } else {
            self.second <= other.second
        }
    }

    /// Strictly earlier than `other`.
    pub open spec fn lt_spec(self, other: Self) -> bool {
        self.le_spec(other) && self != other
    }

    /// Compare two timestamps chronologically.
    pub fn le(self, other: Self) -> (r: bool)
        ensures
            r == self.le_spec(other),
    {
        if self.year != other.year {
            self.year < other.year
        } else if self.month != other.month {
            self.month < other.month
        } else if self.day != other.day {
            self.day < other.day
        } else if self.hour != other.hour {
            self.hour < other.hour
        } else if self.minute != other.minute {
            self.minute < other.minute
        } else {
            self.second <= other.second
        }
    }
}

/// The order is total: of two timestamps one is chronologically no later
/// than the other.
pub proof fn lemma_le_total(a: Timestamp, b: Timestamp)
    ensures
        a.le_spec(b) || b.le_spec(a),
        !a.le_spec(b) ==> b.lt_spec(a),
{
}

/// The order is transitive.
pub proof fn lemma_le_trans(a: Timestamp, b: Timestamp, c: Timestamp)
    requires
        a.le_spec(b),
        b.le_spec(c),
    ensures
        a.le_spec(c),
{
}

/// What `chrono` parses out of a timestamp window with the fixed format
/// `%Y-%m-%d %H-%M-%S`: `None` when the text is not a valid timestamp in
/// that format. The result depends on the text alone.
pub uninterp spec fn chrono_parse(s: Seq<char>) -> Option<Timestamp>;

/// Relies on `chrono::NaiveDateTime::parse_from_str` with the fixed format
/// `%Y-%m-%d %H-%M-%S` to validate and parse the window, and on chrono's
/// `Datelike`/`Timelike` accessors to read the parsed fields out.
#[verifier::external_body]
pub(crate) fn parse_timestamp(s: &str) -> (r: Option<Timestamp>)
    ensures
        r == chrono_parse(s@),
{
    match chrono::NaiveDateTime::parse_from_str(s, "%Y-%m-%d %H-%M-%S") {
        Ok(dt) => Some(Timestamp {
            year: dt.year(),
            month: dt.month(),
            day: dt.day(),
            hour: dt.hour(),
            minute: dt.minute(),
            second: dt.second(),
        }),
        Err(_) => None,
    }
}

} // verus!
