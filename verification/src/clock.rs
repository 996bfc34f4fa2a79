//! Instants from the system clock, and how long ago an entry was copied.

use vstd::prelude::*;
use crate::item::Timestamp;
use crate::text::{decimal, push_decimal};

verus! {

/// The current instant.
///
/// Trusted: `chrono::Utc::now`, read back through `DateTime::timestamp` and
/// `DateTime::timestamp_subsec_nanos`. Nothing is stated of the value, which is
/// whatever the system clock says; chrono panics if the clock is set before 1970.
#[verifier::external_body]
pub(crate) fn now_utc() -> (t: Timestamp) {
    let now = chrono::Utc::now();
    Timestamp { secs: now.timestamp(), nanos: now.timestamp_subsec_nanos() }
}

/// Whole seconds from the instant (`then_secs`, `then_nanos`) to the instant
/// (`now_secs`, `now_nanos`) as chrono counts them, or `None` when chrono has no
/// date-time for one of the two.
pub uninterp spec fn chrono_elapsed_seconds(now_secs: i64, now_nanos: u32, then_secs: i64, then_nanos: u32) -> Option<i64>;

/// The whole seconds in a span of `nanos` nanoseconds, rounded toward zero.
pub open spec fn whole_seconds(nanos: int) -> int {
    if nanos >= 0 {
        nanos / 1_000_000_000
    } else {
        -((-nanos) / 1_000_000_000)
    }
}

/// Whole seconds from `then` to `now`.
///
/// Trusted: `chrono::DateTime::from_timestamp` on both instants, then
/// `DateTime::signed_duration_since` and `TimeDelta::num_seconds`. The result is
/// named by `chrono_elapsed_seconds`; it is `None` when `from_timestamp` refuses
/// an instant (out of range, or a nanosecond part chrono does not accept).
/// When neither instant lies in a leap second (both nanosecond parts under a
/// billion), chrono's difference is the plain difference of the two instants,
/// and `num_seconds` rounds it toward zero. Which instants chrono's range
/// admits is not stated.
#[verifier::external_body]
fn elapsed_seconds(now: &Timestamp, then: &Timestamp) -> (r: Option<i64>)
    ensures
        r == chrono_elapsed_seconds(now.secs, now.nanos, then.secs, then.nanos),
        now.nanos < 1_000_000_000 && then.nanos < 1_000_000_000 ==> (r matches Some(s) ==>
            s == whole_seconds((now.secs - then.secs) * 1_000_000_000 + now.nanos - then.nanos)),
{
    match (chrono::DateTime::from_timestamp(now.secs, now.nanos), chrono::DateTime::from_timestamp(then.secs, then.nanos)) {
        (Some(n), Some(t)) => Some(n.signed_duration_since(t).num_seconds()),
        _ => None,
    }
}

/// The calendar date of the instant (`secs`, `nanos`) in UTC written as chrono's
/// `%b %-d, %Y` writes it (such as `Jun 3, 2025`), or `None` when chrono has no
/// date-time for the instant.
pub uninterp spec fn chrono_date_label(secs: i64, nanos: u32) -> Option<Seq<char>>;

/// The calendar date of `t`, such as `Jun 3, 2025`.
///
/// Trusted: `chrono::DateTime::from_timestamp`, then `DateTime::format` with
/// `%b %-d, %Y` and `to_string`. The result is named by `chrono_date_label`.
#[verifier::external_body]
fn date_label(t: &Timestamp) -> (r: Option<String>)
    ensures
        match r {
            Some(s) => chrono_date_label(t.secs, t.nanos) == Some(s@),
            None => chrono_date_label(t.secs, t.nanos).is_none(),
        },
{
    match chrono::DateTime::from_timestamp(t.secs, t.nanos) {
        Some(d) => Some(d.format("%b %-d, %Y").to_string()),
        None => None,
    }
}

/// How an age is shown: as text, or as the calendar date of the instant.
#[derive(Debug)]
pub enum AgeLabel {
    Text(String),
    CalendarDate,
}

/// The label for an age of `secs` whole seconds: `Just now` under a minute,
/// then whole minutes, whole hours, `Yesterday` for one whole day, whole days
/// under a week, and the calendar date (`None` here) from a week on.
pub open spec fn age_text(secs: int) -> Option<Seq<char>> {
    if secs < 60 {
        Some("Just now"@)
    } else if secs / 60 < 60 {
        Some(decimal((secs / 60) as nat) + " minutes ago"@)
    } else if secs / 3600 < 24 {
        Some(decimal((secs / 3600) as nat) + " hours ago"@)
    } else if secs / 86400 == 1 {
        Some("Yesterday"@)
    } else if secs / 86400 < 7 {
        Some(decimal((secs / 86400) as nat) + " days ago"@)
    } else {
        None
    }
}

/// The label for an entry copied `secs` whole seconds ago.
pub fn age_label(secs: i64) -> (r: AgeLabel)
    ensures
        match r {
            AgeLabel::Text(t) => age_text(secs as int) == Some(t@),
            AgeLabel::CalendarDate => age_text(secs as int).is_none(),
        },
{
    if secs < 60 {
        return AgeLabel::Text(String::from_str("Just now"));
    }
    let s = secs as u64;
    let mins = s / 60;
    let hours = s / 3600;
    let days = s / 86400;
    if mins < 60 {
        let mut t = String::new();
        push_decimal(&mut t, mins);
        t.append(" minutes ago");
        AgeLabel::Text(t)
    } else if hours < 24 {
        let mut t = String::new();
        push_decimal(&mut t, hours);
        t.append(" hours ago");
        AgeLabel::Text(t)
    } else if days == 1 {
        AgeLabel::Text(String::from_str("Yesterday"))
    } else if days < 7 {
        let mut t = String::new();
        push_decimal(&mut t, days);
        t.append(" days ago");
        AgeLabel::Text(t)
    } else {
        AgeLabel::CalendarDate
    }
}

/// The age label of an entry copied at `dt`, seen at `now`: the text for its
/// age, or its calendar date from a week on. `None` when chrono has no
/// date-time for one of the two instants.
pub open spec fn relative_label(dt: Timestamp, now: Timestamp) -> Option<Seq<char>> {
    match chrono_elapsed_seconds(now.secs, now.nanos, dt.secs, dt.nanos) {
        None => None,
        Some(secs) => match age_text(secs as int) {
            Some(t) => Some(t),
            None => chrono_date_label(dt.secs, dt.nanos),
        },
    }
}

/// How long before `now` the instant `dt` was, in words.
pub fn relative_time_at(dt: &Timestamp, now: &Timestamp) -> (r: Option<String>)
    ensures
        match r {
            Some(s) => relative_label(*dt, *now) == Some(s@),
            None => relative_label(*dt, *now).is_none(),
        },
{
    match elapsed_seconds(now, dt) {
        None => None,
        Some(secs) => match age_label(secs) {
            AgeLabel::Text(t) => Some(t),
            AgeLabel::CalendarDate => date_label(dt),
        },
    }
}

/// How long ago the instant `dt` was, in words, by the system clock.
pub fn relative_time(dt: &Timestamp) -> (r: Option<String>)
    ensures
        exists|now: Timestamp| match r {
            Some(s) => relative_label(*dt, now) == Some(s@),
            None => relative_label(*dt, now).is_none(),
        },
{
    let now = now_utc();
    relative_time_at(dt, &now)
}

/// An age under a minute reads `Just now`; from a minute to an hour it counts
/// the whole minutes, to a day the whole hours, from one to two days it reads
/// `Yesterday`, to a week it counts the whole days, and from a week on the
/// calendar date is shown instead.
pub proof fn law_age_text(secs: int, n: nat)
    ensures
        secs < 60 ==> age_text(secs) == Some("Just now"@),
        60 <= secs < 3600 && n * 60 <= secs < n * 60 + 60 ==> age_text(secs) == Some(decimal(n) + " minutes ago"@),
        3600 <= secs < 86400 && n * 3600 <= secs < n * 3600 + 3600 ==> age_text(secs) == Some(decimal(n) + " hours ago"@),
        86400 <= secs < 2 * 86400 ==> age_text(secs) == Some("Yesterday"@),
        2 * 86400 <= secs < 7 * 86400 && n * 86400 <= secs < n * 86400 + 86400 ==> age_text(secs) == Some(decimal(n) + " days ago"@),
        secs >= 7 * 86400 <==> age_text(secs).is_none(),
{
    if 60 <= secs && n * 60 <= secs < n * 60 + 60 {
        assert(secs / 60 == n) by (nonlinear_arith)
            requires 60 <= secs, n * 60 <= secs < n * 60 + 60;
    }
    if 3600 <= secs && n * 3600 <= secs < n * 3600 + 3600 {
        assert(secs / 3600 == n) by (nonlinear_arith)
            requires 3600 <= secs, n * 3600 <= secs < n * 3600 + 3600;
    }
    if 86400 <= secs && n * 86400 <= secs < n * 86400 + 86400 {
        assert(secs / 86400 == n) by (nonlinear_arith)
            requires 86400 <= secs, n * 86400 <= secs < n * 86400 + 86400;
    }
}

} // verus!
