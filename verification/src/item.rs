//! Clipboard entries and the instants they were copied at.

use vstd::prelude::*;
use crate::clock::now_utc;

verus! {

/// An instant in UTC: whole seconds since the Unix epoch and the nanoseconds
/// after that second (a leap second carries a nanosecond part of a billion or more).
#[derive(Clone, Copy, Debug, PartialEq, Eq, Structural)]
pub struct Timestamp {
    pub secs: i64,
    pub nanos: u32,
}

impl Timestamp {
    /// `self` is a strictly later instant than `other`.
    pub open spec fn is_after(self, other: Timestamp) -> bool {
        self.secs > other.secs || (self.secs == other.secs && self.nanos > other.nanos)
    }

    /// Executable form of `is_after`.
    pub fn after(&self, other: &Timestamp) -> (r: bool)
        ensures
            r == self.is_after(*other),
    {
        self.secs > other.secs || (self.secs == other.secs && self.nanos > other.nanos)
    }
}

/// One captured piece of clipboard text.
#[derive(Debug)]
pub struct ClipboardItem {
    pub id: String,
    pub content: String,
    pub copied_at: Timestamp,
    pub pinned: bool,
}

/// A fresh random identifier.
///
/// Trusted: `uuid::Uuid::new_v4` written out by `to_string`, which gives the
/// hyphenated lower-case form: 36 characters, hyphens at positions 8, 13, 18
/// and 23, and the version digit `4` at position 14. Which identifier comes
/// out is chance and is not stated; `uuid` panics if the system offers no
/// random bytes.
#[verifier::external_body]
fn new_id() -> (id: String)
    ensures
        id@.len() == 36,
        id@[8] == '-' && id@[13] == '-' && id@[18] == '-' && id@[23] == '-',
        id@[14] == '4',
{
    uuid::Uuid::new_v4().to_string()
}

/// Decides whether text read from the clipboard at `now` is new: it is when it
/// is not empty and differs from the text seen last. New text becomes the last
/// seen text and is returned as an unpinned entry with a fresh id, stamped with
/// `now`; anything else is ignored.
pub fn observe_at(last_seen: &mut String, text: String, now: Timestamp) -> (r: Option<ClipboardItem>)
    ensures
        r.is_some() <==> (text@.len() > 0 && text@ != old(last_seen)@),
        r.is_some() ==> final(last_seen)@ == text@,
        r.is_none() ==> final(last_seen)@ == old(last_seen)@,
        r matches Some(item) ==> {
            &&& item.content@ == text@
            &&& !item.pinned
            &&& item.copied_at == now
            &&& item.id@.len() == 36
            &&& item.id@[8] == '-' && item.id@[13] == '-' && item.id@[18] == '-' && item.id@[23] == '-'
            &&& item.id@[14] == '4'
        },
{
    if text.as_str().is_empty() || text == *last_seen {
        return None;
    }
    let item = ClipboardItem { id: new_id(), content: text.clone(), copied_at: now, pinned: false };
    *last_seen = text;
    Some(item)
}

/// Decides whether text read from the clipboard is new (see `observe_at`),
/// stamping new text with the current instant, which is not stated.
pub fn observe(last_seen: &mut String, text: String) -> (r: Option<ClipboardItem>)
    ensures
        r.is_some() <==> (text@.len() > 0 && text@ != old(last_seen)@),
        r.is_some() ==> final(last_seen)@ == text@,
        r.is_none() ==> final(last_seen)@ == old(last_seen)@,
        r matches Some(item) ==> {
            &&& item.content@ == text@
            &&& !item.pinned
            &&& item.id@.len() == 36
            &&& item.id@[8] == '-' && item.id@[13] == '-' && item.id@[18] == '-' && item.id@[23] == '-'
            &&& item.id@[14] == '4'
        },
{
    let now = now_utc();
    observe_at(last_seen, text, now)
}

} // verus!
