//! The shortened-link record: a short code, its redirect target, a free-text
//! note, and the visit statistics.
use vstd::prelude::*;

use crate::digits::all_digits;

verus! {

/// One shortened link. `short_code` is the unique key under which the entry
/// stands in the registry; `visit_count` and `last_visit` track redirects.
pub struct UrlEntry {
    pub short_code: String,
    pub long_url: String,
    pub note: String,
    pub visit_count: u32,
    /// Seconds since the Unix epoch of the latest redirect, absent until the
    /// first one.
    pub last_visit: Option<i64>,
}

/// The mathematical model of a `UrlEntry`.
pub struct EntryModel {
    pub short_code: Seq<char>,
    pub long_url: Seq<char>,
    pub note: Seq<char>,
    pub visit_count: u32,
    pub last_visit: Option<i64>,
}

impl View for UrlEntry {
    type V = EntryModel;

    open spec fn view(&self) -> EntryModel {
        EntryModel {
            short_code: self.short_code@,
            long_url: self.long_url@,
            note: self.note@,
            visit_count: self.visit_count,
            last_visit: self.last_visit,
        }
    }
}

impl Clone for UrlEntry {
    fn clone(&self) -> (r: Self)
        ensures
            r@ == self@,
    {
        UrlEntry {
            short_code: self.short_code.clone(),
            long_url: self.long_url.clone(),
            note: self.note.clone(),
            visit_count: self.visit_count,
            last_visit: self.last_visit,
        }
    }
}

/// The models of a sequence of entries.
pub open spec fn seq_view(s: Seq<UrlEntry>) -> Seq<EntryModel> {
    s.map_values(|e: UrlEntry| e@)
}

/// A well-formed short code: exactly six decimal digits.
pub open spec fn is_short_code(s: Seq<char>) -> bool {
    s.len() == 6 && all_digits(s)
}

/// A fresh entry as `create` builds it: never visited.
pub open spec fn fresh_entry(code: Seq<char>, long_url: Seq<char>, note: Seq<char>) -> EntryModel {
    EntryModel { short_code: code, long_url: long_url, note: note, visit_count: 0, last_visit: None }
}

/// An entry after one more recorded visit at time `now`: the counter is one
/// higher (saturating at the `u32` limit) and the visit time is `now`.
pub open spec fn visited_entry(e: EntryModel, now: i64) -> EntryModel {
    EntryModel {
        visit_count: if e.visit_count < u32::MAX {
            (e.visit_count + 1) as u32
        } else {
            u32::MAX
        },
        last_visit: Some(now),
        ..e
    }
}

} // verus!
