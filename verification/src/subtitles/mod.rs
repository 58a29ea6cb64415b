use vstd::prelude::*;

pub mod loader;
pub mod round_trip;
pub mod writer;

pub use loader::Loader;
pub use writer::Writer;

verus! {

/// Milliseconds in a second.
pub const MILLIS_IN_SECOND: u64 = 1000;

/// Seconds in a minute.
pub const SECONDS_IN_MINUTE: u64 = 60;

/// Seconds in an hour.
pub const SECONDS_IN_HOUR: u64 = 3600;

/// The mathematical value of one subtitle block: what contracts speak of.
pub struct Entry {
    pub number: u32,
    pub start: nat,
    pub end: nat,
    pub text: Seq<char>,
}

/// One subtitle block: its index, its display interval in milliseconds and its text,
/// whose lines are joined by line breaks.
#[derive(Clone, Debug, PartialEq, Eq)]
pub struct SubItem {
    pub number: u32,
    pub start_tp: u64,
    pub end_tp: u64,
    pub text: String,
}

impl View for SubItem {
    type V = Entry;

    open spec fn view(&self) -> Entry {
        Entry {
            number: self.number,
            start: self.start_tp as nat,
            end: self.end_tp as nat,
            text: self.text@,
        }
    }
}

/// What stands between the start and the end of an interval: ` --> `.
pub open spec fn arrow() -> Seq<char> {
    seq![' ', '-', '-', '>', ' ']
}

/// The mathematical values of a sequence of blocks, in order.
pub open spec fn views(items: Seq<SubItem>) -> Seq<Entry> {
    items.map_values(|item: SubItem| item@)
}

impl Default for SubItem {
    /// The block with index 0, an empty interval at time 0 and no text.
    fn default() -> (item: SubItem)
        ensures
            item@ == (Entry { number: 0, start: 0, end: 0, text: Seq::empty() }),
    {
        SubItem { number: 0, start_tp: 0, end_tp: 0, text: String::new() }
    }
}

impl SubItem {
    /// The length of the display interval in milliseconds.
    pub fn duration(&self) -> (d: u64)
        requires
            self.start_tp <= self.end_tp,
        ensures
            d == self@.end - self@.start,
    {
        self.end_tp - self.start_tp
    }
}

} // verus!
