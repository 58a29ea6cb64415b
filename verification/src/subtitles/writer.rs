use vstd::prelude::*;
use vstd::string::StringExecFns;
use crate::subtitles::{
    arrow, views, Entry, SubItem, MILLIS_IN_SECOND, SECONDS_IN_HOUR, SECONDS_IN_MINUTE,
};
use crate::text::{decimal, padded, push_padded};

verus! {

/// A time of `millis` milliseconds as `HH:MM:SS,mmm`: hours, minutes and seconds in at
/// least two digits, milliseconds in three.
pub open spec fn format_duration_spec(millis: nat) -> Seq<char> {
    let secs = millis / 1000;
    padded(secs / 3600, 2) + seq![':'] + padded(secs % 3600 / 60, 2) + seq![':'] + padded(
        secs % 60,
        2,
    ) + seq![','] + padded(millis % 1000, 3)
}

/// The line that holds the interval of an entry.
pub open spec fn time_range_line(start: nat, end: nat) -> Seq<char> {
    format_duration_spec(start) + arrow() + format_duration_spec(end)
}

/// The text form of one entry: its index, its interval and its text, a line break
/// after each, and an empty line.
pub open spec fn encode_entry(entry: Entry) -> Seq<char> {
    decimal(entry.number as nat) + seq!['\n'] + time_range_line(entry.start, entry.end) + seq![
        '\n',
    ] + entry.text + seq!['\n'] + seq!['\n']
}

/// The text form of a track: that of its entries, one after the other.
pub open spec fn encode_entries(items: Seq<Entry>) -> Seq<char>
    decreases items.len(),
{
    if items.len() == 0 {
        Seq::empty()
    } else {
        encode_entries(items.drop_last()) + encode_entry(items.last())
    }
}

/// Writes entries, in their text form, to the end of a text.
pub struct Writer {
    output: String,
}

impl View for Writer {
    type V = Seq<char>;

    /// The text written so far.
    closed spec fn view(&self) -> Seq<char> {
        self.output@
    }
}

impl Writer {
    /// A writer that goes on from the end of `output`.
    pub fn new(output: String) -> (writer: Writer)
        ensures
            writer@ == output@,
    {
        Writer { output }
    }

    /// The text written so far.
    pub fn into_output(self) -> (output: String)
        ensures
            output@ == self@,
    {
        self.output
    }

    /// Writes one entry: its index, its interval, its text and an empty line.
    pub fn write_item(&mut self, item: SubItem)
        ensures
            final(self)@ == old(self)@ + encode_entry(item@),
    {
        let range = Self::format_time_range(item.start_tp, item.end_tp);
        let mut block = String::new();
        push_padded(&mut block, item.number as u64, 1);
        assert(block@ == decimal(item.number as nat));
        block.push('\n');
        block.append(range.as_str());
        block.push('\n');
        block.append(item.text.as_str());
        block.push('\n');
        block.push('\n');
        assert(block@ == encode_entry(item@));
        self.output.append(block.as_str());
    }

    /// The line that holds an interval: its start, ` --> `, and its end.
    pub fn format_time_range(start: u64, end: u64) -> (out: String)
        ensures
            out@ == time_range_line(start as nat, end as nat),
    {
        let mut out = Self::format_duration(start);
        let end_text = Self::format_duration(end);
        out.push(' ');
        out.push('-');
        out.push('-');
        out.push('>');
        out.push(' ');
        assert(out@ == format_duration_spec(start as nat) + arrow());
        out.append(end_text.as_str());
        out
    }

    /// A time in milliseconds as `HH:MM:SS,mmm`.
    pub fn format_duration(duration: u64) -> (out: String)
        ensures
            out@ == format_duration_spec(duration as nat),
    {
        let secs = duration / MILLIS_IN_SECOND;
        let hours = secs / SECONDS_IN_HOUR;
        let minutes = secs % SECONDS_IN_HOUR / SECONDS_IN_MINUTE;
        let seconds = secs % SECONDS_IN_MINUTE;
        let mut out = String::new();
        push_padded(&mut out, hours, 2);
        out.push(':');
        let ghost with_hours = padded(hours as nat, 2) + seq![':'];
        assert(out@ == with_hours);
        push_padded(&mut out, minutes, 2);
        out.push(':');
        let ghost with_minutes = with_hours + padded(minutes as nat, 2) + seq![':'];
        assert(out@ == with_minutes);
        push_padded(&mut out, seconds, 2);
        out.push(',');
        let ghost with_seconds = with_minutes + padded(seconds as nat, 2) + seq![','];
        assert(out@ == with_seconds);
        push_padded(&mut out, duration % MILLIS_IN_SECOND, 3);
        out
    }
}

/// The text form of a track.
pub fn write_subtitles(items: Vec<SubItem>) -> (out: String)
    ensures
        out@ == encode_entries(views(items@)),
{
    let mut writer = Writer::new(String::new());
    let mut i: usize = 0;
    while i < items.len()
        invariant
            i <= items@.len(),
            writer@ == encode_entries(views(items@).take(i as int)),
        decreases items@.len() - i,
    {
        let item = &items[i];
        let copy = SubItem {
            number: item.number,
            start_tp: item.start_tp,
            end_tp: item.end_tp,
            text: item.text.clone(),
        };
        writer.write_item(copy);
        proof {
            let entries = views(items@);
            assert(entries.take(i + 1).drop_last() == entries.take(i as int));
            assert(entries.take(i + 1).last() == item@);
        }
        i += 1;
    }
    assert(views(items@).take(i as int) == views(items@));
    writer.into_output()
}

} // verus!
