use vstd::prelude::*;
use vstd::slice::slice_subrange;
use vstd::string::StringExecFns;
use crate::subtitles::{
    arrow, views, Entry, SubItem, MILLIS_IN_SECOND, SECONDS_IN_HOUR, SECONDS_IN_MINUTE,
};
use crate::text::{
    find_char, lemma_next_index, next_index, parse_bounded, parse_number, parse_u32, parse_u64,
    push_chars, to_chars, trim, trimmed,
};

verus! {

/// Why a text is not a subtitle track, as a mathematical value: the kind of fault,
/// and the characters at fault.
pub enum Malformed {
    /// This line should be the index of an entry and is no numeral of 32 bits.
    Index(Seq<char>),
    /// This line should hold an interval and has no ` --> ` in it.
    TimeRange(Seq<char>),
    /// This side of an interval is no time.
    Duration(Seq<char>),
}

/// Why a text is not a subtitle track.
#[derive(Debug, Clone, PartialEq, Eq)]
pub enum FormatError {
    /// The line should be the index of an entry and is no numeral of 32 bits.
    InvalidIndex { line: String },
    /// The line should hold an interval and has no ` --> ` in it.
    InvalidTimeRange { line: String },
    /// One side of an interval is no time.
    InvalidDuration { value: String },
}

impl View for FormatError {
    type V = Malformed;

    open spec fn view(&self) -> Malformed {
        match self {
            FormatError::InvalidIndex { line } => Malformed::Index(line@),
            FormatError::InvalidTimeRange { line } => Malformed::TimeRange(line@),
            FormatError::InvalidDuration { value } => Malformed::Duration(value@),
        }
    }
}

impl FormatError {
    /// The description of the error, with the characters at fault.
    pub open spec fn spec_message(self) -> Seq<char> {
        match self {
            FormatError::InvalidIndex { line } => "invalid index: "@ + line@,
            FormatError::InvalidTimeRange { line } => "invalid time range: "@ + line@,
            FormatError::InvalidDuration { value } => "invalid duration: "@ + value@,
        }
    }

    /// The description of the error, with the characters at fault.
    pub fn message(&self) -> (out: String)
        ensures
            out@ == self.spec_message(),
    {
        match self {
            FormatError::InvalidIndex { line } => {
                let mut out = String::from_str("invalid index: ");
                out.append(line.as_str());
                out
            },
            FormatError::InvalidTimeRange { line } => {
                let mut out = String::from_str("invalid time range: ");
                out.append(line.as_str());
                out
            },
            FormatError::InvalidDuration { value } => {
                let mut out = String::from_str("invalid duration: ");
                out.append(value.as_str());
                out
            },
        }
    }
}

/// A string with the characters of `chars`.
fn string_of(chars: &[char]) -> (out: String)
    ensures
        out@ == chars@,
{
    let mut out = String::new();
    push_chars(&mut out, chars);
    assert(Seq::<char>::empty() + chars@ == chars@);
    out
}

/// The pieces of `s` between the occurrences of `sep`: one more than there are
/// occurrences.
pub open spec fn split(s: Seq<char>, sep: char) -> Seq<Seq<char>>
    decreases s.len(),
{
    let at = next_index(s, sep, 0);
    if at >= s.len() {
        seq![s]
    } else {
        seq![s.take(at as int)] + split(s.skip(at as int + 1), sep)
    }
}

/// The character sequences that a sequence of slices holds.
pub open spec fn slice_views(parts: Seq<&[char]>) -> Seq<Seq<char>> {
    parts.map_values(|part: &[char]| part@)
}

/// The pieces of `chars` between the occurrences of `sep`.
pub fn split_chars(chars: &[char], sep: char) -> (parts: Vec<&[char]>)
    ensures
        slice_views(parts@) == split(chars@, sep),
{
    let mut parts: Vec<&[char]> = Vec::new();
    let mut rest: &[char] = chars;
    loop
        invariant_except_break
            split(chars@, sep) == slice_views(parts@) + split(rest@, sep),
        ensures
            slice_views(parts@) == split(chars@, sep),
        decreases rest@.len(),
    {
        let at = find_char(rest, sep, 0);
        let len = rest.len();
        let ghost before = parts@;
        if at >= len {
            parts.push(rest);
            assert(slice_views(parts@) == slice_views(before) + seq![rest@]);
            break ;
        }
        let part = slice_subrange(rest, 0, at);
        let tail = slice_subrange(rest, at + 1, len);
        parts.push(part);
        proof {
            assert(part@ == rest@.take(at as int));
            assert(tail@ == rest@.skip(at + 1));
            assert(slice_views(parts@) == slice_views(before) + seq![part@]);
            assert(slice_views(before) + (seq![part@] + split(tail@, sep)) == slice_views(before)
                + seq![part@] + split(tail@, sep));
        }
        rest = tail;
    }
    parts
}

/// The seconds that a clock time stands for: three numerals with colons between them,
/// the first for hours, the second for minutes, the third for seconds. With fewer or
/// more fields it stands for nothing.
pub open spec fn parse_clock(s: Seq<char>) -> Option<nat> {
    let parts = split(s, ':');
    if parts.len() != 3 {
        None
    } else {
        match (parse_number(parts[0]), parse_number(parts[1]), parse_number(parts[2])) {
            (Some(hours), Some(minutes), Some(seconds)) => Some(
                hours * 3600 + minutes * 60 + seconds,
            ),
            _ => None,
        }
    }
}

/// The milliseconds that a time stands for: a clock time, a comma, and a numeral for
/// the milliseconds. The first comma parts the two, and neither side is empty.
pub open spec fn parse_duration_spec(s: Seq<char>) -> Option<nat> {
    let comma = next_index(s, ',', 0);
    if comma == 0 || comma + 1 >= s.len() {
        None
    } else {
        match (parse_clock(s.take(comma as int)), parse_number(s.skip(comma as int + 1))) {
            (Some(seconds), Some(millis)) => Some(seconds * 1000 + millis),
            _ => None,
        }
    }
}

/// The milliseconds that a time stands for, where they fit in 64 bits.
pub open spec fn parse_time(s: Seq<char>) -> Option<nat> {
    match parse_duration_spec(s) {
        Some(millis) => if millis <= u64::MAX {
            Some(millis)
        } else {
            None
        },
        None => None,
    }
}

/// The number that a field of a clock time stands for, times `unit`.
fn parse_field(parts: &Vec<&[char]>, i: usize, unit: u64) -> (out: Option<u64>)
    requires
        i < parts@.len(),
        unit > 0,
    ensures
        match parse_number(slice_views(parts@)[i as int]) {
            Some(value) => match out {
                Some(product) => product == value * unit,
                None => value * unit > u64::MAX,
            },
            None => out is None,
        },
{
    assert(slice_views(parts@)[i as int] == parts@[i as int]@);
    match parse_u64(parts[i]) {
        Some(value) => {
            value.checked_mul(unit)
        },
        None => {
            proof {
                match parse_number(parts@[i as int]@) {
                    Some(value) => {
                        assert(value * unit >= value) by (nonlinear_arith)
                            requires
                                unit >= 1,
                                value >= 0,
                        ;
                    },
                    None => {},
                }
            }
            None
        },
    }
}

/// The sum of two numbers, where it fits in 64 bits.
fn add_checked(a: Option<u64>, b: Option<u64>) -> (out: Option<u64>)
    ensures
        out == match (a, b) {
            (Some(x), Some(y)) => if x + y <= u64::MAX {
                Some((x + y) as u64)
            } else {
                None
            },
            _ => None::<u64>,
        },
{
    match (a, b) {
        (Some(x), Some(y)) => x.checked_add(y),
        _ => None,
    }
}

/// The milliseconds that the time `dur` stands for, where they fit in 64 bits.
fn parse_millis(dur: &[char]) -> (out: Option<u64>)
    ensures
        out == match parse_time(dur@) {
            Some(millis) => Some(millis as u64),
            None => None,
        },
{
    let len = dur.len();
    let comma = find_char(dur, ',', 0);
    if comma == 0 || comma >= len - 1 {
        return None;
    }
    let clock = slice_subrange(dur, 0, comma);
    let fraction = slice_subrange(dur, comma + 1, len);
    assert(clock@ == dur@.take(comma as int));
    assert(fraction@ == dur@.skip(comma + 1));
    let parts = split_chars(clock, ':');
    if parts.len() != 3 {
        return None;
    }
    let ghost fields = slice_views(parts@);
    let hours = parse_field(&parts, 0, SECONDS_IN_HOUR * MILLIS_IN_SECOND);
    let minutes = parse_field(&parts, 1, SECONDS_IN_MINUTE * MILLIS_IN_SECOND);
    let seconds = parse_field(&parts, 2, MILLIS_IN_SECOND);
    let millis = parse_u64(fraction);
    proof {
        if parse_number(fields[0]) is Some && parse_number(fields[1]) is Some && parse_number(
            fields[2],
        ) is Some && parse_number(fraction@) is Some {
            let h = parse_number(fields[0])->0;
            let m = parse_number(fields[1])->0;
            let s = parse_number(fields[2])->0;
            assert((h * 3600 + m * 60 + s) * 1000 == h * 3600000 + m * 60000 + s * 1000)
                by (nonlinear_arith);
        }
    }
    add_checked(add_checked(add_checked(hours, minutes), seconds), millis)
}

/// Whether ` --> ` stands in the line at position `at`.
pub open spec fn is_arrow_at(line: Seq<char>, at: int) -> bool {
    &&& 0 <= at
    &&& at + 5 <= line.len()
    &&& line.subrange(at, at + 5) == arrow()
}

/// Whether the first ` --> ` of the line stands at position `at`.
pub open spec fn is_first_arrow(line: Seq<char>, at: int) -> bool {
    &&& is_arrow_at(line, at)
    &&& forall|j: int| 0 <= j < at ==> !is_arrow_at(line, j)
}

/// Whether the line holds ` --> `.
pub open spec fn has_arrow(line: Seq<char>) -> bool {
    exists|at: int| is_first_arrow(line, at)
}

/// The position of the first ` --> ` of the line.
pub open spec fn first_arrow(line: Seq<char>) -> int
    recommends
        has_arrow(line),
{
    choose|at: int| is_first_arrow(line, at)
}

/// Only one position is that of the first ` --> `.
pub proof fn lemma_first_arrow_unique(line: Seq<char>, at: int)
    requires
        is_first_arrow(line, at),
    ensures
        has_arrow(line),
        first_arrow(line) == at,
{
    let other = first_arrow(line);
    if other < at {
        assert(!is_arrow_at(line, other));
    } else if at < other {
        assert(!is_arrow_at(line, at));
    }
}

/// The position of the first ` --> ` of the line.
pub fn find_arrow(line: &[char]) -> (found: Option<usize>)
    ensures
        match found {
            Some(at) => is_first_arrow(line@, at as int),
            None => !has_arrow(line@),
        },
{
    let len = line.len();
    let mut at: usize = 0;
    while len >= 5 && at <= len - 5
        invariant
            len == line@.len(),
            forall|j: int| 0 <= j < at ==> !is_arrow_at(line@, j),
        decreases len - at,
    {
        if line[at] == ' ' && line[at + 1] == '-' && line[at + 2] == '-' && line[at + 3] == '>'
            && line[at + 4] == ' ' {
            assert(line@.subrange(at as int, at + 5) =~= arrow());
            return Some(at);
        }
        proof {
            let window = line@.subrange(at as int, at + 5);
            if window == arrow() {
                assert(window[0] == ' ' && window[1] == '-' && window[2] == '-' && window[3]
                    == '>' && window[4] == ' ');
            }
        }
        at += 1;
    }
    assert forall|k: int| !is_first_arrow(line@, k) by {
        if is_arrow_at(line@, k) {
            assert(k < at);
        }
    }
    None
}

/// The start and the end that a line with an interval stands for, in milliseconds:
/// the times before and after its first ` --> `.
pub open spec fn parse_time_range(line: Seq<char>) -> Result<(nat, nat), Malformed> {
    if !has_arrow(line) {
        Err(Malformed::TimeRange(line))
    } else {
        let at = first_arrow(line);
        let left = line.take(at);
        let right = line.skip(at + 5);
        match parse_time(left) {
            None => Err(Malformed::Duration(left)),
            Some(start) => match parse_time(right) {
                None => Err(Malformed::Duration(right)),
                Some(end) => Ok((start, end)),
            },
        }
    }
}

/// What the decoder expects of the next line.
#[derive(Debug, Clone, Copy, PartialEq, Eq, Structural)]
pub enum LoaderState {
    /// The index of an entry.
    Number,
    /// The interval of the entry.
    Timestamps,
    /// A line of the entry's text, or the empty line that ends the entry.
    Text,
}

/// The entry that a decoder starts from: index 0, times 0, no text.
pub open spec fn blank_entry() -> Entry {
    Entry { number: 0, start: 0, end: 0, text: Seq::empty() }
}

/// What a line does to a decoder.
pub struct Fed {
    /// The entry under construction after the line.
    pub working: Entry,
    /// What the decoder expects of the line after it.
    pub state: LoaderState,
    /// The entry that the line completed, if it completed one.
    pub ready: Option<Entry>,
}

/// What the line `line`, with its blank ends cut off, does to a decoder that holds the
/// entry `working` and expects `state`.
pub open spec fn feed(working: Entry, state: LoaderState, line: Seq<char>) -> Result<
    Fed,
    Malformed,
> {
    match state {
        LoaderState::Number => match parse_bounded(line, u32::MAX as nat) {
            Some(number) => Ok(
                Fed {
                    working: Entry { number: number as u32, ..working },
                    state: LoaderState::Timestamps,
                    ready: None,
                },
            ),
            None => Err(Malformed::Index(line)),
        },
        LoaderState::Timestamps => match parse_time_range(line) {
            Ok((start, end)) => Ok(
                Fed {
                    working: Entry { start, end, ..working },
                    state: LoaderState::Text,
                    ready: None,
                },
            ),
            Err(fault) => Err(fault),
        },
        LoaderState::Text => if line.len() == 0 {
            Ok(Fed { working: blank_entry(), state: LoaderState::Number, ready: Some(working) })
        } else {
            Ok(
                Fed {
                    working: Entry {
                        text: if working.text.len() == 0 {
                            line
                        } else {
                            working.text + seq!['\n'] + line
                        },
                        ..working
                    },
                    state: LoaderState::Text,
                    ready: None,
                },
            )
        },
    }
}

/// A decoder as a mathematical value.
pub struct LoaderView {
    /// The entry under construction.
    pub working: Entry,
    /// What is expected of the next line.
    pub state: LoaderState,
    /// The input that has not been read.
    pub remaining: Seq<char>,
}

/// The first line of the input, without the line break that ends it.
pub open spec fn first_line(input: Seq<char>) -> Seq<char> {
    input.take(next_index(input, '\n', 0) as int)
}

/// The input after its first line.
pub open spec fn after_first_line(input: Seq<char>) -> Seq<char> {
    let end = next_index(input, '\n', 0);
    if end < input.len() {
        input.skip(end as int + 1)
    } else {
        Seq::empty()
    }
}

/// What one call for the next entry gives, and the decoder after it.
pub struct Reading {
    /// The entry read, `None` at the end of the input, or the fault met.
    pub result: Result<Option<Entry>, Malformed>,
    /// The decoder after the call.
    pub next: LoaderView,
}

/// Reads lines until one completes an entry, one is at fault, or the input ends. A
/// line at fault is consumed and leaves the entry under construction as it was. At
/// the end of the input an entry under construction is not given out.
pub open spec fn read_next_spec(loader: LoaderView) -> Reading
    decreases loader.remaining.len(),
{
    if loader.remaining.len() == 0 {
        Reading { result: Ok(None), next: loader }
    } else {
        let line = trimmed(first_line(loader.remaining));
        let rest = after_first_line(loader.remaining);
        match feed(loader.working, loader.state, line) {
            Err(fault) => Reading {
                result: Err(fault),
                next: LoaderView { remaining: rest, ..loader },
            },
            Ok(fed) => {
                let next = LoaderView { working: fed.working, state: fed.state, remaining: rest };
                match fed.ready {
                    Some(entry) => Reading { result: Ok(Some(entry)), next },
                    None => read_next_spec(next),
                }
            },
        }
    }
}

/// All entries that a decoder gives until its input ends, or the first fault.
pub open spec fn read_all_spec(loader: LoaderView) -> Result<Seq<Entry>, Malformed>
    decreases loader.remaining.len(),
    when read_next_shrinks(loader)
    via read_all_decreases
{
    let reading = read_next_spec(loader);
    match reading.result {
        Err(fault) => Err(fault),
        Ok(None) => Ok(Seq::empty()),
        Ok(Some(entry)) => match read_all_spec(reading.next) {
            Err(fault) => Err(fault),
            Ok(entries) => Ok(seq![entry] + entries),
        },
    }
}

/// Whether a call for the next entry that gives one leaves less input.
pub open spec fn read_next_shrinks(loader: LoaderView) -> bool {
    read_next_spec(loader).result matches Ok(Some(_)) ==> read_next_spec(
        loader,
    ).next.remaining.len() < loader.remaining.len()
}

#[via_fn]
proof fn read_all_decreases(loader: LoaderView) {
}

/// A call for the next entry never leaves more input than it found, and leaves less
/// where it gives an entry.
pub proof fn lemma_read_next_shrinks(loader: LoaderView)
    ensures
        read_next_spec(loader).next.remaining.len() <= loader.remaining.len(),
        read_next_shrinks(loader),
    decreases loader.remaining.len(),
{
    if loader.remaining.len() > 0 {
        let line = trimmed(first_line(loader.remaining));
        let rest = after_first_line(loader.remaining);
        match feed(loader.working, loader.state, line) {
            Err(_) => {},
            Ok(fed) => {
                if fed.ready is None {
                    lemma_read_next_shrinks(
                        LoaderView { working: fed.working, state: fed.state, remaining: rest },
                    );
                }
            },
        }
    }
}

/// The text of a track as a decoder that has read nothing yet.
pub open spec fn loader_at_start(input: Seq<char>) -> LoaderView {
    LoaderView { working: blank_entry(), state: LoaderState::Number, remaining: input }
}

/// The entries that a text stands for, or the first fault in it.
pub open spec fn decode(input: Seq<char>) -> Result<Seq<Entry>, Malformed> {
    read_all_spec(loader_at_start(input))
}

/// The mathematical value of what a call for the next entry returns.
pub open spec fn reading_view(res: Result<Option<SubItem>, FormatError>) -> Result<
    Option<Entry>,
    Malformed,
> {
    match res {
        Ok(Some(item)) => Ok(Some(item@)),
        Ok(None) => Ok(None),
        Err(e) => Err(e@),
    }
}

/// A decoder of subtitle tracks: it reads a text line by line and gives out its
/// entries one by one.
pub struct Loader {
    working_item: SubItem,
    expect_next_line_state: LoaderState,
    input: Vec<char>,
    pos: usize,
}

impl View for Loader {
    type V = LoaderView;

    closed spec fn view(&self) -> LoaderView {
        LoaderView {
            working: self.working_item@,
            state: self.expect_next_line_state,
            remaining: if self.pos <= self.input@.len() {
                self.input@.skip(self.pos as int)
            } else {
                Seq::empty()
            },
        }
    }
}

impl Loader {
    /// A decoder at the start of `input`.
    pub fn new(input: &str) -> (loader: Loader)
        ensures
            loader@ == loader_at_start(input@),
    {
        let chars = to_chars(input);
        assert(chars@.skip(0) == chars@);
        Loader {
            working_item: SubItem::default(),
            expect_next_line_state: LoaderState::Number,
            input: chars,
            pos: 0,
        }
    }

    /// The next entry of the input; `None` where the input ends before another entry
    /// is complete.
    pub fn read_next(&mut self) -> (res: Result<Option<SubItem>, FormatError>)
        ensures
            reading_view(res) == read_next_spec(old(self)@).result,
            final(self)@ == read_next_spec(old(self)@).next,
    {
        loop
            invariant
                read_next_spec(old(self)@) == read_next_spec(self@),
            decreases self@.remaining.len(),
        {
            let len = self.input.len();
            if self.pos >= len {
                return Ok(None);
            }
            let ghost before = self@;
            let end = find_char(self.input.as_slice(), '\n', self.pos);
            let line = copy_chars(trim(slice_subrange(self.input.as_slice(), self.pos, end)));
            proof {
                lemma_line_at(self.input@, self.pos as nat);
            }
            self.pos = if end < len {
                end + 1
            } else {
                len
            };
            assert(self@.remaining == after_first_line(before.remaining));
            assert(line@ == trimmed(first_line(before.remaining)));
            match self.feed_line(line.as_slice()) {
                Ok(Some(item)) => {
                    return Ok(Some(item));
                },
                Ok(None) => {},
                Err(e) => {
                    return Err(e);
                },
            }
        }
    }

    /// Takes one line, with its blank ends cut off, as what the decoder expects next.
    /// Where the line completes an entry, that entry is returned. A line at fault
    /// changes nothing.
    pub fn feed_line(&mut self, line: &[char]) -> (res: Result<Option<SubItem>, FormatError>)
        ensures
            match feed(old(self)@.working, old(self)@.state, line@) {
                Ok(fed) => reading_view(res) == Ok::<Option<Entry>, Malformed>(fed.ready)
                    && final(self)@ == (LoaderView {
                    working: fed.working,
                    state: fed.state,
                    remaining: old(self)@.remaining,
                }),
                Err(fault) => reading_view(res) == Err::<Option<Entry>, Malformed>(fault)
                    && final(self)@ == old(self)@,
            },
    {
        match self.expect_next_line_state {
            LoaderState::Number => match self.parse_number_line(line) {
                Ok(()) => Ok(None),
                Err(e) => Err(e),
            },
            LoaderState::Timestamps => match self.parse_timestamps_line(line) {
                Ok(()) => Ok(None),
                Err(e) => Err(e),
            },
            LoaderState::Text => Ok(self.parse_text_line(line)),
        }
    }

    /// Takes the line as the index of the entry under construction.
    fn parse_number_line(&mut self, line: &[char]) -> (res: Result<(), FormatError>)
        requires
            old(self)@.state == LoaderState::Number,
        ensures
            match feed(old(self)@.working, LoaderState::Number, line@) {
                Ok(fed) => res is Ok && final(self)@ == (LoaderView {
                    working: fed.working,
                    state: fed.state,
                    remaining: old(self)@.remaining,
                }),
                Err(fault) => res matches Err(e) && e@ == fault && final(self)@ == old(self)@,
            },
    {
        match parse_u32(line) {
            Some(num) => {
                self.working_item.number = num;
                self.expect_next_line_state = LoaderState::Timestamps;
                Ok(())
            },
            None => Err(FormatError::InvalidIndex { line: string_of(line) }),
        }
    }

    /// Takes the line as the interval of the entry under construction: two times with
    /// ` --> ` between them.
    fn parse_timestamps_line(&mut self, line: &[char]) -> (res: Result<(), FormatError>)
        requires
            old(self)@.state == LoaderState::Timestamps,
        ensures
            match feed(old(self)@.working, LoaderState::Timestamps, line@) {
                Ok(fed) => res is Ok && final(self)@ == (LoaderView {
                    working: fed.working,
                    state: fed.state,
                    remaining: old(self)@.remaining,
                }),
                Err(fault) => res matches Err(e) && e@ == fault && final(self)@ == old(self)@,
            },
    {
        let at = match find_arrow(line) {
            Some(at) => at,
            None => {
                return Err(FormatError::InvalidTimeRange { line: string_of(line) });
            },
        };
        proof {
            lemma_first_arrow_unique(line@, at as int);
        }
        let len = line.len();
        assert(at + 5 <= len);
        let left = slice_subrange(line, 0, at);
        let right = slice_subrange(line, at + 5, len);
        assert(left@ == line@.take(at as int));
        assert(right@ == line@.skip(at + 5));
        let start = match Self::parse_duration(left) {
            Ok(millis) => millis,
            Err(e) => {
                return Err(e);
            },
        };
        let end = match Self::parse_duration(right) {
            Ok(millis) => millis,
            Err(e) => {
                return Err(e);
            },
        };
        self.working_item.start_tp = start;
        self.working_item.end_tp = end;
        self.expect_next_line_state = LoaderState::Text;
        Ok(())
    }

    /// Takes the line as a line of text of the entry under construction, or, where it
    /// is empty, as the end of that entry, which is returned.
    fn parse_text_line(&mut self, line: &[char]) -> (ready: Option<SubItem>)
        requires
            old(self)@.state == LoaderState::Text,
        ensures
            match feed(old(self)@.working, LoaderState::Text, line@) {
                Ok(fed) => (match ready {
                    Some(item) => Some(item@),
                    None => None,
                }) == fed.ready && final(self)@ == (LoaderView {
                    working: fed.working,
                    state: fed.state,
                    remaining: old(self)@.remaining,
                }),
                Err(_) => false,
            },
    {
        if line.len() == 0 {
            let mut ready = SubItem::default();
            std::mem::swap(&mut self.working_item, &mut ready);
            self.expect_next_line_state = LoaderState::Number;
            return Some(ready);
        }
        let ghost text = self.working_item.text@;
        if !self.working_item.text.as_str().is_empty() {
            self.working_item.text.push('\n');
            assert(self.working_item.text@ == text + seq!['\n']);
        }
        push_chars(&mut self.working_item.text, line);
        assert(text.len() == 0 ==> text + line@ == line@);
        None
    }

    /// The milliseconds that a time of the form `HH:MM:SS,mmm` stands for.
    pub fn parse_duration(dur: &[char]) -> (res: Result<u64, FormatError>)
        ensures
            match parse_time(dur@) {
                Some(millis) => res == Ok::<u64, FormatError>(millis as u64),
                None => res matches Err(e) && e@ == Malformed::Duration(dur@),
            },
    {
        match parse_millis(dur) {
            Some(millis) => Ok(millis),
            None => Err(FormatError::InvalidDuration { value: string_of(dur) }),
        }
    }
}

/// A copy of the characters.
fn copy_chars(chars: &[char]) -> (out: Vec<char>)
    ensures
        out@ == chars@,
{
    vstd::slice::slice_to_vec(chars)
}

/// The first line of the input from `pos` on ends where the next line break stands,
/// and what follows it starts one position later.
proof fn lemma_line_at(input: Seq<char>, pos: nat)
    requires
        pos < input.len(),
    ensures
        ({
            let end = next_index(input, '\n', pos);
            &&& pos <= end <= input.len()
            &&& first_line(input.skip(pos as int)) == input.subrange(pos as int, end as int)
            &&& after_first_line(input.skip(pos as int)) == if end < input.len() {
                input.skip(end as int + 1)
            } else {
                input.skip(input.len() as int)
            }
        }),
{
    lemma_next_index(input, '\n', pos);
    lemma_next_index_skip(input, '\n', pos, 0);
    let end = next_index(input, '\n', pos);
    let rest = input.skip(pos as int);
    assert(rest.take(end - pos) == input.subrange(pos as int, end as int));
    if end < input.len() {
        assert(rest.skip(end - pos + 1) == input.skip(end as int + 1));
    } else {
        assert(input.skip(input.len() as int) == Seq::<char>::empty());
    }
}

/// Searching in what follows position `pos` finds what searching from `pos` finds.
pub proof fn lemma_next_index_skip(s: Seq<char>, c: char, pos: nat, from: nat)
    requires
        pos + from <= s.len(),
    ensures
        next_index(s.skip(pos as int), c, from) + pos == next_index(s, c, pos + from),
    decreases s.len() - pos - from,
{
    let rest = s.skip(pos as int);
    if from < rest.len() {
        assert(rest[from as int] == s[pos as int + from as int]);
        if rest[from as int] != c {
            lemma_next_index_skip(s, c, pos, from + 1);
        }
    }
}

/// Reads the text of a track: all its entries, or the first fault in it.
pub fn load_subtitles(input: &str) -> (res: Result<Vec<SubItem>, FormatError>)
    ensures
        match decode(input@) {
            Ok(entries) => res matches Ok(items) && views(items@) == entries,
            Err(fault) => res matches Err(e) && e@ == fault,
        },
{
    let mut loader = Loader::new(input);
    let mut result: Vec<SubItem> = Vec::new();
    loop
        invariant
            decode(input@) == match read_all_spec(loader@) {
                Ok(entries) => Ok(views(result@) + entries),
                Err(fault) => Err(fault),
            },
        decreases loader@.remaining.len(),
    {
        let ghost before = loader@;
        let ghost done = result@;
        proof {
            lemma_read_next_shrinks(before);
        }
        match loader.read_next() {
            Ok(Some(item)) => {
                result.push(item);
                proof {
                    assert(views(result@) == views(done).push(item@));
                    lemma_read_next_shrinks(loader@);
                    assert(read_all_spec(before) == match read_all_spec(loader@) {
                        Err(fault) => Err(fault),
                        Ok(entries) => Ok(seq![item@] + entries),
                    });
                    match read_all_spec(loader@) {
                        Ok(entries) => {
                            assert(views(done) + (seq![item@] + entries) == views(result@)
                                + entries);
                        },
                        Err(_) => {},
                    }
                }
            },
            Ok(None) => {
                assert(views(result@) + Seq::<Entry>::empty() == views(result@));
                return Ok(result);
            },
            Err(e) => {
                return Err(e);
            },
        }
    }
}

} // verus!
