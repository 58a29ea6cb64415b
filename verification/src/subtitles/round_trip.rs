use vstd::prelude::*;
use crate::subtitles::loader::{
    after_first_line, blank_entry, decode, feed, first_line, is_arrow_at, is_first_arrow,
    lemma_first_arrow_unique, read_all_spec,
    lemma_read_next_shrinks, loader_at_start, parse_clock, parse_duration_spec, parse_time_range,
    read_next_spec, split, Fed, LoaderState, LoaderView, Malformed, Reading,
};
use crate::subtitles::writer::{
    encode_entries, encode_entry, format_duration_spec, time_range_line,
};
use crate::subtitles::{arrow, Entry};
use crate::text::{
    all_digits, decimal, digit_char, digit_value, digits_value, is_blank, is_digit,
    lemma_next_index, lemma_trim_unique, next_index, numeral_digits, padded, parse_number,
    trimmed, zeros,
};

verus! {

/// A decimal numeral consists of digits, has at least one, and stands for its number.
pub proof fn lemma_decimal(n: nat)
    ensures
        decimal(n).len() > 0,
        all_digits(decimal(n)),
        digits_value(decimal(n)) == n,
    decreases n,
{
    let d = digit_char(n % 10);
    assert(is_digit(d) && digit_value(d) == n % 10);
    if n < 10 {
        assert(decimal(n).drop_last() == Seq::<char>::empty());
        assert(digits_value(decimal(n).drop_last()) == 0);
    } else {
        lemma_decimal(n / 10);
        assert(decimal(n).drop_last() == decimal(n / 10));
    }
}

/// Zeros in front of digits change neither that they are digits nor their number.
pub proof fn lemma_leading_zeros(count: nat, digits: Seq<char>)
    requires
        all_digits(digits),
    ensures
        all_digits(zeros(count) + digits),
        digits_value(zeros(count) + digits) == digits_value(digits),
    decreases digits.len(),
{
    let whole = zeros(count) + digits;
    if digits.len() == 0 {
        assert(whole == zeros(count));
        lemma_zeros_value(count);
    } else {
        lemma_leading_zeros(count, digits.drop_last());
        assert(whole.drop_last() == zeros(count) + digits.drop_last());
        assert(whole.last() == digits.last());
        assert forall|i: int| 0 <= i < whole.len() implies is_digit(#[trigger] whole[i]) by {
            if i >= count {
                assert(whole[i] == digits[i - count]);
            }
        }
    }
}

/// Zeros are digits and stand for zero.
pub proof fn lemma_zeros_value(count: nat)
    ensures
        all_digits(zeros(count)),
        digits_value(zeros(count)) == 0,
    decreases count,
{
    if count > 0 {
        lemma_zeros_value((count - 1) as nat);
        assert(zeros(count).drop_last() == zeros((count - 1) as nat));
    }
}

/// A padded numeral consists of digits, has at least one, and stands for its number.
pub proof fn lemma_padded(n: nat, width: nat)
    ensures
        padded(n, width).len() > 0,
        all_digits(padded(n, width)),
        parse_number(padded(n, width)) == Some(n),
{
    lemma_decimal(n);
    let digits = decimal(n);
    if digits.len() < width {
        lemma_leading_zeros((width - digits.len()) as nat, digits);
    }
    let numeral = padded(n, width);
    assert(is_digit(numeral[0]));
    assert(numeral_digits(numeral) == numeral);
}

/// Whether `c` occurs nowhere in `s`.
pub open spec fn lacks(s: Seq<char>, c: char) -> bool {
    forall|i: int| 0 <= i < s.len() ==> #[trigger] s[i] != c
}

/// Where `c` does not occur, the search for it ends at the end.
pub proof fn lemma_next_index_lacking(s: Seq<char>, c: char, from: nat)
    requires
        lacks(s, c),
    ensures
        next_index(s, c, from) == s.len(),
    decreases s.len() - from,
{
    if from < s.len() {
        assert(s[from as int] != c);
        lemma_next_index_lacking(s, c, from + 1);
    }
}

/// The search for `c` in a sequence that starts with `front`, in which `c` does not
/// occur, and goes on with `c`, ends behind `front`.
pub proof fn lemma_next_index_behind(front: Seq<char>, c: char, back: Seq<char>, from: nat)
    requires
        lacks(front, c),
        from <= front.len(),
    ensures
        next_index(front + seq![c] + back, c, from) == front.len(),
    decreases front.len() - from,
{
    let s = front + seq![c] + back;
    if from < front.len() {
        assert(s[from as int] == front[from as int]);
        lemma_next_index_behind(front, c, back, from + 1);
    } else {
        assert(s[from as int] == c);
    }
}

/// A sequence that starts with `front`, in which `sep` does not occur, and goes on
/// with `sep`, splits into `front` and the pieces of what follows.
pub proof fn lemma_split_behind(front: Seq<char>, sep: char, back: Seq<char>)
    requires
        lacks(front, sep),
    ensures
        split(front + seq![sep] + back, sep) == seq![front] + split(back, sep),
{
    let s = front + seq![sep] + back;
    lemma_next_index_behind(front, sep, back, 0);
    assert(s.take(front.len() as int) == front);
    assert(s.skip(front.len() as int + 1) == back);
}

/// A sequence in which `sep` does not occur is its own single piece.
pub proof fn lemma_split_lacking(s: Seq<char>, sep: char)
    requires
        lacks(s, sep),
    ensures
        split(s, sep) == seq![s],
{
    lemma_next_index_lacking(s, sep, 0);
}

/// Digits hold no other character.
pub proof fn lemma_digits_lack(s: Seq<char>, c: char)
    requires
        all_digits(s),
        !is_digit(c),
    ensures
        lacks(s, c),
{
    assert forall|i: int| 0 <= i < s.len() implies #[trigger] s[i] != c by {
        assert(is_digit(s[i]));
    }
}

/// The hours, minutes and seconds of a number of seconds add up to it.
pub proof fn lemma_clock_sum(secs: nat)
    ensures
        (secs / 3600) * 3600 + (secs % 3600 / 60) * 60 + secs % 60 == secs,
{
    assert((secs % 3600) % 60 == secs % 60) by {
        assert(secs == 3600 * (secs / 3600) + secs % 3600);
        assert(3600 * (secs / 3600) == 60 * (60 * (secs / 3600))) by (nonlinear_arith);
        vstd::arithmetic::div_mod::lemma_mod_multiples_vanish(
            60 * (secs / 3600) as int,
            (secs % 3600) as int,
            60,
        );
    }
}

/// A formatted time stands for its milliseconds.
pub proof fn lemma_duration_round_trip(millis: nat)
    ensures
        parse_duration_spec(format_duration_spec(millis)) == Some(millis),
{
    let secs = millis / 1000;
    let hours = padded(secs / 3600, 2);
    let minutes = padded(secs % 3600 / 60, 2);
    let seconds = padded(secs % 60, 2);
    let fraction = padded(millis % 1000, 3);
    lemma_padded(secs / 3600, 2);
    lemma_padded(secs % 3600 / 60, 2);
    lemma_padded(secs % 60, 2);
    lemma_padded(millis % 1000, 3);
    let clock = hours + seq![':'] + minutes + seq![':'] + seconds;
    let text = format_duration_spec(millis);
    assert(text == clock + seq![','] + fraction);
    assert(lacks(clock, ',')) by {
        lemma_digits_lack(hours, ',');
        lemma_digits_lack(minutes, ',');
        lemma_digits_lack(seconds, ',');
    }
    lemma_next_index_behind(clock, ',', fraction, 0);
    assert(text.take(clock.len() as int) == clock);
    assert(text.skip(clock.len() as int + 1) == fraction);
    lemma_digits_lack(hours, ':');
    lemma_digits_lack(minutes, ':');
    lemma_digits_lack(seconds, ':');
    assert(clock == hours + seq![':'] + (minutes + seq![':'] + seconds));
    lemma_split_behind(hours, ':', minutes + seq![':'] + seconds);
    lemma_split_behind(minutes, ':', seconds);
    lemma_split_lacking(seconds, ':');
    let parts = split(clock, ':');
    assert(parts == seq![hours, minutes, seconds]);
    lemma_clock_sum(secs);
    assert(parse_clock(clock) == Some(secs));
}

/// Whether a character can stand in a formatted time: a digit, a colon or a comma.
pub open spec fn is_time_char(c: char) -> bool {
    is_digit(c) || c == ':' || c == ','
}

/// A formatted time holds digits, colons and commas only, and starts and ends with
/// a digit.
pub proof fn lemma_duration_chars(millis: nat)
    ensures
        format_duration_spec(millis).len() > 0,
        is_digit(format_duration_spec(millis).first()),
        is_digit(format_duration_spec(millis).last()),
        forall|i: int|
            0 <= i < format_duration_spec(millis).len() ==> is_time_char(
                #[trigger] format_duration_spec(millis)[i],
            ),
{
    let secs = millis / 1000;
    let hours = padded(secs / 3600, 2);
    let minutes = padded(secs % 3600 / 60, 2);
    let seconds = padded(secs % 60, 2);
    let fraction = padded(millis % 1000, 3);
    lemma_padded(secs / 3600, 2);
    lemma_padded(secs % 3600 / 60, 2);
    lemma_padded(secs % 60, 2);
    lemma_padded(millis % 1000, 3);
    let text = format_duration_spec(millis);
    assert(text == hours + seq![':'] + minutes + seq![':'] + seconds + seq![','] + fraction);
    assert(text.first() == hours[0]);
    assert(text.last() == fraction.last());
    assert forall|i: int| 0 <= i < text.len() implies is_time_char(#[trigger] text[i]) by {
        let a = hours.len() as int;
        let b = a + 1 + minutes.len();
        let c = b + 1 + seconds.len();
        if i < a {
            assert(text[i] == hours[i]);
        } else if i == a {
        } else if i < b {
            assert(text[i] == minutes[i - a - 1]);
        } else if i == b {
        } else if i < c {
            assert(text[i] == seconds[i - b - 1]);
        } else if i == c {
        } else {
            assert(text[i] == fraction[i - c - 1]);
        }
    }
}

/// Where no blank space stands in `left`, the first ` --> ` of `left`, ` --> ` and
/// `right` is the one between them.
pub proof fn lemma_arrow_between(left: Seq<char>, right: Seq<char>)
    requires
        lacks(left, ' '),
    ensures
        is_first_arrow(left + arrow() + right, left.len() as int),
        (left + arrow() + right).take(left.len() as int) == left,
        (left + arrow() + right).skip(left.len() as int + 5) == right,
{
    let line = left + arrow() + right;
    let at = left.len() as int;
    assert(line.subrange(at, at + 5) == arrow());
    assert forall|j: int| 0 <= j < at implies !is_arrow_at(line, j) by {
        if j + 5 <= line.len() {
            assert(line.subrange(j, j + 5)[0] == left[j]);
            assert(arrow()[0] == ' ');
        }
    }
    assert(line.take(at) == left);
    assert(line.skip(at + 5) == right);
}

/// Where no line break stands in `left` or in `right`, none stands in `left`, ` --> `
/// and `right`.
pub proof fn lemma_arrow_line(left: Seq<char>, right: Seq<char>)
    requires
        lacks(left, '\n'),
        lacks(right, '\n'),
        left.len() > 0,
        right.len() > 0,
    ensures
        lacks(left + arrow() + right, '\n'),
        (left + arrow() + right).first() == left.first(),
        (left + arrow() + right).last() == right.last(),
{
    let line = left + arrow() + right;
    let at = left.len() as int;
    assert forall|i: int| 0 <= i < line.len() implies #[trigger] line[i] != '\n' by {
        if i < at {
            assert(line[i] == left[i]);
        } else if i < at + 5 {
            assert(line[i] == arrow()[i - at]);
        } else {
            assert(line[i] == right[i - at - 5]);
        }
    }
}

/// Where time characters stand only, `c` does not, unless it is one.
pub proof fn lemma_time_chars_lack(s: Seq<char>, c: char)
    requires
        forall|i: int| 0 <= i < s.len() ==> is_time_char(#[trigger] s[i]),
        !is_time_char(c),
    ensures
        lacks(s, c),
{
    assert forall|i: int| 0 <= i < s.len() implies #[trigger] s[i] != c by {
        assert(is_time_char(s[i]));
    }
}

/// A formatted interval stands for its start and its end; it holds no line break
/// and starts and ends with a digit.
pub proof fn lemma_time_range_round_trip(start: nat, end: nat)
    requires
        start <= u64::MAX,
        end <= u64::MAX,
    ensures
        parse_time_range(time_range_line(start, end)) == Ok::<(nat, nat), Malformed>(
            (start, end),
        ),
        time_range_line(start, end).len() > 0,
        is_digit(time_range_line(start, end).first()),
        is_digit(time_range_line(start, end).last()),
        lacks(time_range_line(start, end), '\n'),
{
    let left = format_duration_spec(start);
    let right = format_duration_spec(end);
    let line = time_range_line(start, end);
    lemma_duration_chars(start);
    lemma_duration_chars(end);
    lemma_duration_round_trip(start);
    lemma_duration_round_trip(end);
    lemma_time_chars_lack(left, ' ');
    lemma_time_chars_lack(left, '\n');
    lemma_time_chars_lack(right, '\n');
    lemma_arrow_between(left, right);
    lemma_arrow_line(left, right);
    lemma_first_arrow_unique(line, left.len() as int);
}

/// Whether a line can be read back as it is: it holds no line break, and is empty or
/// starts and ends with a character that is not blank.
pub open spec fn is_plain_line(line: Seq<char>) -> bool {
    &&& lacks(line, '\n')
    &&& line.len() > 0 ==> !is_blank(line.first()) && !is_blank(line.last())
}

/// A plain line, a line break and more input: the first line is the plain line, as it
/// is also with its blank ends cut off, and what follows it is the rest.
pub proof fn lemma_plain_line(line: Seq<char>, rest: Seq<char>)
    requires
        is_plain_line(line),
    ensures
        first_line(line + seq!['\n'] + rest) == line,
        after_first_line(line + seq!['\n'] + rest) == rest,
        trimmed(line) == line,
{
    let input = line + seq!['\n'] + rest;
    lemma_next_index_behind(line, '\n', rest, 0);
    assert(input.take(line.len() as int) == line);
    assert(input.skip(line.len() as int + 1) == rest);
    lemma_trim_unique(line, 0, line.len() as int);
    assert(line.subrange(0, line.len() as int) == line);
}

/// Whether a line of text is read back as it is: it is not empty and has no blank ends.
pub open spec fn is_text_line(line: Seq<char>) -> bool {
    line.len() > 0 && !is_blank(line.first()) && !is_blank(line.last())
}

/// Whether a text is read back as it is: each of its lines is.
pub open spec fn is_plain_text(text: Seq<char>) -> bool {
    forall|i: int|
        0 <= i < split(text, '\n').len() ==> is_text_line(#[trigger] split(text, '\n')[i])
}

/// Whether an entry is read back from its text form as it is: its times fit in 64
/// bits, and no line of its text is empty or has blank ends.
pub open spec fn reads_back(entry: Entry) -> bool {
    &&& entry.start <= u64::MAX
    &&& entry.end <= u64::MAX
    &&& is_plain_text(entry.text)
}

/// A text with more text put behind it, on a line of its own unless it is empty.
pub open spec fn joined(text: Seq<char>, more: Seq<char>) -> Seq<char> {
    if text.len() == 0 {
        more
    } else {
        text + seq!['\n'] + more
    }
}

/// A decoder that expects text, at the start of a plain text and a line break, takes
/// that text into the entry under construction.
pub proof fn lemma_read_text(working: Entry, text: Seq<char>, rest: Seq<char>)
    requires
        is_plain_text(text),
    ensures
        read_next_spec(
            LoaderView { working, state: LoaderState::Text, remaining: text + seq!['\n'] + rest },
        ) == read_next_spec(
            LoaderView {
                working: Entry { text: joined(working.text, text), ..working },
                state: LoaderState::Text,
                remaining: rest,
            },
        ),
    decreases text.len(),
{
    let input = text + seq!['\n'] + rest;
    let loader = LoaderView { working, state: LoaderState::Text, remaining: input };
    let at = next_index(text, '\n', 0);
    lemma_next_index(text, '\n', 0);
    let lines = split(text, '\n');
    if at >= text.len() {
        assert(lines[0] == text);
        assert(is_text_line(text));
        assert(lacks(text, '\n'));
        lemma_plain_line(text, rest);
        let next = LoaderView {
            working: Entry { text: joined(working.text, text), ..working },
            state: LoaderState::Text,
            remaining: rest,
        };
        assert(feed(working, LoaderState::Text, text) == Ok::<Fed, Malformed>(
            Fed { working: next.working, state: LoaderState::Text, ready: None },
        ));
        assert(read_next_spec(loader) == read_next_spec(next));
    } else {
        let line = text.take(at as int);
        let tail = text.skip(at as int + 1);
        assert(lines == seq![line] + split(tail, '\n'));
        assert(lines[0] == line);
        assert(is_text_line(line));
        assert(lacks(line, '\n'));
        assert forall|i: int| 0 <= i < split(tail, '\n').len() implies is_text_line(
            #[trigger] split(tail, '\n')[i],
        ) by {
            assert(split(tail, '\n')[i] == lines[i + 1]);
        }
        let after = tail + seq!['\n'] + rest;
        assert(input == line + seq!['\n'] + after);
        lemma_plain_line(line, after);
        let working1 = Entry { text: joined(working.text, line), ..working };
        let next = LoaderView { working: working1, state: LoaderState::Text, remaining: after };
        assert(feed(working, LoaderState::Text, line) == Ok::<Fed, Malformed>(
            Fed { working: working1, state: LoaderState::Text, ready: None },
        ));
        assert(read_next_spec(loader) == read_next_spec(next));
        lemma_read_text(working1, tail, rest);
        assert(text == line + seq!['\n'] + tail);
        assert(joined(working1.text, tail) == joined(working.text, text));
    }
}

/// A decoder at the start of an entry's text form reads that entry and stops behind it.
pub proof fn lemma_read_entry(entry: Entry, rest: Seq<char>)
    requires
        reads_back(entry),
    ensures
        read_next_spec(loader_at_start(encode_entry(entry) + rest)) == (Reading {
            result: Ok(Some(entry)),
            next: loader_at_start(rest),
        }),
{
    let number = decimal(entry.number as nat);
    let range = time_range_line(entry.start, entry.end);
    let text = entry.text;
    let empty = Seq::<char>::empty();
    let break_ = seq!['\n'];
    let input3 = empty + break_ + rest;
    let input2 = text + break_ + input3;
    let input1 = range + break_ + input2;
    let input0 = number + break_ + input1;
    assert(encode_entry(entry) + rest =~= input0);
    lemma_decimal(entry.number as nat);
    assert(is_plain_line(number)) by {
        lemma_digits_lack(number, '\n');
        assert(is_digit(number.first()) && is_digit(number.last()));
    }
    lemma_time_range_round_trip(entry.start, entry.end);
    assert(is_plain_line(range));
    assert(is_plain_line(empty));
    lemma_plain_line(number, input1);
    lemma_plain_line(range, input2);
    lemma_plain_line(empty, rest);
    assert(numeral_digits(number) == number);
    let blank = blank_entry();
    let working1 = Entry { number: entry.number, ..blank };
    let working2 = Entry { start: entry.start, end: entry.end, ..working1 };
    let working3 = Entry { text: joined(working2.text, text), ..working2 };
    assert(working3 == entry);
    let loader0 = loader_at_start(input0);
    let loader1 = LoaderView {
        working: working1,
        state: LoaderState::Timestamps,
        remaining: input1,
    };
    let loader2 = LoaderView { working: working2, state: LoaderState::Text, remaining: input2 };
    let loader3 = LoaderView { working: working3, state: LoaderState::Text, remaining: input3 };
    assert(feed(blank, LoaderState::Number, number) == Ok::<Fed, Malformed>(
        Fed { working: working1, state: LoaderState::Timestamps, ready: None },
    ));
    assert(read_next_spec(loader0) == read_next_spec(loader1));
    assert(feed(working1, LoaderState::Timestamps, range) == Ok::<Fed, Malformed>(
        Fed { working: working2, state: LoaderState::Text, ready: None },
    ));
    assert(read_next_spec(loader1) == read_next_spec(loader2));
    lemma_read_text(working2, text, input3);
    assert(read_next_spec(loader2) == read_next_spec(loader3));
    assert(feed(working3, LoaderState::Text, empty) == Ok::<Fed, Malformed>(
        Fed { working: blank, state: LoaderState::Number, ready: Some(entry) },
    ));
    assert(read_next_spec(loader3) == (Reading {
        result: Ok(Some(entry)),
        next: loader_at_start(rest),
    }));
}

/// The text form of a track is that of its first entry, then that of the others.
pub proof fn lemma_encode_first(items: Seq<Entry>)
    requires
        items.len() > 0,
    ensures
        encode_entries(items) == encode_entry(items.first()) + encode_entries(items.drop_first()),
    decreases items.len(),
{
    if items.len() == 1 {
        assert(items.drop_last() == Seq::<Entry>::empty());
        assert(items.drop_first() == Seq::<Entry>::empty());
        assert(encode_entries(items.drop_last()) == Seq::<char>::empty());
        assert(encode_entries(items) == Seq::<char>::empty() + encode_entry(items.last()));
    } else {
        lemma_encode_first(items.drop_last());
        assert(items.drop_last().drop_first() == items.drop_first().drop_last());
        assert(items.drop_last().first() == items.first());
        assert(items.drop_first().last() == items.last());
        assert(encode_entry(items.first()) + encode_entries(items.drop_first().drop_last())
            + encode_entry(items.last()) == encode_entry(items.first()) + (encode_entries(
            items.drop_first().drop_last(),
        ) + encode_entry(items.last())));
    }
}

/// A decoder whose next entry is `entry`, and which then gives the entries `rest`,
/// gives `entry` and then `rest`.
pub proof fn lemma_read_all_step(
    loader: LoaderView,
    entry: Entry,
    next: LoaderView,
    rest: Seq<Entry>,
)
    requires
        read_next_spec(loader) == (Reading { result: Ok(Some(entry)), next }),
        read_all_spec(next) == Ok::<Seq<Entry>, Malformed>(rest),
    ensures
        read_all_spec(loader) == Ok::<Seq<Entry>, Malformed>(seq![entry] + rest),
{
    lemma_read_next_shrinks(loader);
    lemma_read_next_shrinks(next);
    assert(read_all_spec(loader) == match read_all_spec(read_next_spec(loader).next) {
        Err(fault) => Err(fault),
        Ok(entries) => Ok(seq![entry] + entries),
    });
}

/// A decoder with no input left gives no entry.
pub proof fn lemma_read_all_end(loader: LoaderView)
    requires
        loader.remaining.len() == 0,
    ensures
        read_all_spec(loader) == Ok::<Seq<Entry>, Malformed>(Seq::empty()),
{
    lemma_read_next_shrinks(loader);
}

/// Decoding the text form of a track gives the track back, where each of its entries
/// has times that fit in 64 bits and a text without empty lines and without blank ends
/// of lines.
pub proof fn lemma_round_trip(items: Seq<Entry>)
    requires
        forall|i: int| 0 <= i < items.len() ==> reads_back(#[trigger] items[i]),
    ensures
        decode(encode_entries(items)) == Ok::<Seq<Entry>, Malformed>(items),
    decreases items.len(),
{
    if items.len() > 0 {
        let rest = items.drop_first();
        lemma_encode_first(items);
        assert(reads_back(items[0]));
        lemma_read_entry(items.first(), encode_entries(rest));
        assert forall|i: int| 0 <= i < rest.len() implies reads_back(#[trigger] rest[i]) by {
            assert(rest[i] == items[i + 1]);
        }
        lemma_round_trip(rest);
        lemma_read_all_step(
            loader_at_start(encode_entries(items)),
            items.first(),
            loader_at_start(encode_entries(rest)),
            rest,
        );
        assert(seq![items.first()] + rest == items);
    } else {
        assert(encode_entries(items) == Seq::<char>::empty());
        lemma_read_all_end(loader_at_start(encode_entries(items)));
        assert(items == Seq::<Entry>::empty());
    }
}

/// A text of one line that is not empty and has no blank ends is read back as it is.
pub proof fn lemma_single_line_is_plain(line: Seq<char>)
    requires
        is_text_line(line),
        lacks(line, '\n'),
    ensures
        is_plain_text(line),
{
    lemma_split_lacking(line, '\n');
}

/// Two lines of text before the empty line that ends an entry are read as one text
/// with a line break between them.
pub proof fn lemma_two_text_lines(
    number: u32,
    start: nat,
    end: nat,
    first: Seq<char>,
    second: Seq<char>,
)
    requires
        start <= u64::MAX,
        end <= u64::MAX,
        is_text_line(first),
        is_text_line(second),
        lacks(first, '\n'),
        lacks(second, '\n'),
    ensures
        decode(
            decimal(number as nat) + seq!['\n'] + time_range_line(start, end) + seq!['\n'] + first
                + seq!['\n'] + second + seq!['\n'] + seq!['\n'],
        ) == Ok::<Seq<Entry>, Malformed>(
            seq![Entry { number, start, end, text: first + seq!['\n'] + second }],
        ),
{
    let text = first + seq!['\n'] + second;
    let entry = Entry { number, start, end, text };
    lemma_split_behind(first, '\n', second);
    lemma_split_lacking(second, '\n');
    assert(split(text, '\n') == seq![first, second]);
    let items = seq![entry];
    assert(items.drop_last() == Seq::<Entry>::empty());
    assert(encode_entries(items.drop_last()) == Seq::<char>::empty());
    assert(encode_entries(items) == Seq::<char>::empty() + encode_entry(entry));
    assert(encode_entry(entry) =~= decimal(number as nat) + seq!['\n'] + time_range_line(
        start,
        end,
    ) + seq!['\n'] + first + seq!['\n'] + second + seq!['\n'] + seq!['\n']);
    lemma_round_trip(items);
}

} // verus!
