use subtitle_tools::subtitles::loader::{
    find_arrow, load_subtitles, split_chars, FormatError, Loader,
};
use subtitle_tools::subtitles::writer::{write_subtitles, Writer};
use subtitle_tools::subtitles::SubItem;
use subtitle_tools::text::{
    find_char, is_blank_char, parse_u32, parse_u64, push_chars, push_padded, to_chars, trim,
};

fn entry(number: u32, start_tp: u64, end_tp: u64, text: &str) -> SubItem {
    SubItem { number, start_tp, end_tp, text: text.to_string() }
}

fn chars(s: &str) -> Vec<char> {
    s.chars().collect()
}

fn duration(s: &str) -> Result<u64, FormatError> {
    Loader::parse_duration(&chars(s))
}

fn invalid_duration(s: &str) -> Result<u64, FormatError> {
    Err(FormatError::InvalidDuration { value: s.to_string() })
}

#[test]
fn default_item_is_blank() {
    assert_eq!(SubItem::default(), entry(0, 0, 0, ""));
}

#[test]
fn duration_is_end_minus_start() {
    assert_eq!(entry(1, 8520, 10240, "A").duration(), 1720);
    assert_eq!(entry(1, 5, 5, "A").duration(), 0);
}

#[test]
fn parse_duration_reads_hours_minutes_seconds_millis() {
    assert_eq!(duration("00:00:08,520"), Ok(8520));
    assert_eq!(duration("01:02:03,004"), Ok(3723004));
    assert_eq!(duration("00:00:00,000"), Ok(0));
    assert_eq!(duration("100:00:00,000"), Ok(360000000));
    assert_eq!(duration("00:59:59,999"), Ok(3599999));
}

#[test]
fn parse_duration_takes_numbers_of_any_length() {
    assert_eq!(duration("1:2:3,4"), Ok(3723004));
    assert_eq!(duration("0:0:0,5000"), Ok(5000));
    assert_eq!(duration("0:90:75,0"), Ok(5475000));
    assert_eq!(duration("+1:+2:+3,+4"), Ok(3723004));
}

#[test]
fn parse_duration_needs_hours_minutes_and_seconds() {
    assert_eq!(duration("5,000"), invalid_duration("5,000"));
    assert_eq!(duration("1:2,5"), invalid_duration("1:2,5"));
    assert_eq!(duration("01:02,003"), invalid_duration("01:02,003"));
    assert_eq!(duration("00:08,520"), invalid_duration("00:08,520"));
}

#[test]
fn parse_duration_reaches_the_biggest_time() {
    assert_eq!(duration("0:0:0,18446744073709551615"), Ok(u64::MAX));
    assert_eq!(duration("5124095576030:25:51,615"), Ok(u64::MAX));
}

#[test]
fn parse_duration_turns_down_times_too_big() {
    assert_eq!(
        duration("0:0:0,18446744073709551616"),
        invalid_duration("0:0:0,18446744073709551616")
    );
    assert_eq!(duration("5124095576030:25:51,616"), invalid_duration("5124095576030:25:51,616"));
    assert_eq!(
        duration("99999999999999999999:00:00,000"),
        invalid_duration("99999999999999999999:00:00,000")
    );
    assert_eq!(duration("0:0:18446744073709551615,0"), invalid_duration("0:0:18446744073709551615,0"));
}

#[test]
fn parse_duration_needs_a_comma_with_something_on_both_sides() {
    assert_eq!(duration("00:00:08"), invalid_duration("00:00:08"));
    assert_eq!(duration(",520"), invalid_duration(",520"));
    assert_eq!(duration("00:00:08,"), invalid_duration("00:00:08,"));
    assert_eq!(duration(""), invalid_duration(""));
    assert_eq!(duration(","), invalid_duration(","));
    assert_eq!(duration("00:00:08.520"), invalid_duration("00:00:08.520"));
}

#[test]
fn parse_duration_turns_down_malformed_fields() {
    assert_eq!(duration("00:00:0a,520"), invalid_duration("00:00:0a,520"));
    assert_eq!(duration("00:00:08,5x0"), invalid_duration("00:00:08,5x0"));
    assert_eq!(duration("00::08,520"), invalid_duration("00::08,520"));
    assert_eq!(duration("00:00:08,520,1"), invalid_duration("00:00:08,520,1"));
    assert_eq!(duration("00:00:-8,520"), invalid_duration("00:00:-8,520"));
    assert_eq!(duration(" 00:00:08,520"), invalid_duration(" 00:00:08,520"));
    assert_eq!(duration(":00:08,520"), invalid_duration(":00:08,520"));
}

#[test]
fn parse_duration_turns_down_a_fourth_field() {
    assert_eq!(duration("1:2:3:4,5"), invalid_duration("1:2:3:4,5"));
    assert_eq!(duration("0:00:00:08,520"), invalid_duration("0:00:00:08,520"));
}

#[test]
fn format_duration_pads_with_zeros() {
    assert_eq!(Writer::format_duration(0), "00:00:00,000");
    assert_eq!(Writer::format_duration(8520), "00:00:08,520");
    assert_eq!(Writer::format_duration(3723004), "01:02:03,004");
    assert_eq!(Writer::format_duration(3599999), "00:59:59,999");
    assert_eq!(Writer::format_duration(86399999), "23:59:59,999");
}

#[test]
fn format_duration_writes_hours_of_any_length() {
    assert_eq!(Writer::format_duration(360000000), "100:00:00,000");
    assert_eq!(Writer::format_duration(u64::MAX), "5124095576030:25:51,615");
}

#[test]
fn format_time_range_puts_an_arrow_between() {
    assert_eq!(Writer::format_time_range(8520, 10240), "00:00:08,520 --> 00:00:10,240");
}

#[test]
fn formatted_duration_parses_back() {
    for millis in [0u64, 1, 999, 1000, 59999, 60000, 3599999, 3600000, 86400000, u64::MAX] {
        let text = Writer::format_duration(millis);
        assert_eq!(duration(&text), Ok(millis));
    }
}

#[test]
fn write_item_writes_index_interval_text_and_empty_line() {
    let mut writer = Writer::new(String::new());
    writer.write_item(entry(1, 8520, 10240, "Hello"));
    assert_eq!(writer.into_output(), "1\n00:00:08,520 --> 00:00:10,240\nHello\n\n");
}

#[test]
fn write_item_goes_on_behind_what_is_written() {
    let mut writer = Writer::new("begin\n".to_string());
    writer.write_item(entry(12, 0, 1, "A\nB"));
    writer.write_item(entry(4294967295, 3600000, 3661001, ""));
    assert_eq!(
        writer.into_output(),
        "begin\n12\n00:00:00,000 --> 00:00:00,001\nA\nB\n\n4294967295\n01:00:00,000 --> 01:01:01,001\n\n\n"
    );
}

#[test]
fn write_subtitles_writes_all_entries() {
    let items = vec![entry(1, 0, 1000, "A"), entry(2, 1000, 2000, "Второй")];
    assert_eq!(
        write_subtitles(items),
        "1\n00:00:00,000 --> 00:00:01,000\nA\n\n2\n00:00:01,000 --> 00:00:02,000\nВторой\n\n"
    );
    assert_eq!(write_subtitles(Vec::new()), "");
}

#[test]
fn load_reads_entries() {
    let input = "1\n00:00:08,520 --> 00:00:10,240\nHello\n\n2\n00:00:11,000 --> 00:00:12,500\nWorld\n\n";
    assert_eq!(
        load_subtitles(input),
        Ok(vec![entry(1, 8520, 10240, "Hello"), entry(2, 11000, 12500, "World")])
    );
}

#[test]
fn load_of_nothing_is_nothing() {
    assert_eq!(load_subtitles(""), Ok(Vec::new()));
}

#[test]
fn load_joins_text_lines_with_a_line_break() {
    let input = "1\n00:00:01,000 --> 00:00:02,000\nfirst line\nsecond line\n\n";
    assert_eq!(load_subtitles(input), Ok(vec![entry(1, 1000, 2000, "first line\nsecond line")]));
    let three = "7\n00:00:01,000 --> 00:00:02,000\na\nb\nc\n\n";
    assert_eq!(load_subtitles(three), Ok(vec![entry(7, 1000, 2000, "a\nb\nc")]));
}

#[test]
fn load_cuts_blank_ends_off_every_line() {
    let input = "\u{feff}1\r\n  00:00:01,000 --> 00:00:02,000\t\r\n\u{a0}Hello there \r\n\u{feff}\r\n \u{feff}2 \r\n00:00:03,000 --> 00:00:04,000\r\n\u{3000}You\r\n\r\n";
    assert_eq!(
        load_subtitles(input),
        Ok(vec![entry(1, 1000, 2000, "Hello there"), entry(2, 3000, 4000, "You")])
    );
}

#[test]
fn load_drops_a_block_that_is_not_ended() {
    let no_empty_line = "1\n00:00:01,000 --> 00:00:02,000\nA\n\n2\n00:00:03,000 --> 00:00:04,000\nB\n";
    assert_eq!(load_subtitles(no_empty_line), Ok(vec![entry(1, 1000, 2000, "A")]));
    let no_line_break = "1\n00:00:01,000 --> 00:00:02,000\nA\n\n2\n00:00:03,000 --> 00:00:04,000\nB";
    assert_eq!(load_subtitles(no_line_break), Ok(vec![entry(1, 1000, 2000, "A")]));
    let no_text = "1\n00:00:01,000 --> 00:00:02,000\nA\n\n2\n00:00:03,000 --> 00:00:04,000";
    assert_eq!(load_subtitles(no_text), Ok(vec![entry(1, 1000, 2000, "A")]));
    let index_only = "1";
    assert_eq!(load_subtitles(index_only), Ok(Vec::new()));
}

#[test]
fn load_ends_an_entry_at_the_end_of_input_without_line_break() {
    let input = "1\n00:00:01,000 --> 00:00:02,000\nA\n ";
    assert_eq!(load_subtitles(input), Ok(vec![entry(1, 1000, 2000, "A")]));
}

#[test]
fn load_reads_an_entry_without_text() {
    let input = "1\n00:00:01,000 --> 00:00:02,000\n\n2\n00:00:03,000 --> 00:00:04,000\nB\n\n";
    assert_eq!(
        load_subtitles(input),
        Ok(vec![entry(1, 1000, 2000, ""), entry(2, 3000, 4000, "B")])
    );
}

#[test]
fn load_does_not_check_that_the_end_is_after_the_start() {
    let input = "3\n00:00:05,000 --> 00:00:02,000\nA\n\n";
    assert_eq!(load_subtitles(input), Ok(vec![entry(3, 5000, 2000, "A")]));
}

#[test]
fn load_fails_on_invalid_index() {
    assert_eq!(
        load_subtitles("one\n00:00:01,000 --> 00:00:02,000\nA\n\n"),
        Err(FormatError::InvalidIndex { line: "one".to_string() })
    );
    assert_eq!(
        load_subtitles("-1\n00:00:01,000 --> 00:00:02,000\nA\n\n"),
        Err(FormatError::InvalidIndex { line: "-1".to_string() })
    );
    assert_eq!(
        load_subtitles("4294967296\n00:00:01,000 --> 00:00:02,000\nA\n\n"),
        Err(FormatError::InvalidIndex { line: "4294967296".to_string() })
    );
}

#[test]
fn load_fails_on_a_second_empty_line() {
    let input = "1\n00:00:01,000 --> 00:00:02,000\nA\n\n\n2\n00:00:03,000 --> 00:00:04,000\nB\n\n";
    assert_eq!(load_subtitles(input), Err(FormatError::InvalidIndex { line: String::new() }));
}

#[test]
fn load_fails_without_arrow() {
    assert_eq!(
        load_subtitles("1\n00:00:01,000 -> 00:00:02,000\nA\n\n"),
        Err(FormatError::InvalidTimeRange { line: "00:00:01,000 -> 00:00:02,000".to_string() })
    );
    assert_eq!(
        load_subtitles("1\n00:00:01,000-->00:00:02,000\nA\n\n"),
        Err(FormatError::InvalidTimeRange { line: "00:00:01,000-->00:00:02,000".to_string() })
    );
    assert_eq!(
        load_subtitles("1\n\nA\n\n"),
        Err(FormatError::InvalidTimeRange { line: String::new() })
    );
}

#[test]
fn load_fails_on_invalid_duration() {
    assert_eq!(
        load_subtitles("1\n00:00:01 --> 00:00:02,000\nA\n\n"),
        Err(FormatError::InvalidDuration { value: "00:00:01".to_string() })
    );
    assert_eq!(
        load_subtitles("1\n00:00:01,000 --> 00:0x:02,000\nA\n\n"),
        Err(FormatError::InvalidDuration { value: "00:0x:02,000".to_string() })
    );
    assert_eq!(
        load_subtitles("1\n00:00:01,000 --> 00:00:02,000 --> 00:00:03,000\nA\n\n"),
        Err(FormatError::InvalidDuration { value: "00:00:02,000 --> 00:00:03,000".to_string() })
    );
    assert_eq!(
        load_subtitles("1\n00:00:01,000  --> 00:00:02,000\nA\n\n"),
        Err(FormatError::InvalidDuration { value: "00:00:01,000 ".to_string() })
    );
}

#[test]
fn load_gives_no_entries_on_failure() {
    let input = "1\n00:00:01,000 --> 00:00:02,000\nA\n\nx\n";
    assert_eq!(load_subtitles(input), Err(FormatError::InvalidIndex { line: "x".to_string() }));
}

#[test]
fn read_next_gives_one_entry_at_a_time() {
    let input = "1\n00:00:01,000 --> 00:00:02,000\nA\n\n2\n00:00:03,000 --> 00:00:04,000\nB\n\n";
    let mut loader = Loader::new(input);
    assert_eq!(loader.read_next(), Ok(Some(entry(1, 1000, 2000, "A"))));
    assert_eq!(loader.read_next(), Ok(Some(entry(2, 3000, 4000, "B"))));
    assert_eq!(loader.read_next(), Ok(None));
    assert_eq!(loader.read_next(), Ok(None));
}

#[test]
fn read_next_goes_on_behind_a_line_at_fault() {
    let input = "x\n1\n00:00:01,000 --> 00:00:02,000\nA\n\n";
    let mut loader = Loader::new(input);
    assert_eq!(loader.read_next(), Err(FormatError::InvalidIndex { line: "x".to_string() }));
    assert_eq!(loader.read_next(), Ok(Some(entry(1, 1000, 2000, "A"))));
    assert_eq!(loader.read_next(), Ok(None));
}

#[test]
fn feed_line_walks_through_the_states() {
    let mut loader = Loader::new("");
    assert_eq!(loader.feed_line(&chars("15")), Ok(None));
    assert_eq!(loader.feed_line(&chars("00:00:01,000 --> 00:00:02,000")), Ok(None));
    assert_eq!(loader.feed_line(&chars("one")), Ok(None));
    assert_eq!(loader.feed_line(&chars("two")), Ok(None));
    assert_eq!(loader.feed_line(&chars("")), Ok(Some(entry(15, 1000, 2000, "one\ntwo"))));
    assert_eq!(
        loader.feed_line(&chars("")),
        Err(FormatError::InvalidIndex { line: String::new() })
    );
    assert_eq!(loader.feed_line(&chars("16")), Ok(None));
    assert_eq!(
        loader.feed_line(&chars("17")),
        Err(FormatError::InvalidTimeRange { line: "17".to_string() })
    );
    assert_eq!(loader.feed_line(&chars("00:00:03,000 --> 00:00:04,000")), Ok(None));
    assert_eq!(loader.feed_line(&chars("")), Ok(Some(entry(16, 3000, 4000, ""))));
}

#[test]
fn decoding_written_entries_gives_them_back() {
    let items = vec![
        entry(1, 0, 1000, "A"),
        entry(2, 1000, 2000, "B and more"),
        entry(4294967295, 3723004, u64::MAX, "- Привет!"),
        entry(0, 360000000, 0, "x"),
    ];
    let text = write_subtitles(items.clone());
    assert_eq!(load_subtitles(&text), Ok(items));
}

#[test]
fn decoding_written_entries_keeps_line_breaks_in_text() {
    let items = vec![entry(1, 0, 1000, "A\nB"), entry(2, 1000, 2000, "C")];
    let text = write_subtitles(items.clone());
    assert_eq!(load_subtitles(&text), Ok(items));
}

#[test]
fn format_error_messages_hold_the_characters_at_fault() {
    assert_eq!(
        FormatError::InvalidIndex { line: "x1".to_string() }.message(),
        "invalid index: x1"
    );
    assert_eq!(
        FormatError::InvalidTimeRange { line: "a -> b".to_string() }.message(),
        "invalid time range: a -> b"
    );
    assert_eq!(
        FormatError::InvalidDuration { value: "00:00".to_string() }.message(),
        "invalid duration: 00:00"
    );
}

#[test]
fn numerals_are_digits_with_an_optional_plus() {
    assert_eq!(parse_u64(&chars("0")), Some(0));
    assert_eq!(parse_u64(&chars("007")), Some(7));
    assert_eq!(parse_u64(&chars("+42")), Some(42));
    assert_eq!(parse_u64(&chars("18446744073709551615")), Some(u64::MAX));
    assert_eq!(parse_u64(&chars("18446744073709551616")), None);
    assert_eq!(parse_u64(&chars("184467440737095516150")), None);
    assert_eq!(parse_u64(&chars("")), None);
    assert_eq!(parse_u64(&chars("+")), None);
    assert_eq!(parse_u64(&chars("++1")), None);
    assert_eq!(parse_u64(&chars("-1")), None);
    assert_eq!(parse_u64(&chars("1 ")), None);
    assert_eq!(parse_u64(&chars("1_000")), None);
    assert_eq!(parse_u64(&chars("٣")), None);
    assert_eq!(parse_u32(&chars("4294967295")), Some(u32::MAX));
    assert_eq!(parse_u32(&chars("4294967296")), None);
    assert_eq!(parse_u32(&chars("+0")), Some(0));
    assert_eq!(parse_u32(&chars("12a")), None);
}

#[test]
fn push_padded_writes_at_least_the_width() {
    let mut out = String::from("n=");
    push_padded(&mut out, 5, 3);
    push_padded(&mut out, 1234, 3);
    push_padded(&mut out, 0, 1);
    push_padded(&mut out, 0, 0);
    push_padded(&mut out, u64::MAX, 2);
    assert_eq!(out, "n=00512340018446744073709551615");
}

#[test]
fn trim_cuts_white_space_and_byte_order_marks() {
    assert_eq!(trim(&chars("  a b \t\r\n")), &chars("a b")[..]);
    assert_eq!(trim(&chars("\u{feff}\u{feff}x\u{feff}")), &chars("x")[..]);
    assert_eq!(trim(&chars(" \u{2003}\u{85} ")), &chars("")[..]);
    assert_eq!(trim(&chars("")), &chars("")[..]);
    assert_eq!(trim(&chars("a\u{feff}b")), &chars("a\u{feff}b")[..]);
    assert_eq!(trim(&chars("\u{200b}a")), &chars("\u{200b}a")[..]);
}

#[test]
fn blank_characters_are_white_space_and_the_byte_order_mark() {
    for code in 0u32..0x11000 {
        if let Some(c) = char::from_u32(code) {
            assert_eq!(is_blank_char(c), c.is_whitespace() || c == '\u{feff}');
        }
    }
}

#[test]
fn find_char_gives_the_first_position_or_the_length() {
    let text = chars("a:b:c");
    assert_eq!(find_char(&text, ':', 0), 1);
    assert_eq!(find_char(&text, ':', 1), 1);
    assert_eq!(find_char(&text, ':', 2), 3);
    assert_eq!(find_char(&text, ':', 4), 5);
    assert_eq!(find_char(&text, ':', 5), 5);
    assert_eq!(find_char(&text, 'x', 0), 5);
}

#[test]
fn split_gives_the_pieces_between_separators() {
    let text = chars("a:bc::d:");
    let parts: Vec<Vec<char>> = split_chars(&text, ':').iter().map(|p| p.to_vec()).collect();
    assert_eq!(parts, vec![chars("a"), chars("bc"), chars(""), chars("d"), chars("")]);
    let whole = chars("abc");
    assert_eq!(split_chars(&whole, ':'), vec![&whole[..]]);
    let nothing = chars("");
    assert_eq!(split_chars(&nothing, ':'), vec![&nothing[..]]);
}

#[test]
fn find_arrow_gives_the_first_arrow() {
    assert_eq!(find_arrow(&chars("a --> b --> c")), Some(1));
    assert_eq!(find_arrow(&chars(" --> ")), Some(0));
    assert_eq!(find_arrow(&chars("a -->")), None);
    assert_eq!(find_arrow(&chars("a -> b")), None);
    assert_eq!(find_arrow(&chars("")), None);
}

#[test]
fn chars_and_strings_convert() {
    assert_eq!(to_chars("aé漢😀"), vec!['a', 'é', '漢', '😀']);
    assert_eq!(to_chars(""), Vec::<char>::new());
    let mut out = String::from("x");
    push_chars(&mut out, &['é', '😀']);
    assert_eq!(out, "xé😀");
}
