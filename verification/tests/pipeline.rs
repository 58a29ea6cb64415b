use subtitle_tools::alignment::{canonize, parse_frame_pair};
use subtitle_tools::operations::{can_offset, perform_offset, perform_sync};
use subtitle_tools::subtitles::{Loader, SubItem, Writer};

const TRACK: &str = "1\n00:00:01,000 --> 00:00:02,000\nGood morning.\n\n2\n00:00:03,000 --> 00:00:04,500\n- Who is there?\n- Me.\n\n3\n00:00:09,000 --> 00:00:10,000\nGoodbye.\n\n";

const REFERENCE: &str = "1\n00:00:11,000 --> 00:00:12,000\na\n\n2\n00:00:15,000 --> 00:00:16,000\nb\n\n3\n00:00:20,000 --> 00:00:21,000\nc\n\n";

fn read_all(text: &str) -> Vec<SubItem> {
    let mut loader = Loader::new(text);
    let mut items = Vec::new();
    while let Some(item) = loader.read_next().unwrap() {
        items.push(item);
    }
    items
}

fn write_all(items: Vec<SubItem>) -> String {
    let mut writer = Writer::new(String::new());
    for item in items {
        writer.write_item(item);
    }
    writer.into_output()
}

#[test]
fn track_is_written_as_it_was_read() {
    assert_eq!(write_all(read_all(TRACK)), TRACK);
}

#[test]
fn track_is_moved_forward() {
    let items = read_all(TRACK);
    assert!(can_offset(&items, 61500));
    let moved = perform_offset(items, 61500);
    assert_eq!(
        write_all(moved),
        "1\n00:01:02,500 --> 00:01:03,500\nGood morning.\n\n2\n00:01:04,500 --> 00:01:06,000\n- Who is there?\n- Me.\n\n3\n00:01:10,500 --> 00:01:11,500\nGoodbye.\n\n"
    );
}

#[test]
fn track_is_moved_backward() {
    let items = read_all(TRACK);
    assert!(can_offset(&items, -3000));
    let moved = perform_offset(items, -3000);
    assert_eq!(
        write_all(moved),
        "2\n00:00:00,000 --> 00:00:01,500\n- Who is there?\n- Me.\n\n3\n00:00:06,000 --> 00:00:07,000\nGoodbye.\n\n"
    );
}

#[test]
fn track_is_synchronized_with_a_reference() {
    let points = canonize(vec![parse_frame_pair("2:2").unwrap()]).unwrap();
    let synced = perform_sync(read_all(TRACK), points, &read_all(REFERENCE)).unwrap();
    assert_eq!(
        write_all(synced),
        "1\n00:00:11,000 --> 00:00:13,000\nGood morning.\n\n2\n00:00:15,000 --> 00:00:18,000\n- Who is there?\n- Me.\n\n3\n00:00:20,000 --> 00:00:21,000\nGoodbye.\n\n"
    );
}
