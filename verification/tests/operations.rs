use subtitle_tools::alignment::FramePair;
use subtitle_tools::command::{handle_command, Command};
use subtitle_tools::operations::{
    can_offset, items_range, perform_offset, perform_sync, rescale_range, SyncError,
};
use subtitle_tools::subtitles::SubItem;

fn item(number: u32, start_tp: u64, end_tp: u64, text: &str) -> SubItem {
    SubItem { number, start_tp, end_tp, text: text.to_string() }
}

fn point(src_frame: u32, reference_frame: u32) -> FramePair {
    FramePair { src_frame, reference_frame }
}

fn numbered(starts: &[u64]) -> Vec<SubItem> {
    let mut items = Vec::new();
    for (i, start) in starts.iter().enumerate() {
        items.push(item(i as u32 + 1, *start, *start + 400, "t"));
    }
    items
}

#[test]
fn offset_forward_moves_every_entry() {
    let items = vec![item(1, 0, 1000, "A"), item(2, 1000, 2500, "B"), item(3, 5000, 5001, "C")];
    let out = perform_offset(items, 1500);
    assert_eq!(
        out,
        vec![item(1, 1500, 2500, "A"), item(2, 2500, 4000, "B"), item(3, 6500, 6501, "C")]
    );
}

#[test]
fn offset_zero_changes_nothing() {
    let items = vec![item(4, 10, 20, "A"), item(9, 30, 40, "B")];
    assert_eq!(perform_offset(items.clone(), 0), items);
}

#[test]
fn offset_backward_drops_entries_that_would_start_before_zero() {
    let items = vec![item(1, 0, 500, "A"), item(2, 1000, 2500, "B"), item(3, 5000, 6000, "C")];
    let out = perform_offset(items, -2000);
    assert_eq!(out, vec![item(3, 3000, 4000, "C")]);
}

#[test]
fn offset_backward_keeps_entry_that_starts_at_the_magnitude() {
    let items = vec![item(1, 1999, 3000, "A"), item(2, 2000, 2000, "B")];
    let out = perform_offset(items, -2000);
    assert_eq!(out, vec![item(2, 0, 0, "B")]);
}

#[test]
fn offset_backward_never_grows_the_track() {
    let items = vec![item(1, 100, 200, "A"), item(2, 300, 400, "B"), item(3, 50, 400, "C")];
    let out = perform_offset(items.clone(), -100);
    assert!(out.len() <= items.len());
    assert_eq!(out, vec![item(1, 0, 100, "A"), item(2, 200, 300, "B")]);
}

#[test]
fn offset_of_empty_track_is_empty() {
    assert_eq!(perform_offset(Vec::new(), -5), Vec::new());
    assert_eq!(perform_offset(Vec::new(), 5), Vec::new());
}

#[test]
fn offset_by_the_smallest_number() {
    let items = vec![item(1, 2147483647, 2147483648, "A"), item(2, 2147483648, 2147483650, "B")];
    let out = perform_offset(items, i32::MIN);
    assert_eq!(out, vec![item(2, 0, 2, "B")]);
}

#[test]
fn can_offset_tells_what_fits() {
    let items = vec![item(1, 10, u64::MAX - 5, "A")];
    assert!(can_offset(&items, 5));
    assert!(!can_offset(&items, 6));
    assert!(can_offset(&items, -10));
    assert!(can_offset(&items, -11));
    let backwards = vec![item(1, 10, 5, "A")];
    assert!(!can_offset(&backwards, -7));
    assert!(can_offset(&backwards, -5));
    assert!(can_offset(&backwards, -11));
    let late = vec![item(1, u64::MAX, 3, "A")];
    assert!(!can_offset(&late, 1));
    assert!(can_offset(&late, 0));
}

#[test]
fn sync_without_points_rescales_the_whole_track() {
    let items = vec![item(1, 0, 1000, "A"), item(2, 1000, 2000, "B")];
    let reference = vec![item(1, 0, 500, "x"), item(2, 500, 1000, "y")];
    let out = perform_sync(items, Vec::new(), &reference);
    assert_eq!(out, Ok(vec![item(1, 0, 500, "A"), item(2, 500, 1000, "B")]));
}

#[test]
fn sync_carries_the_mid_point_to_the_mid_point() {
    let items = vec![item(1, 0, 1000, "A"), item(2, 5000, 6000, "B"), item(3, 10000, 11000, "C")];
    let reference = vec![item(1, 0, 10, "x"), item(2, 20000, 20010, "y")];
    let out = perform_sync(items, Vec::new(), &reference).unwrap();
    assert_eq!(out[1].start_tp, 10000);
    assert_eq!(
        out,
        vec![item(1, 0, 2000, "A"), item(2, 10000, 12000, "B"), item(3, 20000, 22000, "C")]
    );
}

#[test]
fn sync_adds_the_reference_base() {
    let items = vec![item(5, 1000, 1300, "A"), item(6, 2000, 2600, "B"), item(7, 4000, 4100, "C")];
    let reference = vec![item(1, 500, 600, "x"), item(2, 1500, 1600, "y")];
    let out = perform_sync(items, Vec::new(), &reference);
    assert_eq!(
        out,
        Ok(vec![item(5, 500, 600, "A"), item(6, 833, 1033, "B"), item(7, 1500, 1533, "C")])
    );
}

#[test]
fn sync_rounds_down() {
    let items = vec![item(1, 0, 10, "A"), item(2, 1, 8, "B"), item(3, 3, 4, "C")];
    let reference = vec![item(1, 0, 1, "x"), item(2, 2, 3, "y")];
    let out = perform_sync(items, Vec::new(), &reference);
    assert_eq!(out, Ok(vec![item(1, 0, 6, "A"), item(2, 0, 4, "B"), item(3, 2, 2, "C")]));
}

#[test]
fn sync_rescales_each_segment_on_its_own() {
    let items = vec![
        item(1, 0, 100, "A"),
        item(2, 1000, 1100, "B"),
        item(3, 2000, 2100, "C"),
        item(4, 3000, 3100, "D"),
    ];
    let reference = vec![
        item(1, 0, 1, "w"),
        item(2, 2000, 2001, "x"),
        item(3, 3000, 3001, "y"),
        item(4, 4000, 4001, "z"),
    ];
    let out = perform_sync(items, vec![point(2, 2)], &reference);
    assert_eq!(
        out,
        Ok(vec![
            item(1, 0, 200, "A"),
            item(2, 2000, 2200, "B"),
            item(3, 3000, 3100, "C"),
            item(4, 4000, 4100, "D"),
        ])
    );
}

#[test]
fn sync_keeps_lengths_in_a_segment_of_one_entry() {
    let items = vec![item(1, 0, 100, "A"), item(2, 1000, 1100, "B"), item(3, 2000, 2750, "C")];
    let reference = vec![item(1, 0, 1, "x"), item(2, 500, 501, "y"), item(3, 9000, 9001, "z")];
    let out = perform_sync(items, vec![point(2, 2), point(3, 3)], &reference);
    assert_eq!(
        out,
        Ok(vec![item(1, 0, 50, "A"), item(2, 500, 550, "B"), item(3, 9000, 9750, "C")])
    );
}

#[test]
fn sync_with_points_at_both_ends_adds_none() {
    let items = vec![item(1, 0, 1000, "A"), item(2, 1000, 2000, "B")];
    let reference = vec![item(7, 0, 1, "x"), item(8, 3000, 3001, "y"), item(9, 5000, 5001, "z")];
    let out = perform_sync(items, vec![point(1, 7), point(2, 8)], &reference);
    assert_eq!(out, Ok(vec![item(1, 0, 3000, "A"), item(2, 3000, 6000, "B")]));
}

#[test]
fn sync_of_empty_track_is_empty() {
    let reference = vec![item(1, 0, 500, "x")];
    assert_eq!(perform_sync(Vec::new(), vec![point(1, 1)], &reference), Ok(Vec::new()));
}

#[test]
fn sync_with_empty_reference_changes_nothing() {
    let items = vec![item(1, 0, 1000, "A"), item(2, 1000, 2000, "B")];
    assert_eq!(perform_sync(items.clone(), vec![point(9, 9)], &[]), Ok(items));
}

#[test]
fn sync_of_one_entry_without_points_has_no_segment() {
    let items = vec![item(1, 0, 1000, "A")];
    let reference = vec![item(1, 0, 500, "x"), item(2, 500, 1000, "y")];
    assert_eq!(perform_sync(items, Vec::new(), &reference), Ok(Vec::new()));
}

#[test]
fn sync_fails_on_missing_source_frame() {
    let items = numbered(&[0, 1000, 2000]);
    let reference = numbered(&[0, 500, 1000]);
    let out = perform_sync(items, vec![point(7, 2)], &reference);
    assert_eq!(out, Err(SyncError::FrameNotFound { frame: 7 }));
}

#[test]
fn sync_fails_on_missing_reference_frame() {
    let items = numbered(&[0, 1000, 2000]);
    let reference = numbered(&[0, 500, 1000]);
    let out = perform_sync(items, vec![point(2, 9)], &reference);
    assert_eq!(out, Err(SyncError::FrameNotFound { frame: 9 }));
}

#[test]
fn sync_fails_where_the_entry_after_a_point_is_missing() {
    let items = vec![item(1, 0, 10, "A"), item(2, 100, 110, "B"), item(4, 200, 210, "C")];
    let reference = numbered(&[0, 500, 1000]);
    let out = perform_sync(items, vec![point(2, 2)], &reference);
    assert_eq!(out, Err(SyncError::FrameNotFound { frame: 3 }));
}

#[test]
fn sync_fails_behind_the_biggest_index() {
    let items = vec![item(1, 0, 10, "A"), item(u32::MAX, 100, 110, "B"), item(3, 200, 210, "C")];
    let reference = numbered(&[0, 500, 1000]);
    let out = perform_sync(items, vec![point(u32::MAX, 2)], &reference);
    assert_eq!(out, Err(SyncError::FrameNotFound { frame: 4294967296 }));
}

#[test]
fn sync_fails_on_times_that_run_backwards() {
    let reference = numbered(&[0, 500]);
    let ends_early = vec![item(1, 0, 10, "A"), item(2, 100, 50, "B"), item(3, 200, 210, "C")];
    assert_eq!(
        perform_sync(ends_early, Vec::new(), &reference[..]),
        Err(SyncError::TimeOutOfRange { number: 2 })
    );
    let starts_early = vec![item(1, 100, 110, "A"), item(2, 50, 60, "B"), item(3, 200, 210, "C")];
    assert_eq!(
        perform_sync(starts_early, Vec::new(), &reference[..]),
        Err(SyncError::TimeOutOfRange { number: 2 })
    );
    let falls = vec![item(6, 300, 310, "A"), item(7, 200, 210, "B")];
    assert_eq!(
        perform_sync(falls, Vec::new(), &reference[..]),
        Err(SyncError::TimeOutOfRange { number: 6 })
    );
}

#[test]
fn sync_fails_on_times_too_big() {
    let items = vec![item(1, 0, 10, "A"), item(2, 1, 20, "B")];
    let reference = vec![item(1, 0, 1, "x"), item(2, u64::MAX, u64::MAX, "y")];
    assert_eq!(
        perform_sync(items, Vec::new(), &reference),
        Err(SyncError::TimeOutOfRange { number: 1 })
    );
}

#[test]
fn sync_reaches_the_biggest_time() {
    let items = vec![item(1, 0, 0, "A"), item(2, 1, 1, "B")];
    let reference = vec![item(1, 0, 1, "x"), item(2, u64::MAX, u64::MAX, "y")];
    assert_eq!(
        perform_sync(items, Vec::new(), &reference),
        Ok(vec![item(1, 0, 0, "A"), item(2, u64::MAX, u64::MAX, "B")])
    );
}

#[test]
fn items_range_takes_first_occurrences() {
    let items = vec![
        item(1, 0, 1, "A"),
        item(2, 10, 11, "B"),
        item(3, 20, 21, "C"),
        item(2, 30, 31, "D"),
        item(3, 40, 41, "E"),
    ];
    assert_eq!(items_range(&items, 2, 3), Ok(&items[1..3]));
    assert_eq!(items_range(&items, 3, 2), Ok(&items[2..4]));
    assert_eq!(items_range(&items, 3, 3), Ok(&items[2..3]));
    assert_eq!(items_range(&items, 1, 3), Ok(&items[0..3]));
}

#[test]
fn items_range_names_the_missing_frame() {
    let items = vec![item(1, 0, 1, "A"), item(2, 10, 11, "B"), item(3, 20, 21, "C")];
    assert_eq!(items_range(&items, 5, 2), Err(SyncError::FrameNotFound { frame: 5 }));
    assert_eq!(items_range(&items, 2, 6), Err(SyncError::FrameNotFound { frame: 6 }));
    assert_eq!(items_range(&items, 3, 1), Err(SyncError::FrameNotFound { frame: 1 }));
    assert_eq!(items_range(&[], 1, 1), Err(SyncError::FrameNotFound { frame: 1 }));
}

#[test]
fn rescale_range_appends_to_the_result() {
    let src = vec![item(1, 100, 200, "A"), item(2, 300, 500, "B")];
    let reference = vec![item(1, 1000, 1001, "x"), item(2, 1100, 1101, "y")];
    let mut result = vec![item(0, 1, 2, "kept")];
    assert_eq!(rescale_range(&src, &reference, &mut result), Ok(()));
    assert_eq!(
        result,
        vec![item(0, 1, 2, "kept"), item(1, 1000, 1050, "A"), item(2, 1100, 1200, "B")]
    );
}

#[test]
fn rescale_range_leaves_the_result_on_failure() {
    let src = vec![item(1, 100, 200, "A"), item(2, 300, 250, "B")];
    let reference = vec![item(1, 1000, 1001, "x"), item(2, 1100, 1101, "y")];
    let mut result = vec![item(0, 1, 2, "kept")];
    assert_eq!(
        rescale_range(&src, &reference, &mut result),
        Err(SyncError::TimeOutOfRange { number: 2 })
    );
    assert_eq!(result, vec![item(0, 1, 2, "kept")]);
}

#[test]
fn rescale_range_onto_a_reference_of_no_length() {
    let src = vec![item(1, 100, 200, "A"), item(2, 300, 500, "B")];
    let reference = vec![item(1, 1000, 1001, "x")];
    let mut result = Vec::new();
    assert_eq!(rescale_range(&src, &reference, &mut result), Ok(()));
    assert_eq!(result, vec![item(1, 1000, 1000, "A"), item(2, 1000, 1000, "B")]);
}

#[test]
fn sync_error_messages_name_the_index() {
    assert_eq!(SyncError::FrameNotFound { frame: 42 }.message(), "frame not found: 42");
    assert_eq!(
        SyncError::TimeOutOfRange { number: 7 }.message(),
        "time out of range in entry 7"
    );
}

#[test]
fn handle_command_offsets() {
    let items = vec![item(1, 0, 1000, "A"), item(2, 1000, 2000, "B")];
    let out = handle_command(items, Command::Offset { offset_ms: -1000 });
    assert_eq!(out, Ok(vec![item(2, 0, 1000, "B")]));
}

#[test]
fn handle_command_synchronizes() {
    let items = vec![item(1, 0, 1000, "A"), item(2, 1000, 2000, "B")];
    let reference = vec![item(1, 0, 500, "x"), item(2, 500, 1000, "y")];
    let out = handle_command(
        items.clone(),
        Command::SyncWith { alignment_points: Vec::new(), reference_items: reference.clone() },
    );
    assert_eq!(out, Ok(vec![item(1, 0, 500, "A"), item(2, 500, 1000, "B")]));
    let failed = handle_command(
        items,
        Command::SyncWith { alignment_points: vec![point(1, 3)], reference_items: reference },
    );
    assert_eq!(failed, Err(SyncError::FrameNotFound { frame: 3 }));
}

#[test]
fn sync_keeps_every_entry_once_and_in_order() {
    let items = vec![
        item(10, 0, 100, "A"),
        item(11, 700, 900, "B"),
        item(12, 1500, 1600, "C"),
        item(13, 2000, 2100, "D"),
        item(14, 2600, 2700, "E"),
    ];
    let reference = vec![
        item(1, 50, 60, "v"),
        item(2, 1000, 1010, "w"),
        item(3, 4000, 4010, "x"),
        item(4, 4500, 4510, "y"),
        item(5, 9000, 9010, "z"),
    ];
    let out = perform_sync(items.clone(), vec![point(12, 3), point(13, 4)], &reference).unwrap();
    assert_eq!(out.len(), items.len());
    for i in 0..items.len() {
        assert_eq!(out[i].number, items[i].number);
        assert_eq!(out[i].text, items[i].text);
    }
}

#[test]
fn sync_lands_each_alignment_point_on_its_reference_start() {
    let items = vec![
        item(10, 0, 100, "A"),
        item(11, 700, 900, "B"),
        item(12, 1500, 1600, "C"),
        item(13, 1800, 1900, "D"),
        item(14, 2600, 2700, "E"),
    ];
    let reference = vec![
        item(1, 50, 60, "v"),
        item(2, 1000, 1010, "w"),
        item(3, 4000, 4010, "x"),
        item(4, 4500, 4510, "y"),
        item(5, 9000, 9010, "z"),
    ];
    let out = perform_sync(items, vec![point(12, 3)], &reference).unwrap();
    assert_eq!(out[0].start_tp, 50);
    assert_eq!(out[2].start_tp, 4000);
    assert_eq!(out[4].start_tp, 9000);
    assert_eq!(
        out,
        vec![
            item(10, 50, 313, "A"),
            item(11, 1893, 2419, "B"),
            item(12, 4000, 4263, "C"),
            item(13, 4500, 5062, "D"),
            item(14, 9000, 9562, "E"),
        ]
    );
}
