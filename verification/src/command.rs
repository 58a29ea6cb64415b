use vstd::prelude::*;
use crate::alignment::FramePair;
use crate::operations::{
    offset_entries, offset_in_range, perform_offset, perform_sync, sync_track, SyncError,
};
use crate::subtitles::{views, Entry, SubItem};

verus! {

/// What is to be done with a track.
pub enum Command {
    /// Move all entries by a number of milliseconds.
    Offset { offset_ms: i32 },
    /// Re-time the track against a reference track.
    SyncWith { alignment_points: Vec<FramePair>, reference_items: Vec<SubItem> },
}

/// The track that a command makes of a track.
pub open spec fn command_result(items: Seq<Entry>, command: Command) -> Result<
    Seq<Entry>,
    SyncError,
> {
    match command {
        Command::Offset { offset_ms } => Ok(offset_entries(items, offset_ms as int)),
        Command::SyncWith { alignment_points, reference_items } => sync_track(
            items,
            alignment_points@,
            views(reference_items@),
        ),
    }
}

/// Carries out a command on a track.
pub fn handle_command(items: Vec<SubItem>, command: Command) -> (res: Result<
    Vec<SubItem>,
    SyncError,
>)
    requires
        command matches Command::Offset { offset_ms } ==> offset_in_range(
            views(items@),
            offset_ms as int,
        ),
    ensures
        match command_result(views(items@), command) {
            Ok(entries) => res matches Ok(out) && views(out@) == entries,
            Err(e) => res == Err::<Vec<SubItem>, SyncError>(e),
        },
{
    match command {
        Command::Offset { offset_ms } => Ok(perform_offset(items, offset_ms)),
        Command::SyncWith { alignment_points, reference_items } => perform_sync(
            items,
            alignment_points,
            reference_items.as_slice(),
        ),
    }
}

} // verus!
