use vstd::prelude::*;
use vstd::string::StringExecFns;
use crate::alignment::FramePair;
use crate::subtitles::{views, Entry, SubItem};
use crate::text::{decimal, padded, push_padded};

verus! {

/// An entry moved by `offset` milliseconds; index and text stay.
pub open spec fn shifted(entry: Entry, offset: int) -> Entry {
    Entry {
        number: entry.number,
        start: (entry.start + offset) as nat,
        end: (entry.end + offset) as nat,
        text: entry.text,
    }
}

/// Whether an entry stays in the track when moved by `offset`:
/// it does, unless its start would become negative.
pub open spec fn survives(entry: Entry, offset: int) -> bool {
    entry.start + offset >= 0
}

/// The track moved by `offset` milliseconds: the entries that survive, each shifted,
/// in their order.
pub open spec fn offset_entries(items: Seq<Entry>, offset: int) -> Seq<Entry> {
    items.filter(|e: Entry| survives(e, offset)).map_values(|e: Entry| shifted(e, offset))
}

/// Whether the times of one surviving entry, moved by `offset`, are non-negative
/// and fit in 64 bits.
pub open spec fn shift_in_range(entry: Entry, offset: int) -> bool {
    survives(entry, offset) ==> entry.start + offset <= u64::MAX && 0 <= entry.end + offset
        <= u64::MAX
}

/// Whether every surviving entry of the track can be moved by `offset`.
pub open spec fn offset_in_range(items: Seq<Entry>, offset: int) -> bool {
    forall|i: int| 0 <= i < items.len() ==> shift_in_range(#[trigger] items[i], offset)
}

proof fn lemma_offset_entries_push(items: Seq<Entry>, last: Entry, offset: int)
    ensures
        offset_entries(items.push(last), offset) == if survives(last, offset) {
            offset_entries(items, offset).push(shifted(last, offset))
        } else {
            offset_entries(items, offset)
        },
{
    reveal(Seq::filter);
    let keep = |e: Entry| survives(e, offset);
    let shift = |e: Entry| shifted(e, offset);
    assert(items.push(last).drop_last() == items);
    if survives(last, offset) {
        assert(items.push(last).filter(keep) == items.filter(keep).push(last));
        assert(items.filter(keep).push(last).map_values(shift) == items.filter(keep).map_values(
            shift,
        ).push(shifted(last, offset)));
    } else {
        assert(items.push(last).filter(keep) == items.filter(keep));
    }
}

/// A track moved forward keeps every entry, and each start and end grows by the offset:
/// for every offset that is not negative and every track, whatever its times.
pub proof fn lemma_offset_forward(items: Seq<Entry>, offset: int)
    requires
        offset >= 0,
    ensures
        offset_entries(items, offset).len() == items.len(),
        forall|i: int|
            0 <= i < items.len() ==> {
                let moved = #[trigger] offset_entries(items, offset)[i];
                &&& moved == shifted(items[i], offset)
                &&& moved.start == items[i].start + offset
                &&& moved.end == items[i].end + offset
            },
    decreases items.len(),
{
    if items.len() == 0 {
        assert(items.filter(|e: Entry| survives(e, offset)).len() <= 0) by {
            items.lemma_filter_len(|e: Entry| survives(e, offset));
        }
    } else {
        lemma_offset_forward(items.drop_last(), offset);
        lemma_offset_entries_push(items.drop_last(), items.last(), offset);
        assert(items.drop_last().push(items.last()) == items);
    }
}

/// Whether `moved` is the entry at position `i` of the track, shifted, and that entry
/// survives the move.
pub open spec fn is_shift_of(moved: Entry, items: Seq<Entry>, offset: int, i: int) -> bool {
    &&& 0 <= i < items.len()
    &&& items[i].start + offset >= 0
    &&& moved == shifted(items[i], offset)
}

/// Whether `moved` is a surviving entry of the track, shifted.
pub open spec fn has_origin(moved: Entry, items: Seq<Entry>, offset: int) -> bool {
    exists|i: int| #[trigger] is_shift_of(moved, items, offset, i)
}

/// A moved track is never longer than the track; every entry of it is a shifted entry
/// of the track whose start did not become negative; and an entry is left out only if
/// its start would have become negative.
pub proof fn lemma_offset_backward(items: Seq<Entry>, offset: int)
    ensures
        offset_entries(items, offset).len() <= items.len(),
        forall|j: int|
            0 <= j < offset_entries(items, offset).len() ==> has_origin(
                #[trigger] offset_entries(items, offset)[j],
                items,
                offset,
            ),
        forall|i: int|
            0 <= i < items.len() && (#[trigger] items[i]).start + offset >= 0
                ==> offset_entries(items, offset).contains(shifted(items[i], offset)),
    decreases items.len(),
{
    let out = offset_entries(items, offset);
    if items.len() == 0 {
        assert(items.filter(|e: Entry| survives(e, offset)).len() <= 0) by {
            items.lemma_filter_len(|e: Entry| survives(e, offset));
        }
    } else {
        let front = items.drop_last();
        let inner = offset_entries(front, offset);
        lemma_offset_backward(front, offset);
        lemma_offset_entries_push(front, items.last(), offset);
        assert(front.push(items.last()) == items);
        assert forall|j: int| 0 <= j < out.len() implies has_origin(
            #[trigger] out[j],
            items,
            offset,
        ) by {
            if j < inner.len() {
                assert(has_origin(inner[j], front, offset));
                let i = choose|i: int| #[trigger] is_shift_of(inner[j], front, offset, i);
                assert(front[i] == items[i]);
                assert(is_shift_of(out[j], items, offset, i));
            } else {
                assert(is_shift_of(out[j], items, offset, items.len() - 1));
            }
        }
        assert forall|i: int|
            0 <= i < items.len() && (#[trigger] items[i]).start + offset >= 0 implies out.contains(
            shifted(items[i], offset),
        ) by {
            if i < front.len() {
                assert(front[i] == items[i]);
                assert(inner.contains(shifted(front[i], offset)));
                let j = choose|j: int|
                    0 <= j < inner.len() && inner[j] == shifted(front[i], offset);
                assert(out[j] == shifted(items[i], offset));
            } else {
                assert(out[out.len() - 1] == shifted(items[i], offset));
            }
        }
    }
}

/// Tells whether `perform_offset` can move the track by `offset_ms`.
pub fn can_offset(items: &[SubItem], offset_ms: i32) -> (fits: bool)
    ensures
        fits == offset_in_range(views(items@), offset_ms as int),
{
    let mut i: usize = 0;
    while i < items.len()
        invariant
            i <= items@.len(),
            forall|k: int|
                0 <= k < i ==> shift_in_range(#[trigger] views(items@)[k], offset_ms as int),
        decreases items@.len() - i,
    {
        let item = &items[i];
        assert(views(items@)[i as int] == item@);
        let fits = if offset_ms >= 0 {
            let offset: u64 = offset_ms as u64;
            item.start_tp <= u64::MAX - offset && item.end_tp <= u64::MAX - offset
        } else {
            let magnitude: u64 = (-(offset_ms as i64)) as u64;
            item.start_tp < magnitude || item.end_tp >= magnitude
        };
        if !fits {
            return false;
        }
        i += 1;
    }
    true
}

/// Moves every entry of the track by `offset_ms` milliseconds. An entry whose start
/// would become negative is left out; the others keep their order.
pub fn perform_offset(items: Vec<SubItem>, offset_ms: i32) -> (out: Vec<SubItem>)
    requires
        offset_in_range(views(items@), offset_ms as int),
    ensures
        views(out@) == offset_entries(views(items@), offset_ms as int),
        out@.len() <= items@.len(),
        offset_ms >= 0 ==> out@.len() == items@.len(),
        offset_ms >= 0 ==> forall|i: int|
            0 <= i < items@.len() ==> {
                let moved = #[trigger] out@[i];
                &&& moved.number == items@[i].number
                &&& moved.start_tp == items@[i].start_tp + offset_ms
                &&& moved.end_tp == items@[i].end_tp + offset_ms
                &&& moved.text@ == items@[i].text@
            },
{
    let ghost old_items = items@;
    let mut items = items;
    let ghost before = views(items@);
    if offset_ms >= 0 {
        let offset: u64 = offset_ms as u64;
        let mut i: usize = 0;
        while i < items.len()
            invariant
                i <= items@.len(),
                items@.len() == before.len(),
                offset == offset_ms,
                offset_in_range(before, offset_ms as int),
                views(items@.take(i as int)) == offset_entries(
                    before.take(i as int),
                    offset_ms as int,
                ),
                views(items@.skip(i as int)) == before.skip(i as int),
            decreases items@.len() - i,
        {
            let ghost prev = items@;
            assert(views(prev.skip(i as int))[0] == prev[i as int]@);
            assert(before.skip(i as int)[0] == before[i as int]);
            assert(shift_in_range(before[i as int], offset_ms as int));
            let item = &mut items[i];
            item.start_tp += offset;
            item.end_tp += offset;
            proof {
                lemma_offset_entries_push(
                    before.take(i as int),
                    before[i as int],
                    offset_ms as int,
                );
                assert(before.take(i + 1) == before.take(i as int).push(before[i as int]));
                assert(items@.take(i + 1) == prev.take(i as int).push(items@[i as int]));
                assert(views(items@.take(i + 1)) == views(prev.take(i as int)).push(
                    items@[i as int]@,
                ));
                assert(items@.skip(i + 1) == prev.skip(i + 1));
                assert(views(prev.skip(i + 1)) == views(prev.skip(i as int)).skip(1));
                assert(before.skip(i + 1) == before.skip(i as int).skip(1));
            }
            i += 1;
        }
        assert(items@.take(i as int) == items@);
        assert(before.take(i as int) == before);
        proof {
            lemma_offset_forward(before, offset_ms as int);
            assert forall|k: int| 0 <= k < items@.len() implies (#[trigger] items@[k])@ == shifted(
                before[k],
                offset_ms as int,
            ) by {
                assert(views(items@)[k] == items@[k]@);
            }
            assert forall|k: int| 0 <= k < items@.len() implies before[k] == old_items[k]@ by {}
        }
        items
    } else {
        let magnitude: u64 = (-(offset_ms as i64)) as u64;
        let mut new_items: Vec<SubItem> = Vec::with_capacity(items.len());
        let mut i: usize = 0;
        while i < items.len()
            invariant
                i <= items@.len(),
                before == views(items@),
                magnitude == -offset_ms,
                offset_in_range(before, offset_ms as int),
                views(new_items@) == offset_entries(before.take(i as int), offset_ms as int),
                new_items@.len() <= i,
            decreases items@.len() - i,
        {
            let item = &items[i];
            assert(before[i as int] == item@);
            assert(shift_in_range(before[i as int], offset_ms as int));
            proof {
                lemma_offset_entries_push(
                    before.take(i as int),
                    before[i as int],
                    offset_ms as int,
                );
                assert(before.take(i + 1) == before.take(i as int).push(before[i as int]));
            }
            if item.start_tp >= magnitude {
                let moved = SubItem {
                    number: item.number,
                    start_tp: item.start_tp - magnitude,
                    end_tp: item.end_tp - magnitude,
                    text: item.text.clone(),
                };
                let ghost prev = new_items@;
                new_items.push(moved);
                assert(views(new_items@) == views(prev).push(moved@));
            }
            i += 1;
        }
        assert(before.take(i as int) == before);
        new_items
    }
}

/// Why a track could not be synchronized.
#[derive(Debug, Clone, Copy, PartialEq, Eq, Structural)]
pub enum SyncError {
    /// A segment is bounded by this index, and no entry that could bound it has it.
    FrameNotFound { frame: u64 },
    /// The entry with this index has times that cannot be rescaled within its segment:
    /// times that run backwards, or a result that does not fit in 64 bits.
    TimeOutOfRange { number: u32 },
}

impl SyncError {
    /// The description of the error, with the index at fault.
    pub open spec fn spec_message(self) -> Seq<char> {
        match self {
            SyncError::FrameNotFound { frame } => "frame not found: "@ + decimal(frame as nat),
            SyncError::TimeOutOfRange { number } => "time out of range in entry "@ + decimal(
                number as nat,
            ),
        }
    }

    /// The description of the error, with the index at fault.
    pub fn message(&self) -> (out: String)
        ensures
            out@ == self.spec_message(),
    {
        match self {
            SyncError::FrameNotFound { frame } => {
                let mut out = String::from_str("frame not found: ");
                push_padded(&mut out, *frame, 1);
                assert(padded(*frame as nat, 1) == decimal(*frame as nat));
                out
            },
            SyncError::TimeOutOfRange { number } => {
                let mut out = String::from_str("time out of range in entry ");
                push_padded(&mut out, *number as u64, 1);
                assert(padded(*number as nat, 1) == decimal(*number as nat));
                out
            },
        }
    }
}

/// Whether `at` is the first position from `from` on whose entry has index `frame`.
pub open spec fn is_first_position(items: Seq<Entry>, from: int, frame: int, at: int) -> bool {
    &&& 0 <= from <= at < items.len()
    &&& items[at].number == frame
    &&& forall|j: int| from <= j < at ==> (#[trigger] items[j]).number != frame
}

/// Whether an entry at position `from` or later has index `frame`.
pub open spec fn occurs_from(items: Seq<Entry>, from: int, frame: int) -> bool {
    exists|at: int| is_first_position(items, from, frame, at)
}

/// The first position from `from` on whose entry has index `frame`.
pub open spec fn first_position(items: Seq<Entry>, from: int, frame: int) -> int
    recommends
        occurs_from(items, from, frame),
{
    choose|at: int| is_first_position(items, from, frame, at)
}

/// The positions of the first and the last entry of the segment that runs from index
/// `start` to index `finish`: the first entry with index `start`, and the first entry
/// with index `finish` at or after it. The error names the index that was not found.
pub open spec fn frame_range(items: Seq<Entry>, start: int, finish: int) -> Result<
    (int, int),
    SyncError,
> {
    if !occurs_from(items, 0, start) {
        Err(SyncError::FrameNotFound { frame: start as u64 })
    } else {
        let first = first_position(items, 0, start);
        if !occurs_from(items, first, finish) {
            Err(SyncError::FrameNotFound { frame: finish as u64 })
        } else {
            Ok((first, first_position(items, first, finish)))
        }
    }
}

/// Only one position is the first.
pub proof fn lemma_first_position_unique(items: Seq<Entry>, from: int, frame: int, a: int, b: int)
    requires
        is_first_position(items, from, frame, a),
        is_first_position(items, from, frame, b),
    ensures
        a == b,
{
    if a < b {
        assert(items[a].number != frame);
    } else if b < a {
        assert(items[b].number != frame);
    }
}

/// The positions that bound a segment lie in the track, the first not after the last.
pub proof fn lemma_frame_range_bounds(items: Seq<Entry>, start: int, finish: int)
    ensures
        match frame_range(items, start, finish) {
            Ok((first, last)) => 0 <= first <= last < items.len() && items[first].number == start
                && items[last].number == finish,
            Err(_) => true,
        },
{
    if occurs_from(items, 0, start) {
        let first = first_position(items, 0, start);
        assert(is_first_position(items, 0, start, first));
        if occurs_from(items, first, finish) {
            assert(is_first_position(items, first, finish, first_position(items, first, finish)));
        }
    }
}

/// The position of the first entry at or after `from` whose index is `frame`.
pub fn find_frame(items: &[SubItem], from: usize, frame: u64) -> (found: Option<usize>)
    ensures
        match found {
            Some(at) => is_first_position(views(items@), from as int, frame as int, at as int),
            None => !occurs_from(views(items@), from as int, frame as int),
        },
{
    let mut at: usize = from;
    while at < items.len()
        invariant
            from <= at,
            forall|j: int| from <= j < at ==> (#[trigger] views(items@)[j]).number != frame,
        decreases items@.len() - at,
    {
        assert(views(items@)[at as int] == items@[at as int]@);
        if items[at].number as u64 == frame {
            return Some(at);
        }
        at += 1;
    }
    assert forall|k: int| !is_first_position(views(items@), from as int, frame as int, k) by {
        if from <= k < items@.len() {
            assert(views(items@)[k].number != frame);
        }
    }
    None
}

/// The entries of a subrange are the subrange of the entries.
pub proof fn lemma_views_subrange(items: Seq<SubItem>, from: int, to: int)
    requires
        0 <= from <= to <= items.len(),
    ensures
        views(items.subrange(from, to)) == views(items).subrange(from, to),
{
    assert(views(items.subrange(from, to)) =~= views(items).subrange(from, to));
}

/// The entries of the track from the first one with index `start_frame_number` to the
/// first one, at or after it, with index `finish_frame_number`, both included.
pub fn items_range(items: &[SubItem], start_frame_number: u64, finish_frame_number: u64) -> (res:
    Result<&[SubItem], SyncError>)
    ensures
        match frame_range(
            views(items@),
            start_frame_number as int,
            finish_frame_number as int,
        ) {
            Ok((first, last)) => res matches Ok(range) && range@ == items@.subrange(
                first,
                last + 1,
            ),
            Err(e) => res == Err::<&[SubItem], SyncError>(e),
        },
{
    let start_idx = match find_frame(items, 0, start_frame_number) {
        Some(at) => at,
        None => {
            return Err(SyncError::FrameNotFound { frame: start_frame_number });
        },
    };
    proof {
        lemma_first_position_unique(
            views(items@),
            0,
            start_frame_number as int,
            start_idx as int,
            first_position(views(items@), 0, start_frame_number as int),
        );
    }
    let end_idx = match find_frame(items, start_idx, finish_frame_number) {
        Some(at) => at,
        None => {
            return Err(SyncError::FrameNotFound { frame: finish_frame_number });
        },
    };
    proof {
        lemma_first_position_unique(
            views(items@),
            start_idx as int,
            finish_frame_number as int,
            end_idx as int,
            first_position(views(items@), start_idx as int, finish_frame_number as int),
        );
    }
    let len = items.len();
    assert(end_idx < len);
    Ok(vstd::slice::slice_subrange(items, start_idx, end_idx + 1))
}

/// The map that carries the times of one segment of the track onto the matching
/// segment of the reference track.
pub struct Scaling {
    /// Start of the segment's first entry.
    pub src_base: int,
    /// Distance from the start of the segment's first entry to that of its last.
    pub src_span: int,
    /// Start of the reference segment's first entry.
    pub ref_base: int,
    /// Distance from the start of the reference segment's first entry to that of its last.
    pub ref_span: int,
}

/// The scaling that carries the segment `src` onto the reference segment `refs`.
pub open spec fn scaling_of(src: Seq<Entry>, refs: Seq<Entry>) -> Scaling
    recommends
        src.len() > 0,
        refs.len() > 0,
{
    Scaling {
        src_base: src.first().start as int,
        src_span: src.last().start - src.first().start,
        ref_base: refs.first().start as int,
        ref_span: refs.last().start - refs.first().start,
    }
}

/// A length of time stretched by the ratio of the reference span to the source span,
/// rounded down. A segment whose source span is zero keeps its lengths.
pub open spec fn scaled(length: int, by: Scaling) -> int {
    if by.src_span == 0 {
        length
    } else {
        length * by.ref_span / by.src_span
    }
}

/// The start of an entry after rescaling.
pub open spec fn rescaled_start(entry: Entry, by: Scaling) -> int {
    by.ref_base + scaled(entry.start - by.src_base, by)
}

/// The end of an entry after rescaling: its new start plus its stretched duration.
pub open spec fn rescaled_end(entry: Entry, by: Scaling) -> int {
    rescaled_start(entry, by) + scaled(entry.end - entry.start, by)
}

/// Whether an entry can be rescaled: no span and no length is negative, and the
/// new times fit in 64 bits.
pub open spec fn rescalable(entry: Entry, by: Scaling) -> bool {
    &&& by.src_span >= 0
    &&& by.ref_span >= 0
    &&& entry.start >= by.src_base
    &&& entry.end >= entry.start
    &&& rescaled_start(entry, by) <= u64::MAX
    &&& rescaled_end(entry, by) <= u64::MAX
}

/// An entry with its times rescaled; index and text stay.
pub open spec fn rescaled(entry: Entry, by: Scaling) -> Entry {
    Entry {
        number: entry.number,
        start: rescaled_start(entry, by) as nat,
        end: rescaled_end(entry, by) as nat,
        text: entry.text,
    }
}

/// Whether every entry of the segment can be rescaled.
pub open spec fn all_rescalable(src: Seq<Entry>, by: Scaling) -> bool {
    forall|k: int| 0 <= k < src.len() ==> rescalable(#[trigger] src[k], by)
}

/// Whether `at` is the position of the first entry of the segment that cannot be rescaled.
pub open spec fn is_first_unscalable(src: Seq<Entry>, by: Scaling, at: int) -> bool {
    &&& 0 <= at < src.len()
    &&& !rescalable(src[at], by)
    &&& forall|j: int| 0 <= j < at ==> rescalable(#[trigger] src[j], by)
}

/// The segment `src` rescaled onto the reference segment `refs`, or the index of its
/// first entry that cannot be rescaled.
pub open spec fn rescale_segment(src: Seq<Entry>, refs: Seq<Entry>) -> Result<
    Seq<Entry>,
    SyncError,
>
    recommends
        src.len() > 0,
        refs.len() > 0,
{
    let by = scaling_of(src, refs);
    if all_rescalable(src, by) {
        Ok(src.map_values(|e: Entry| rescaled(e, by)))
    } else {
        let at = choose|at: int| is_first_unscalable(src, by, at);
        Err(SyncError::TimeOutOfRange { number: src[at].number })
    }
}

proof fn lemma_first_unscalable(src: Seq<Entry>, by: Scaling, at: int)
    requires
        is_first_unscalable(src, by, at),
    ensures
        !all_rescalable(src, by),
        (choose|k: int| is_first_unscalable(src, by, k)) == at,
{
    let k = choose|k: int| is_first_unscalable(src, by, k);
    if k < at {
        assert(rescalable(src[k], by));
    } else if at < k {
        assert(rescalable(src[at], by));
    }
}

proof fn lemma_scaled_bounds(length: int, by: Scaling)
    requires
        length >= 0,
        by.src_span >= 0,
        by.ref_span >= 0,
    ensures
        scaled(length, by) >= 0,
        length <= u64::MAX && by.ref_span <= u64::MAX ==> length * by.ref_span <= u128::MAX,
{
    if by.src_span != 0 {
        assert(length * by.ref_span >= 0) by (nonlinear_arith)
            requires
                length >= 0,
                by.ref_span >= 0,
        ;
        assert(length * by.ref_span / by.src_span >= 0) by (nonlinear_arith)
            requires
                length * by.ref_span >= 0,
                by.src_span > 0,
        ;
    }
    if length <= u64::MAX && by.ref_span <= u64::MAX {
        assert(length * by.ref_span <= 0xffff_ffff_ffff_ffff * 0xffff_ffff_ffff_ffff)
            by (nonlinear_arith)
            requires
                0 <= length <= 0xffff_ffff_ffff_ffff,
                0 <= by.ref_span <= 0xffff_ffff_ffff_ffff,
        ;
    }
}

/// A length of time stretched by `ref_span / src_span`, if the result fits in 64 bits.
fn scale_length(length: u64, src_span: u64, ref_span: u64) -> (out: Option<u64>)
    ensures
        ({
            let by = Scaling {
                src_base: 0,
                src_span: src_span as int,
                ref_base: 0,
                ref_span: ref_span as int,
            };
            match out {
                Some(value) => value == scaled(length as int, by),
                None => scaled(length as int, by) > u64::MAX,
            }
        }),
{
    if src_span == 0 {
        return Some(length);
    }
    proof {
        lemma_scaled_bounds(
            length as int,
            Scaling {
                src_base: 0,
                src_span: src_span as int,
                ref_base: 0,
                ref_span: ref_span as int,
            },
        );
    }
    let wide: u128 = (length as u128) * (ref_span as u128) / (src_span as u128);
    if wide > u64::MAX as u128 {
        None
    } else {
        Some(wide as u64)
    }
}

/// The times of one entry after rescaling, if it can be rescaled.
fn rescale_times(
    start: u64,
    end: u64,
    src_base: u64,
    src_span: u64,
    ref_base: u64,
    ref_span: u64,
) -> (out: Option<(u64, u64)>)
    ensures
        ({
            let by = Scaling {
                src_base: src_base as int,
                src_span: src_span as int,
                ref_base: ref_base as int,
                ref_span: ref_span as int,
            };
            let entry = Entry {
                number: 0,
                start: start as nat,
                end: end as nat,
                text: Seq::empty(),
            };
            match out {
                Some((new_start, new_end)) => rescalable(entry, by) && new_start == rescaled_start(
                    entry,
                    by,
                ) && new_end == rescaled_end(entry, by),
                None => !rescalable(entry, by),
            }
        }),
{
    let ghost by = Scaling {
        src_base: src_base as int,
        src_span: src_span as int,
        ref_base: ref_base as int,
        ref_span: ref_span as int,
    };
    let ghost flat = Scaling {
        src_base: 0,
        src_span: src_span as int,
        ref_base: 0,
        ref_span: ref_span as int,
    };
    if start < src_base || end < start {
        return None;
    }
    proof {
        lemma_scaled_bounds(start - src_base, by);
        lemma_scaled_bounds(end - start, by);
        assert(scaled(start - src_base, by) == scaled(start - src_base, flat));
        assert(scaled(end - start, by) == scaled(end - start, flat));
    }
    let from_start = match scale_length(start - src_base, src_span, ref_span) {
        Some(value) => value,
        None => {
            return None;
        },
    };
    let new_start = match ref_base.checked_add(from_start) {
        Some(value) => value,
        None => {
            return None;
        },
    };
    let new_duration = match scale_length(end - start, src_span, ref_span) {
        Some(value) => value,
        None => {
            return None;
        },
    };
    match new_start.checked_add(new_duration) {
        Some(new_end) => Some((new_start, new_end)),
        None => None,
    }
}

/// Rescales the segment `src_items` onto the reference segment `ref_items` and appends
/// the rescaled entries to `result`. Where an entry cannot be rescaled, `result` stays
/// as it was.
pub fn rescale_range(
    src_items: &[SubItem],
    ref_items: &[SubItem],
    result: &mut Vec<SubItem>,
) -> (res: Result<(), SyncError>)
    requires
        src_items@.len() > 0,
        ref_items@.len() > 0,
    ensures
        match rescale_segment(views(src_items@), views(ref_items@)) {
            Ok(segment) => res is Ok && views(final(result)@) == views(old(result)@) + segment,
            Err(e) => res == Err::<(), SyncError>(e) && final(result)@ == old(result)@,
        },
{
    let ghost src = views(src_items@);
    let ghost refs = views(ref_items@);
    let ghost by = scaling_of(src, refs);
    let src_start = src_items[0].start_tp;
    let ref_start = ref_items[0].start_tp;
    let src_last = src_items[src_items.len() - 1].start_tp;
    let ref_last = ref_items[ref_items.len() - 1].start_tp;
    assert(src.first() == src_items@[0]@);
    assert(src.last() == src_items@[src_items@.len() - 1]@);
    assert(refs.first() == ref_items@[0]@);
    assert(refs.last() == ref_items@[ref_items@.len() - 1]@);
    if src_last < src_start || ref_last < ref_start {
        proof {
            lemma_first_unscalable(src, by, 0);
        }
        return Err(SyncError::TimeOutOfRange { number: src_items[0].number });
    }
    let src_span = src_last - src_start;
    let ref_span = ref_last - ref_start;
    let mut segment: Vec<SubItem> = Vec::with_capacity(src_items.len());
    let mut k: usize = 0;
    while k < src_items.len()
        invariant
            k <= src_items@.len(),
            src == views(src_items@),
            by == scaling_of(views(src_items@), views(ref_items@)),
            result@ == old(result)@,
            by == (Scaling {
                src_base: src_start as int,
                src_span: src_span as int,
                ref_base: ref_start as int,
                ref_span: ref_span as int,
            }),
            forall|j: int| 0 <= j < k ==> rescalable(#[trigger] src[j], by),
            views(segment@) == src.take(k as int).map_values(|e: Entry| rescaled(e, by)),
        decreases src_items@.len() - k,
    {
        let item = &src_items[k];
        assert(src[k as int] == item@);
        match rescale_times(item.start_tp, item.end_tp, src_start, src_span, ref_start, ref_span) {
            Some((new_start, new_end)) => {
                let moved = SubItem {
                    number: item.number,
                    start_tp: new_start,
                    end_tp: new_end,
                    text: item.text.clone(),
                };
                let ghost prev = segment@;
                segment.push(moved);
                assert(rescalable(src[k as int], by));
                assert(moved@ == rescaled(src[k as int], by));
                assert(views(segment@) == views(prev).push(moved@));
                assert(src.take(k + 1) == src.take(k as int).push(src[k as int]));
                assert(src.take(k + 1).map_values(|e: Entry| rescaled(e, by)) == src.take(
                    k as int,
                ).map_values(|e: Entry| rescaled(e, by)).push(rescaled(src[k as int], by)));
            },
            None => {
                proof {
                    assert(!rescalable(src[k as int], by));
                    lemma_first_unscalable(src, by, k as int);
                }
                return Err(SyncError::TimeOutOfRange { number: item.number });
            },
        }
        k += 1;
    }
    assert(src.take(k as int) == src);
    let ghost before = result@;
    let ghost added = segment@;
    result.append(&mut segment);
    assert(views(before + added) == views(before) + views(added));
    Ok(())
}

/// The alignment points that bound the segments: the given points, with a point that
/// ties the first entry of the track to the first of the reference track put in front
/// unless the given points start at the first entry, and a point that ties the last
/// entries together put behind unless the points then end at the last entry.
pub open spec fn canonical_points(
    items: Seq<Entry>,
    points: Seq<FramePair>,
    refs: Seq<Entry>,
) -> Seq<FramePair>
    recommends
        items.len() > 0,
        refs.len() > 0,
{
    let first = FramePair {
        src_frame: items.first().number,
        reference_frame: refs.first().number,
    };
    let last = FramePair { src_frame: items.last().number, reference_frame: refs.last().number };
    let headed = if points.len() == 0 || points[0].src_frame != first.src_frame {
        seq![first] + points
    } else {
        points
    };
    if headed.last().src_frame != last.src_frame {
        headed.push(last)
    } else {
        headed
    }
}

/// How far the lower bound of segment `k` lies behind its alignment point: every
/// segment but the first starts one index after the point, which the segment before
/// it has covered.
pub open spec fn segment_skip(k: int) -> int {
    if k == 0 {
        0
    } else {
        1
    }
}

/// The rescaled entries of the segment between the points `from` and `to`, whose
/// lower bound lies `skip` indices behind `from`: first the segment is looked up in
/// the track, then in the reference track, then it is rescaled.
pub open spec fn segment_between(
    items: Seq<Entry>,
    refs: Seq<Entry>,
    from: FramePair,
    to: FramePair,
    skip: int,
) -> Result<Seq<Entry>, SyncError> {
    match frame_range(items, from.src_frame + skip, to.src_frame as int) {
        Err(e) => Err(e),
        Ok((src_first, src_last)) => match frame_range(
            refs,
            from.reference_frame + skip,
            to.reference_frame as int,
        ) {
            Err(e) => Err(e),
            Ok((ref_first, ref_last)) => rescale_segment(
                items.subrange(src_first, src_last + 1),
                refs.subrange(ref_first, ref_last + 1),
            ),
        },
    }
}

/// The rescaled entries of segment `k`, which lies between the points `k` and `k + 1`
/// of `canon`.
pub open spec fn segment_entries(
    items: Seq<Entry>,
    refs: Seq<Entry>,
    canon: Seq<FramePair>,
    k: int,
) -> Result<Seq<Entry>, SyncError>
    recommends
        0 <= k < canon.len() - 1,
{
    segment_between(items, refs, canon[k], canon[k + 1], segment_skip(k))
}

/// The rescaled entries of the first `count` segments, in order, or the error of the
/// first segment among them that fails.
pub open spec fn sync_segments(
    items: Seq<Entry>,
    refs: Seq<Entry>,
    canon: Seq<FramePair>,
    count: nat,
) -> Result<Seq<Entry>, SyncError>
    decreases count,
{
    if count == 0 {
        Ok(Seq::empty())
    } else {
        match sync_segments(items, refs, canon, (count - 1) as nat) {
            Err(e) => Err(e),
            Ok(done) => match segment_entries(items, refs, canon, count - 1) {
                Err(e) => Err(e),
                Ok(segment) => Ok(done + segment),
            },
        }
    }
}

/// The track synchronized with the reference track: all segments between consecutive
/// canonical points, rescaled.
pub open spec fn sync_entries(
    items: Seq<Entry>,
    points: Seq<FramePair>,
    refs: Seq<Entry>,
) -> Result<Seq<Entry>, SyncError>
    recommends
        items.len() > 0,
        refs.len() > 0,
{
    let canon = canonical_points(items, points, refs);
    sync_segments(items, refs, canon, (canon.len() - 1) as nat)
}

/// What synchronization makes of a track: the track itself where it or the reference
/// track is empty, else the track synchronized.
pub open spec fn sync_track(
    items: Seq<Entry>,
    points: Seq<FramePair>,
    refs: Seq<Entry>,
) -> Result<Seq<Entry>, SyncError> {
    if items.len() == 0 || refs.len() == 0 {
        Ok(items)
    } else {
        sync_entries(items, points, refs)
    }
}

/// Once a segment has failed, its error is the result, however many segments follow.
pub proof fn lemma_sync_error_stays(
    items: Seq<Entry>,
    refs: Seq<Entry>,
    canon: Seq<FramePair>,
    failed: nat,
    count: nat,
)
    requires
        sync_segments(items, refs, canon, failed) is Err,
        failed <= count,
    ensures
        sync_segments(items, refs, canon, count) == sync_segments(items, refs, canon, failed),
    decreases count,
{
    if failed < count {
        lemma_sync_error_stays(items, refs, canon, failed, (count - 1) as nat);
    }
}

/// Rescales the segment of the track between two alignment points onto the matching
/// segment of the reference track, and appends the result to `result`. Every segment
/// but the first starts one index behind its point.
fn sync_segment(
    items: &[SubItem],
    reference_items: &[SubItem],
    cur_point: FramePair,
    next_point: FramePair,
    first: bool,
    result: &mut Vec<SubItem>,
) -> (res: Result<(), SyncError>)
    ensures
        match segment_between(
            views(items@),
            views(reference_items@),
            cur_point,
            next_point,
            if first {
                0
            } else {
                1
            },
        ) {
            Ok(segment) => res is Ok && views(final(result)@) == views(old(result)@) + segment,
            Err(e) => res == Err::<(), SyncError>(e),
        },
{
    let skip: u64 = if first {
        0
    } else {
        1
    };
    let src_items = match items_range(
        items,
        cur_point.src_frame as u64 + skip,
        next_point.src_frame as u64,
    ) {
        Ok(range) => range,
        Err(e) => {
            return Err(e);
        },
    };
    let ref_items = match items_range(
        reference_items,
        cur_point.reference_frame as u64 + skip,
        next_point.reference_frame as u64,
    ) {
        Ok(range) => range,
        Err(e) => {
            return Err(e);
        },
    };
    proof {
        let src = frame_range(
            views(items@),
            cur_point.src_frame + skip,
            next_point.src_frame as int,
        )->Ok_0;
        let refs = frame_range(
            views(reference_items@),
            cur_point.reference_frame + skip,
            next_point.reference_frame as int,
        )->Ok_0;
        lemma_frame_range_bounds(
            views(items@),
            cur_point.src_frame + skip,
            next_point.src_frame as int,
        );
        lemma_frame_range_bounds(
            views(reference_items@),
            cur_point.reference_frame + skip,
            next_point.reference_frame as int,
        );
        lemma_views_subrange(items@, src.0, src.1 + 1);
        lemma_views_subrange(reference_items@, refs.0, refs.1 + 1);
    }
    rescale_range(src_items, ref_items, result)
}

/// Re-times the track against a reference track. The alignment points cut both tracks
/// into matching segments, and each segment of the track is rescaled onto its
/// counterpart. A track is returned as it is when it or the reference track is empty.
pub fn perform_sync(
    items: Vec<SubItem>,
    alignment_points: Vec<FramePair>,
    reference_items: &[SubItem],
) -> (res: Result<Vec<SubItem>, SyncError>)
    ensures
        items@.len() == 0 || reference_items@.len() == 0 ==> (res matches Ok(out) && out@
            == items@),
        match sync_track(views(items@), alignment_points@, views(reference_items@)) {
            Ok(entries) => res matches Ok(out) && views(out@) == entries,
            Err(e) => res == Err::<Vec<SubItem>, SyncError>(e),
        },
{
    if items.len() == 0 || reference_items.len() == 0 {
        return Ok(items);
    }
    let ghost src = views(items@);
    let ghost refs = views(reference_items@);
    let mut points = alignment_points;
    let first_item = &items[0];
    let last_item = &items[items.len() - 1];
    let first_reference = &reference_items[0];
    let last_reference = &reference_items[reference_items.len() - 1];
    assert(src.first() == first_item@ && src.last() == last_item@);
    assert(refs.first() == first_reference@ && refs.last() == last_reference@);
    if points.len() == 0 || points[0].src_frame != first_item.number {
        let ghost given = points@;
        points.insert(
            0,
            FramePair { src_frame: first_item.number, reference_frame: first_reference.number },
        );
        assert(points@ == seq![
            FramePair { src_frame: first_item.number, reference_frame: first_reference.number },
        ] + given);
    }
    if points[points.len() - 1].src_frame != last_item.number {
        points.push(
            FramePair { src_frame: last_item.number, reference_frame: last_reference.number },
        );
    }
    assert(points@ == canonical_points(src, alignment_points@, refs));
    let mut result: Vec<SubItem> = Vec::new();
    let mut k: usize = 0;
    assert(views(result@) == Seq::<Entry>::empty());
    while k + 1 < points.len()
        invariant
            k + 1 <= points@.len(),
            items@.len() > 0,
            reference_items@.len() > 0,
            points@ == canonical_points(src, alignment_points@, refs),
            src == views(items@),
            refs == views(reference_items@),
            sync_segments(src, refs, points@, k as nat) == Ok::<Seq<Entry>, SyncError>(
                views(result@),
            ),
        decreases points@.len() - k,
    {
        let cur_point = points[k];
        let next_point = points[k + 1];
        match sync_segment(
            items.as_slice(),
            reference_items,
            cur_point,
            next_point,
            k == 0,
            &mut result,
        ) {
            Ok(()) => {},
            Err(e) => {
                proof {
                    assert(sync_segments(src, refs, points@, (k + 1) as nat) == Err::<
                        Seq<Entry>,
                        SyncError,
                    >(e));
                    lemma_sync_error_stays(
                        src,
                        refs,
                        points@,
                        (k + 1) as nat,
                        (points@.len() - 1) as nat,
                    );
                }
                return Err(e);
            },
        }
        k += 1;
    }
    Ok(result)
}

/// A track whose segment `j` fails is not synchronized.
pub proof fn lemma_failed_segment_fails_sync(
    items: Seq<Entry>,
    refs: Seq<Entry>,
    canon: Seq<FramePair>,
    j: int,
)
    requires
        0 <= j < canon.len() - 1,
        segment_entries(items, refs, canon, j) is Err,
    ensures
        sync_segments(items, refs, canon, (canon.len() - 1) as nat) is Err,
{
    assert(sync_segments(items, refs, canon, (j + 1) as nat) is Err);
    lemma_sync_error_stays(items, refs, canon, (j + 1) as nat, (canon.len() - 1) as nat);
}

/// Whether no entry of the track has index `frame`.
pub open spec fn frame_absent(items: Seq<Entry>, frame: int) -> bool {
    forall|i: int| 0 <= i < items.len() ==> (#[trigger] items[i]).number != frame
}

/// No segment is found that is bounded by an index which the track does not hold.
pub proof fn lemma_frame_range_absent(items: Seq<Entry>, start: int, finish: int)
    requires
        frame_absent(items, start) || frame_absent(items, finish),
    ensures
        frame_range(items, start, finish) is Err,
{
    if occurs_from(items, 0, start) {
        let first = first_position(items, 0, start);
        assert(is_first_position(items, 0, start, first));
        if occurs_from(items, first, finish) {
            assert(is_first_position(items, first, finish, first_position(items, first, finish)));
        }
    }
}

/// Synchronization fails when an alignment point names a source index that no entry
/// of the track has.
pub proof fn lemma_sync_missing_source_frame(
    items: Seq<Entry>,
    points: Seq<FramePair>,
    refs: Seq<Entry>,
    k: int,
)
    requires
        items.len() > 0,
        refs.len() > 0,
        0 <= k < points.len(),
        frame_absent(items, points[k].src_frame as int),
    ensures
        sync_entries(items, points, refs) is Err,
{
    let canon = canonical_points(items, points, refs);
    let at = if points[0].src_frame != items.first().number {
        k + 1
    } else {
        k
    };
    assert(items[0].number != points[k].src_frame);
    assert(items[items.len() - 1].number != points[k].src_frame);
    assert(canon[at] == points[k]);
    assert(1 <= at < canon.len() - 1);
    lemma_frame_range_absent(
        items,
        canon[at - 1].src_frame + segment_skip(at - 1),
        canon[at].src_frame as int,
    );
    lemma_failed_segment_fails_sync(items, refs, canon, at - 1);
}

/// Synchronization fails when an alignment point names a reference index that no
/// entry of the reference track has, provided that the points bound a segment at all.
pub proof fn lemma_sync_missing_reference_frame(
    items: Seq<Entry>,
    points: Seq<FramePair>,
    refs: Seq<Entry>,
    k: int,
)
    requires
        items.len() > 0,
        refs.len() > 0,
        0 <= k < points.len(),
        frame_absent(refs, points[k].reference_frame as int),
        canonical_points(items, points, refs).len() > 1,
    ensures
        sync_entries(items, points, refs) is Err,
{
    let canon = canonical_points(items, points, refs);
    let at = if points[0].src_frame != items.first().number {
        k + 1
    } else {
        k
    };
    assert(canon[at] == points[k]);
    if at == 0 {
        lemma_frame_range_absent(
            refs,
            canon[0].reference_frame + segment_skip(0),
            canon[1].reference_frame as int,
        );
        lemma_failed_segment_fails_sync(items, refs, canon, 0);
    } else {
        lemma_frame_range_absent(
            refs,
            canon[at - 1].reference_frame + segment_skip(at - 1),
            canon[at].reference_frame as int,
        );
        lemma_failed_segment_fails_sync(items, refs, canon, at - 1);
    }
}

/// Without alignment points the whole track is one segment, rescaled onto the whole
/// reference track: every start is carried over by one affine map, rounded down.
/// This holds where the index of the last entry of each track occurs nowhere before
/// it, and the track has more than one entry.
pub proof fn lemma_sync_whole_track(items: Seq<Entry>, refs: Seq<Entry>)
    requires
        items.len() > 1,
        refs.len() > 0,
        is_first_position(items, 0, items.last().number as int, items.len() - 1),
        is_first_position(refs, 0, refs.last().number as int, refs.len() - 1),
    ensures
        sync_entries(items, Seq::empty(), refs) == rescale_segment(items, refs),
        sync_entries(items, Seq::empty(), refs) matches Ok(out) ==> {
            &&& out.len() == items.len()
            &&& forall|i: int|
                0 <= i < items.len() ==> (#[trigger] out[i]).start == refs.first().start + scaled(
                    items[i].start - items.first().start,
                    scaling_of(items, refs),
                )
        },
{
    let canon = canonical_points(items, Seq::empty(), refs);
    let first = FramePair {
        src_frame: items.first().number,
        reference_frame: refs.first().number,
    };
    let last = FramePair { src_frame: items.last().number, reference_frame: refs.last().number };
    assert(items[0].number != items.last().number);
    assert(seq![first] + Seq::<FramePair>::empty() == seq![first]);
    assert(canon == seq![first, last]);
    assert(sync_segments(items, refs, canon, 0) == Ok::<Seq<Entry>, SyncError>(Seq::empty()));
    assert(sync_segments(items, refs, canon, 1) == match segment_entries(items, refs, canon, 0) {
        Err(e) => Err(e),
        Ok(segment) => Ok(Seq::<Entry>::empty() + segment),
    });
    assert(is_first_position(items, 0, first.src_frame as int, 0));
    lemma_first_position_unique(
        items,
        0,
        first.src_frame as int,
        0,
        first_position(items, 0, first.src_frame as int),
    );
    lemma_first_position_unique(
        items,
        0,
        last.src_frame as int,
        items.len() - 1,
        first_position(items, 0, last.src_frame as int),
    );
    assert(is_first_position(refs, 0, first.reference_frame as int, 0));
    lemma_first_position_unique(
        refs,
        0,
        first.reference_frame as int,
        0,
        first_position(refs, 0, first.reference_frame as int),
    );
    lemma_first_position_unique(
        refs,
        0,
        last.reference_frame as int,
        refs.len() - 1,
        first_position(refs, 0, last.reference_frame as int),
    );
    assert(items.subrange(0, items.len() as int) == items);
    assert(refs.subrange(0, refs.len() as int) == refs);
    assert(segment_entries(items, refs, canon, 0) == rescale_segment(items, refs));
    match rescale_segment(items, refs) {
        Ok(segment) => {
            assert(Seq::<Entry>::empty() + segment == segment);
            let by = scaling_of(items, refs);
            assert forall|i: int| 0 <= i < items.len() implies (#[trigger] segment[i]).start
                == refs.first().start + scaled(items[i].start - items.first().start, by) by {
                assert(rescalable(items[i], by));
                assert(by.ref_base >= 0);
                lemma_scaled_bounds(items[i].start - by.src_base, by);
            }
        },
        Err(_) => {},
    }
}

/// Without alignment points, a track whose times run forward is carried onto the
/// reference track by one affine map, rounded down to whole milliseconds: each start
/// lies as far behind the first reference start as it lay behind the first start,
/// times the reference span over the source span, and each duration is stretched by
/// the same ratio. The premises are those of `lemma_sync_whole_track`, a source span
/// that is not zero, times that run forward, and results that fit in 64 bits.
pub proof fn lemma_sync_whole_track_affine(items: Seq<Entry>, refs: Seq<Entry>)
    requires
        items.len() > 1,
        refs.len() > 0,
        is_first_position(items, 0, items.last().number as int, items.len() - 1),
        is_first_position(refs, 0, refs.last().number as int, refs.len() - 1),
        items.last().start > items.first().start,
        refs.last().start >= refs.first().start,
        forall|i: int|
            0 <= i < items.len() ==> (#[trigger] items[i]).start >= items.first().start
                && items[i].end >= items[i].start,
        forall|i: int|
            0 <= i < items.len() ==> rescaled_end(#[trigger] items[i], scaling_of(items, refs))
                <= u64::MAX,
    ensures
        sync_entries(items, Seq::empty(), refs) matches Ok(out) && {
            let src_span = items.last().start - items.first().start;
            let ref_span = refs.last().start - refs.first().start;
            &&& out.len() == items.len()
            &&& forall|i: int|
                0 <= i < items.len() ==> {
                    let entry = #[trigger] out[i];
                    &&& entry.number == items[i].number
                    &&& entry.text == items[i].text
                    &&& entry.start == refs.first().start + (items[i].start
                        - items.first().start) * ref_span / src_span
                    &&& entry.end == entry.start + (items[i].end - items[i].start) * ref_span
                        / src_span
                }
        },
{
    let by = scaling_of(items, refs);
    lemma_sync_whole_track(items, refs);
    assert forall|k: int| 0 <= k < items.len() implies rescalable(#[trigger] items[k], by) by {
        lemma_scaled_bounds(items[k].start - by.src_base, by);
        lemma_scaled_bounds(items[k].end - items[k].start, by);
    }
    let out = rescale_segment(items, refs)->Ok_0;
    assert forall|i: int| 0 <= i < items.len() implies {
        let entry = #[trigger] out[i];
        &&& entry.start == by.ref_base + (items[i].start - by.src_base) * by.ref_span
            / by.src_span
        &&& entry.end == entry.start + (items[i].end - items[i].start) * by.ref_span
            / by.src_span
    } by {
        assert(rescalable(items[i], by));
        lemma_scaled_bounds(items[i].start - by.src_base, by);
        lemma_scaled_bounds(items[i].end - items[i].start, by);
    }
}

/// A rescaled segment has the entries of the segment, each with its index and text.
/// Its first entry starts where the reference segment starts, and, unless the source
/// span is zero, its last entry starts where the last entry of the reference segment
/// starts.
pub proof fn lemma_segment_ends_land(src: Seq<Entry>, refs: Seq<Entry>)
    requires
        src.len() > 0,
        refs.len() > 0,
        rescale_segment(src, refs) is Ok,
    ensures
        ({
            let out = rescale_segment(src, refs)->Ok_0;
            &&& out.len() == src.len()
            &&& forall|i: int|
                0 <= i < src.len() ==> (#[trigger] out[i]).number == src[i].number && out[i].text
                    == src[i].text
            &&& out.first().start == refs.first().start
            &&& src.last().start > src.first().start ==> out.last().start == refs.last().start
        }),
{
    let by = scaling_of(src, refs);
    let out = rescale_segment(src, refs)->Ok_0;
    assert(rescalable(src[0], by));
    assert(rescalable(src[src.len() - 1], by));
    assert(0 * by.ref_span == 0);
    if by.src_span > 0 {
        assert(0int / by.src_span == 0) by (nonlinear_arith)
            requires
                by.src_span > 0,
        ;
        assert(by.src_span * by.ref_span / by.src_span == by.ref_span) by (nonlinear_arith)
            requires
                by.src_span > 0,
        ;
    }
}

/// Whether the indices of the track count up by one from entry to entry.
pub open spec fn numbered_in_order(items: Seq<Entry>) -> bool {
    forall|i: int| 0 <= i < items.len() ==> (#[trigger] items[i]).number == items[0].number + i
}

/// In a track numbered in order, the first `count` segments, where none fails, hold
/// the entries up to the one that point `count` names, each once and in order.
pub proof fn lemma_segments_cover(
    items: Seq<Entry>,
    refs: Seq<Entry>,
    canon: Seq<FramePair>,
    count: nat,
)
    requires
        items.len() > 0,
        numbered_in_order(items),
        canon.len() >= 2,
        canon[0].src_frame == items[0].number,
        1 <= count <= canon.len() - 1,
        sync_segments(items, refs, canon, count) is Ok,
    ensures
        ({
            let done = sync_segments(items, refs, canon, count)->Ok_0;
            let last = canon[count as int].src_frame - items[0].number;
            &&& 0 <= last < items.len()
            &&& done.len() == last + 1
            &&& forall|i: int|
                0 <= i < done.len() ==> (#[trigger] done[i]).number == items[i].number
                    && done[i].text == items[i].text
        }),
    decreases count,
{
    let k = count - 1;
    let skip = segment_skip(k);
    let before = sync_segments(items, refs, canon, k as nat)->Ok_0;
    let start = canon[k].src_frame + skip;
    let finish = canon[k + 1].src_frame as int;
    lemma_frame_range_bounds(items, start, finish);
    let (a, b) = frame_range(items, start, finish)->Ok_0;
    let (c, d) = frame_range(
        refs,
        canon[k].reference_frame + skip,
        canon[k + 1].reference_frame as int,
    )->Ok_0;
    lemma_frame_range_bounds(
        refs,
        canon[k].reference_frame + skip,
        canon[k + 1].reference_frame as int,
    );
    let src = items.subrange(a, b + 1);
    let segment = rescale_segment(src, refs.subrange(c, d + 1))->Ok_0;
    lemma_segment_ends_land(src, refs.subrange(c, d + 1));
    assert(items[a].number == items[0].number + a);
    assert(items[b].number == items[0].number + b);
    if k == 0 {
        assert(before == Seq::<Entry>::empty());
        assert(a == 0);
    } else {
        lemma_segments_cover(items, refs, canon, k as nat);
        assert(a == before.len());
    }
    let done = before + segment;
    assert forall|i: int| 0 <= i < done.len() implies (#[trigger] done[i]).number
        == items[i].number && done[i].text == items[i].text by {
        if i >= before.len() {
            assert(done[i] == segment[i - before.len()]);
            assert(src[i - a] == items[i]);
        }
    }
}

/// Synchronization keeps every entry once and in order, each with its index and its
/// text, where the track has more than one entry and is numbered in order.
pub proof fn lemma_sync_keeps_entries(items: Seq<Entry>, points: Seq<FramePair>, refs: Seq<Entry>)
    requires
        items.len() > 1,
        refs.len() > 0,
        numbered_in_order(items),
        sync_entries(items, points, refs) is Ok,
    ensures
        ({
            let out = sync_entries(items, points, refs)->Ok_0;
            &&& out.len() == items.len()
            &&& forall|i: int|
                0 <= i < items.len() ==> (#[trigger] out[i]).number == items[i].number
                    && out[i].text == items[i].text
        }),
{
    let canon = canonical_points(items, points, refs);
    assert(items[items.len() - 1].number == items[0].number + items.len() - 1);
    assert(canon[0].src_frame == items[0].number);
    assert(canon.last().src_frame == items.last().number);
    assert(canon.len() >= 2);
    lemma_segments_cover(items, refs, canon, (canon.len() - 1) as nat);
}

/// Where the first `count` segments do not fail, fewer do not fail either, and what
/// they give is the front of what the first `count` give.
pub proof fn lemma_sync_front(
    items: Seq<Entry>,
    refs: Seq<Entry>,
    canon: Seq<FramePair>,
    fewer: nat,
    count: nat,
)
    requires
        fewer <= count,
        sync_segments(items, refs, canon, count) is Ok,
    ensures
        sync_segments(items, refs, canon, fewer) is Ok,
        sync_segments(items, refs, canon, fewer)->Ok_0.is_prefix_of(
            sync_segments(items, refs, canon, count)->Ok_0,
        ),
    decreases count,
{
    if fewer < count {
        lemma_sync_front(items, refs, canon, fewer, (count - 1) as nat);
    }
}

/// In a synchronized track that is numbered in order, the entry that an alignment
/// point names starts where the reference entry starts that the point names, unless
/// the segment that ends with the entry has a source span of zero. This holds of every
/// canonical point but the first.
pub proof fn lemma_point_lands(
    items: Seq<Entry>,
    points: Seq<FramePair>,
    refs: Seq<Entry>,
    k: int,
)
    requires
        items.len() > 1,
        refs.len() > 0,
        numbered_in_order(items),
        sync_entries(items, points, refs) is Ok,
        1 <= k < canonical_points(items, points, refs).len(),
    ensures
        ({
            let canon = canonical_points(items, points, refs);
            let out = sync_entries(items, points, refs)->Ok_0;
            let at = canon[k].src_frame - items[0].number;
            let from = canon[k - 1].src_frame + segment_skip(k - 1) - items[0].number;
            let target = frame_range(
                refs,
                canon[k - 1].reference_frame + segment_skip(k - 1),
                canon[k].reference_frame as int,
            )->Ok_0.1;
            &&& 0 <= from <= at < out.len()
            &&& 0 <= target < refs.len()
            &&& refs[target].number == canon[k].reference_frame
            &&& items[at].start > items[from].start ==> out[at].start == refs[target].start
        }),
{
    let canon = canonical_points(items, points, refs);
    let out = sync_entries(items, points, refs)->Ok_0;
    let skip = segment_skip(k - 1);
    assert(canon[0].src_frame == items[0].number);
    lemma_sync_front(items, refs, canon, k as nat, (canon.len() - 1) as nat);
    lemma_sync_front(items, refs, canon, (k - 1) as nat, k as nat);
    lemma_segments_cover(items, refs, canon, k as nat);
    lemma_sync_keeps_entries(items, points, refs);
    let before = sync_segments(items, refs, canon, (k - 1) as nat)->Ok_0;
    let done = sync_segments(items, refs, canon, k as nat)->Ok_0;
    let start = canon[k - 1].src_frame + skip;
    let finish = canon[k].src_frame as int;
    lemma_frame_range_bounds(items, start, finish);
    let (a, b) = frame_range(items, start, finish)->Ok_0;
    let ref_start = canon[k - 1].reference_frame + skip;
    let ref_finish = canon[k].reference_frame as int;
    lemma_frame_range_bounds(refs, ref_start, ref_finish);
    let (c, d) = frame_range(refs, ref_start, ref_finish)->Ok_0;
    let src = items.subrange(a, b + 1);
    let sub = refs.subrange(c, d + 1);
    let segment = rescale_segment(src, sub)->Ok_0;
    lemma_segment_ends_land(src, sub);
    assert(items[a].number == items[0].number + a);
    assert(items[b].number == items[0].number + b);
    assert(done == before + segment);
    assert(done[done.len() - 1] == segment[segment.len() - 1]);
    assert(out[b] == done[b]);
    assert(src.first() == items[a] && src.last() == items[b]);
    assert(sub.last() == refs[d]);
}

} // verus!
