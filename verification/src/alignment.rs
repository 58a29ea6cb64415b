use vstd::prelude::*;
use vstd::slice::slice_subrange;
use vstd::string::StringExecFns;
use crate::text::{find_char, next_index, parse_bounded, parse_u32, to_chars};

verus! {

/// A claimed correspondence in time between the entry of the track with index
/// `src_frame` and the entry of the reference track with index `reference_frame`.
#[derive(Debug, Clone, Copy, PartialEq, Eq, Structural)]
pub struct FramePair {
    pub src_frame: u32,
    pub reference_frame: u32,
}

/// Why alignment points were turned down.
#[derive(Debug, Clone, Copy, PartialEq, Eq, Structural)]
pub enum ConfigError {
    /// An alignment point has no colon between its two indices.
    MissingSeparator,
    /// One side of an alignment point is no numeral of 32 bits.
    InvalidFrameNumber,
    /// Two points give one source index two different reference indices.
    AmbiguousSourceFrame,
    /// A point with a bigger source index has a smaller reference index than another.
    NotMonotone,
}

impl ConfigError {
    /// The description of the error.
    pub open spec fn spec_message(self) -> Seq<char> {
        match self {
            ConfigError::MissingSeparator =>
                "Frame pair must be in form src_frame_number:reference_frame_number"@,
            ConfigError::InvalidFrameNumber => "Frame numbers must be integers of 32 bits"@,
            ConfigError::AmbiguousSourceFrame =>
                "One src_frame must correspond to one reference_frame"@,
            ConfigError::NotMonotone =>
                "Bigger src_frame fields must correspond to bigger reference_frame"@,
        }
    }

    /// The description of the error.
    pub fn message(&self) -> (out: String)
        ensures
            out@ == self.spec_message(),
    {
        match self {
            ConfigError::MissingSeparator => String::from_str(
                "Frame pair must be in form src_frame_number:reference_frame_number",
            ),
            ConfigError::InvalidFrameNumber => String::from_str(
                "Frame numbers must be integers of 32 bits",
            ),
            ConfigError::AmbiguousSourceFrame => String::from_str(
                "One src_frame must correspond to one reference_frame",
            ),
            ConfigError::NotMonotone => String::from_str(
                "Bigger src_frame fields must correspond to bigger reference_frame",
            ),
        }
    }
}

/// The alignment point that a text of the form `source:reference` stands for. The
/// first colon parts the two indices.
pub open spec fn parse_frame_pair_spec(value: Seq<char>) -> Result<FramePair, ConfigError> {
    let colon = next_index(value, ':', 0);
    if colon >= value.len() {
        Err(ConfigError::MissingSeparator)
    } else {
        match (
            parse_bounded(value.take(colon as int), u32::MAX as nat),
            parse_bounded(value.skip(colon as int + 1), u32::MAX as nat),
        ) {
            (Some(src), Some(reference)) => Ok(
                FramePair { src_frame: src as u32, reference_frame: reference as u32 },
            ),
            _ => Err(ConfigError::InvalidFrameNumber),
        }
    }
}

/// Reads an alignment point of the form `source:reference`.
pub fn parse_frame_pair(value: &str) -> (res: Result<FramePair, ConfigError>)
    ensures
        res == parse_frame_pair_spec(value@),
{
    let chars = to_chars(value);
    let len = chars.len();
    let colon = find_char(chars.as_slice(), ':', 0);
    if colon >= len {
        return Err(ConfigError::MissingSeparator);
    }
    let left = slice_subrange(chars.as_slice(), 0, colon);
    let right = slice_subrange(chars.as_slice(), colon + 1, len);
    assert(left@ == value@.take(colon as int));
    assert(right@ == value@.skip(colon as int + 1));
    let src_frame = match parse_u32(left) {
        Some(frame) => frame,
        None => {
            return Err(ConfigError::InvalidFrameNumber);
        },
    };
    let reference_frame = match parse_u32(right) {
        Some(frame) => frame,
        None => {
            return Err(ConfigError::InvalidFrameNumber);
        },
    };
    Ok(FramePair { src_frame, reference_frame })
}

/// Whether the source indices rise strictly: the points are sorted by source index,
/// and no source index occurs twice.
pub open spec fn sources_rise(points: Seq<FramePair>) -> bool {
    forall|i: int, j: int|
        0 <= i < j < points.len() ==> points[i].src_frame < points[j].src_frame
}

/// Whether the reference indices never fall.
pub open spec fn references_rise(points: Seq<FramePair>) -> bool {
    forall|i: int, j: int|
        0 <= i < j < points.len() ==> points[i].reference_frame <= points[j].reference_frame
}

/// Whether two points that have one source index have one reference index.
pub open spec fn same_source_agrees(points: Seq<FramePair>, i: int, j: int) -> bool {
    points[i].src_frame == points[j].src_frame ==> points[i].reference_frame
        == points[j].reference_frame
}

/// Whether, of two points, the one with the smaller source index has no bigger
/// reference index.
pub open spec fn order_agrees(points: Seq<FramePair>, i: int, j: int) -> bool {
    points[i].src_frame < points[j].src_frame ==> points[i].reference_frame
        <= points[j].reference_frame
}

/// Whether no source index is given two different reference indices.
pub open spec fn unambiguous(points: Seq<FramePair>) -> bool {
    forall|i: int, j: int|
        0 <= i < points.len() && 0 <= j < points.len() ==> #[trigger] same_source_agrees(
            points,
            i,
            j,
        )
}

/// Whether a bigger source index never has a smaller reference index.
pub open spec fn monotone(points: Seq<FramePair>) -> bool {
    forall|i: int, j: int|
        0 <= i < points.len() && 0 <= j < points.len() ==> #[trigger] order_agrees(points, i, j)
}

/// Whether two sequences hold the same points.
pub open spec fn same_points(a: Seq<FramePair>, b: Seq<FramePair>) -> bool {
    forall|p: FramePair| a.contains(p) <==> b.contains(p)
}

/// Whether `after` holds the points of `before` and `point`, and no others.
pub open spec fn holds_one_more(
    after: Seq<FramePair>,
    before: Seq<FramePair>,
    point: FramePair,
) -> bool {
    forall|p: FramePair|
        #![trigger after.contains(p)]
        #![trigger before.contains(p)]
        after.contains(p) <==> before.contains(p) || p == point
}

/// Tells whether no source index is given two different reference indices.
fn is_unambiguous(points: &Vec<FramePair>) -> (ok: bool)
    ensures
        ok == unambiguous(points@),
{
    let len = points.len();
    let mut i: usize = 0;
    while i < len
        invariant
            len == points@.len(),
            i <= len,
            forall|a: int, b: int|
                0 <= a < i && 0 <= b < len ==> #[trigger] same_source_agrees(points@, a, b),
        decreases len - i,
    {
        let mut j: usize = 0;
        while j < len
            invariant
                len == points@.len(),
                i < len,
                j <= len,
                forall|b: int| 0 <= b < j ==> #[trigger] same_source_agrees(points@, i as int, b),
            decreases len - j,
        {
            if points[i].src_frame == points[j].src_frame && points[i].reference_frame
                != points[j].reference_frame {
                assert(!same_source_agrees(points@, i as int, j as int));
                return false;
            }
            j += 1;
        }
        i += 1;
    }
    true
}

/// Tells whether a bigger source index never has a smaller reference index.
fn is_monotone(points: &Vec<FramePair>) -> (ok: bool)
    ensures
        ok == monotone(points@),
{
    let len = points.len();
    let mut i: usize = 0;
    while i < len
        invariant
            len == points@.len(),
            i <= len,
            forall|a: int, b: int|
                0 <= a < i && 0 <= b < len ==> #[trigger] order_agrees(points@, a, b),
        decreases len - i,
    {
        let mut j: usize = 0;
        while j < len
            invariant
                len == points@.len(),
                i < len,
                j <= len,
                forall|b: int| 0 <= b < j ==> #[trigger] order_agrees(points@, i as int, b),
            decreases len - j,
        {
            if points[i].src_frame < points[j].src_frame && points[i].reference_frame
                > points[j].reference_frame {
                assert(!order_agrees(points@, i as int, j as int));
                return false;
            }
            j += 1;
        }
        i += 1;
    }
    true
}

/// Puts one point into points sorted by source index, unless it is among them.
fn insert_point(out: &mut Vec<FramePair>, point: FramePair)
    requires
        sources_rise(old(out)@),
        forall|k: int|
            0 <= k < old(out)@.len() && (#[trigger] old(out)@[k]).src_frame == point.src_frame
                ==> old(out)@[k] == point,
    ensures
        sources_rise(final(out)@),
        holds_one_more(final(out)@, old(out)@, point),
{
    let ghost before = out@;
    let mut at: usize = 0;
    while at < out.len() && out[at].src_frame < point.src_frame
        invariant
            out@ == before,
            at <= out@.len(),
            forall|k: int| 0 <= k < at ==> (#[trigger] before[k]).src_frame < point.src_frame,
        decreases out@.len() - at,
    {
        at += 1;
    }
    if at < out.len() && out[at].src_frame == point.src_frame {
        assert(before[at as int] == point);
        assert(before.contains(point));
        return ;
    }
    out.insert(at, point);
    proof {
        assert(out@ == before.insert(at as int, point));
        assert forall|i: int, j: int| 0 <= i < j < out@.len() implies out@[i].src_frame
            < out@[j].src_frame by {
            if j < at {
                assert(out@[i] == before[i] && out@[j] == before[j]);
            } else if j == at {
                assert(out@[i] == before[i]);
            } else if i < at {
                assert(out@[i] == before[i] && out@[j] == before[j - 1]);
            } else if i == at {
                assert(out@[j] == before[j - 1]);
                assert(before[at as int].src_frame > point.src_frame);
                if j - 1 > at {
                    assert(before[at as int].src_frame < before[j - 1].src_frame);
                }
            } else {
                assert(out@[i] == before[i - 1] && out@[j] == before[j - 1]);
            }
        }
        assert forall|p: FramePair|
            #![trigger out@.contains(p)]
            #![trigger before.contains(p)]
            out@.contains(p) <==> before.contains(p) || p == point by {
            if out@.contains(p) {
                let k = choose|k: int| 0 <= k < out@.len() && out@[k] == p;
                if k < at {
                    assert(before[k] == p);
                } else if k > at {
                    assert(before[k - 1] == p);
                }
            }
            if before.contains(p) {
                let k = choose|k: int| 0 <= k < before.len() && before[k] == p;
                if k < at {
                    assert(out@[k] == p);
                } else {
                    assert(out@[k + 1] == p);
                }
            }
            if p == point {
                assert(out@[at as int] == p);
            }
        }
    }
}

/// Points that are monotone, sorted by source index, have reference indices that
/// never fall.
pub proof fn lemma_sorted_references_rise(points: Seq<FramePair>, sorted: Seq<FramePair>)
    requires
        monotone(points),
        sources_rise(sorted),
        same_points(sorted, points),
    ensures
        references_rise(sorted),
{
    assert forall|i: int, j: int| 0 <= i < j < sorted.len() implies sorted[i].reference_frame
        <= sorted[j].reference_frame by {
        assert(sorted[i].src_frame < sorted[j].src_frame);
        assert(sorted.contains(sorted[i]));
        assert(sorted.contains(sorted[j]));
        let a = choose|a: int| 0 <= a < points.len() && points[a] == sorted[i];
        let b = choose|b: int| 0 <= b < points.len() && points[b] == sorted[j];
        assert(order_agrees(points, a, b));
    }
}

/// Brings alignment points into the form that synchronization takes: sorted by
/// source index, each source index once, with reference indices that never fall. A
/// point given more than once is taken once. Points that give one source index two
/// reference indices are turned down, and so are points of which one has the bigger
/// source index and the smaller reference index.
pub fn canonize(points: Vec<FramePair>) -> (res: Result<Vec<FramePair>, ConfigError>)
    ensures
        unambiguous(points@) && monotone(points@) ==> (res matches Ok(out) && sources_rise(out@)
            && references_rise(out@) && same_points(out@, points@)),
        !unambiguous(points@) ==> res == Err::<Vec<FramePair>, ConfigError>(
            ConfigError::AmbiguousSourceFrame,
        ),
        unambiguous(points@) && !monotone(points@) ==> res == Err::<Vec<FramePair>, ConfigError>(
            ConfigError::NotMonotone,
        ),
{
    if !is_unambiguous(&points) {
        return Err(ConfigError::AmbiguousSourceFrame);
    }
    if !is_monotone(&points) {
        return Err(ConfigError::NotMonotone);
    }
    let mut out: Vec<FramePair> = Vec::new();
    let mut i: usize = 0;
    while i < points.len()
        invariant
            i <= points@.len(),
            unambiguous(points@),
            sources_rise(out@),
            forall|p: FramePair| out@.contains(p) <==> points@.take(i as int).contains(p),
        decreases points@.len() - i,
    {
        let ghost before = out@;
        let ghost taken = points@.take(i as int);
        proof {
            assert forall|k: int|
                0 <= k < before.len() && (#[trigger] before[k]).src_frame
                    == points@[i as int].src_frame implies before[k] == points@[i as int] by {
                assert(before.contains(before[k]));
                assert(taken.contains(before[k]));
                let m = choose|m: int| 0 <= m < taken.len() && taken[m] == before[k];
                assert(points@[m] == before[k]);
                assert(same_source_agrees(points@, m, i as int));
            }
        }
        insert_point(&mut out, points[i]);
        proof {
            let more = points@.take(i + 1);
            assert(more == taken.push(points@[i as int]));
            assert(holds_one_more(out@, before, points@[i as int]));
            assert forall|p: FramePair| out@.contains(p) <==> more.contains(p) by {
                assert(out@.contains(p) <==> before.contains(p) || p == points@[i as int]);
                assert(before.contains(p) <==> taken.contains(p));
                if taken.contains(p) {
                    let k = choose|k: int| 0 <= k < taken.len() && taken[k] == p;
                    assert(more[k] == p);
                }
                if p == points@[i as int] {
                    assert(more[i as int] == p);
                }
                if more.contains(p) {
                    let k = choose|k: int| 0 <= k < more.len() && more[k] == p;
                    if k < i {
                        assert(taken[k] == p);
                    }
                }
            }
        }
        i += 1;
    }
    proof {
        assert(points@.take(i as int) == points@);
        lemma_sorted_references_rise(points@, out@);
    }
    Ok(out)
}

} // verus!
