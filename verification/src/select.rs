//! Cut windowing and frame selection: an optional cut trims the group
//! list to a marker-delimited sub-range and time-shifts playback; a
//! playback timestamp then selects the active frame within the window.
use vstd::prelude::*;

use crate::events::Cut;
use crate::timeline::{blank_frame, clone_frame, Frame, FrameGroup, FrameV, GroupV};

verus! {

/// The lower bound of a cut's group range: selecting `first_marker = k`
/// discards groups `0..=k` and starts at the group that marker opened.
pub open spec fn window_lo(cut: Option<Cut>) -> int {
    match cut {
        None => 0,
        Some(c) => match c.first_marker {
            Some(k) => k + 1,
            None => 0,
        },
    }
}

/// The upper bound of a cut's group range.
pub open spec fn window_hi(cut: Option<Cut>, len: int) -> int {
    match cut {
        None => len,
        Some(c) => match c.last_marker {
            Some(k) => k + 1,
            None => len,
        },
    }
}

/// The effective group range `[lo, hi)` of a cut over `len` groups.
/// Bounds that fall outside the timeline clamp to the empty range
/// rather than fail.
pub open spec fn window(cut: Option<Cut>, len: int) -> (int, int) {
    let lo = window_lo(cut);
    let hi = window_hi(cut, len);
    if lo <= hi && hi <= len {
        (lo, hi)
    } else {
        (0, 0)
    }
}

/// The first group in `[lo, hi)` that holds at least one frame.
pub open spec fn first_framed_group(gs: Seq<GroupV>, lo: int, hi: int) -> Option<int>
    decreases hi - lo,
{
    if lo >= hi {
        None
    } else if gs[lo].frames.len() > 0 {
        Some(lo)
    } else {
        first_framed_group(gs, lo + 1, hi)
    }
}

/// The playback time offset of a window. With no cut nothing is
/// shifted. With `start_immediately` the offset is the time of the
/// first frame in the effective range - removing the idle gap before
/// the first visual change - and otherwise the first group's marker
/// time; both fall back to zero when the range holds no frame or no
/// group.
pub open spec fn spec_subtract(gs: Seq<GroupV>, cut: Option<Cut>) -> i64 {
    let w = window(cut, gs.len() as int);
    match cut {
        None => 0,
        Some(c) => if w.0 < w.1 {
            if c.start_immediately {
                match first_framed_group(gs, w.0, w.1) {
                    Some(g) => gs[g].frames[0].time,
                    None => 0,
                }
            } else {
                gs[w.0].time
            }
        } else {
            0
        },
    }
}

/// The last group index in `[lo, hi)` whose shifted marker time lies
/// strictly before `t`, scanning backward.
pub open spec fn pick_group(gs: Seq<GroupV>, lo: int, hi: int, sub: i64, t: i64) -> Option<int>
    decreases hi - lo,
{
    if hi <= lo {
        None
    } else if gs[hi - 1].time - sub < t {
        Some(hi - 1)
    } else {
        pick_group(gs, lo, hi - 1, sub, t)
    }
}

/// The last frame index below `hi` whose shifted time lies at or before
/// `t`, scanning backward.
pub open spec fn pick_frame(fs: Seq<FrameV>, hi: int, sub: i64, t: i64) -> Option<int>
    decreases hi,
{
    if hi <= 0 {
        None
    } else if fs[hi - 1].time - sub <= t {
        Some(hi - 1)
    } else {
        pick_frame(fs, hi - 1, sub, t)
    }
}

/// The frame visible at playback time `t`: the last frame at or before
/// the shifted `t` within the last group strictly before it. When no
/// group or no frame qualifies, the blank fallback frame.
pub open spec fn spec_frame_at(gs: Seq<GroupV>, cut: Option<Cut>, t: i64) -> FrameV {
    let w = window(cut, gs.len() as int);
    let sub = spec_subtract(gs, cut);
    match pick_group(gs, w.0, w.1, sub, t) {
        None => blank_frame(),
        Some(g) => match pick_frame(gs[g].frames, gs[g].frames.len() as int, sub, t) {
            None => blank_frame(),
            Some(f) => gs[g].frames[f],
        },
    }
}

/// The view of a group list.
pub open spec fn groups_view(gs: Seq<FrameGroup>) -> Seq<GroupV> {
    gs.map_values(|g: FrameGroup| g@)
}

/// Selects the frame visible at playback time `time` (microseconds)
/// under an optional cut.
pub fn frame_at(groups: &Vec<FrameGroup>, cut: &Option<Cut>, time: i64) -> (f: Frame)
    ensures
        f@ == spec_frame_at(groups_view(groups@), *cut, time),
{
    let ghost gsv = groups_view(groups@);
    let len = groups.len();
    let mut lo: usize = 0;
    let mut hi: usize = len;
    let mut out_of_range = false;
    match cut {
        None => {},
        Some(c) => {
            match c.first_marker {
                Some(k) => {
                    if k >= len {
                        out_of_range = true;
                    } else {
                        lo = k + 1;
                    }
                },
                None => {},
            }
            match c.last_marker {
                Some(k) => {
                    if k >= len {
                        out_of_range = true;
                    } else {
                        hi = k + 1;
                    }
                },
                None => {},
            }
        },
    }
    if out_of_range || lo > hi {
        lo = 0;
        hi = 0;
    }
    proof {
        assert(lo as int == window(*cut, gsv.len() as int).0);
        assert(hi as int == window(*cut, gsv.len() as int).1);
    }

    let mut sub: i64 = 0;
    match cut {
        None => {},
        Some(c) => {
            if lo < hi {
                if c.start_immediately {
                    let mut g = lo;
                    while g < hi && groups[g].frames.len() == 0
                        invariant
                            lo <= g <= hi <= groups.len(),
                            gsv == groups_view(groups@),
                            first_framed_group(gsv, lo as int, hi as int) == first_framed_group(
                                gsv,
                                g as int,
                                hi as int,
                            ),
                        decreases hi - g,
                    {
                        g = g + 1;
                    }
                    if g < hi {
                        sub = groups[g].frames[0].time;
                        proof {
                            assert(first_framed_group(gsv, lo as int, hi as int) == Some(
                                g as int,
                            ));
                        }
                    }
                } else {
                    sub = groups[lo].time;
                }
            }
        },
    }
    proof {
        assert(sub == spec_subtract(gsv, *cut));
    }

    let mut gi = hi;
    let mut found: Option<usize> = None;
    while gi > lo
        invariant_except_break
            found is None,
            pick_group(gsv, lo as int, hi as int, sub, time) == pick_group(
                gsv,
                lo as int,
                gi as int,
                sub,
                time,
            ),
        invariant
            lo <= gi <= hi <= groups.len(),
            gsv == groups_view(groups@),
        ensures
            (match found {
                Some(g) => g < groups.len() && pick_group(gsv, lo as int, hi as int, sub, time)
                    == Some(g as int),
                None => pick_group(gsv, lo as int, hi as int, sub, time) is None,
            }),
        decreases gi,
    {
        if (groups[gi - 1].time as i128) - (sub as i128) < (time as i128) {
            found = Some(gi - 1);
            break ;
        }
        gi = gi - 1;
    }
    let g = match found {
        Some(g) => g,
        None => {
            return Frame::new();
        },
    };
    proof {
        assert(pick_group(gsv, lo as int, hi as int, sub, time) == Some(g as int));
        assert(gsv[g as int].frames == groups@[g as int]@.frames);
    }

    let frames = &groups[g].frames;
    let mut fi = frames.len();
    let mut fidx: Option<usize> = None;
    while fi > 0
        invariant_except_break
            fidx is None,
            pick_frame(gsv[g as int].frames, frames@.len() as int, sub, time) == pick_frame(
                gsv[g as int].frames,
                fi as int,
                sub,
                time,
            ),
        invariant
            fi <= frames.len(),
            frames@ == groups@[g as int].frames@,
            g < groups.len(),
            gsv == groups_view(groups@),
        ensures
            (match fidx {
                Some(f) => f < frames@.len() && pick_frame(
                    gsv[g as int].frames,
                    frames@.len() as int,
                    sub,
                    time,
                ) == Some(f as int),
                None => pick_frame(gsv[g as int].frames, frames@.len() as int, sub, time)
                    is None,
            }),
        decreases fi,
    {
        if (frames[fi - 1].time as i128) - (sub as i128) <= (time as i128) {
            fidx = Some(fi - 1);
            break ;
        }
        fi = fi - 1;
    }
    match fidx {
        Some(f) => clone_frame(&groups[g].frames[f]),
        None => Frame::new(),
    }
}

// ---------------------------------------------------------------------
// Selection laws.
// ---------------------------------------------------------------------

/// A cut whose marker range falls outside the timeline selects nothing:
/// every playback time yields the blank fallback frame.
pub proof fn lemma_clamped_cut_blank(gs: Seq<GroupV>, cut: Option<Cut>, t: i64)
    requires
        ({
            let w = window(cut, gs.len() as int);
            w.0 >= w.1
        }),
    ensures
        spec_frame_at(gs, cut, t) == blank_frame(),
{
}

/// No group with a shifted time strictly before `t` means no group is
/// picked.
proof fn lemma_pick_group_none(gs: Seq<GroupV>, lo: int, hi: int, sub: i64, t: i64)
    requires
        forall|g: int| lo <= g < hi ==> (#[trigger] gs[g].time) - sub >= t,
    ensures
        pick_group(gs, lo, hi, sub, t) is None,
    decreases hi - lo,
{
    if hi > lo {
        lemma_pick_group_none(gs, lo, hi - 1, sub, t);
    }
}

/// Under a cut without `start_immediately`, playback starts at the
/// window's marker: at time zero nothing is visible yet, provided the
/// group times are ordered (as every loaded timeline's are).
pub proof fn lemma_no_start_immediately_blank(gs: Seq<GroupV>, c: Cut)
    requires
        !c.start_immediately,
        ({
            let w = window(Some(c), gs.len() as int);
            w.0 < w.1
        }),
        crate::timeline::groups_sorted(gs),
    ensures
        spec_frame_at(gs, Some(c), 0) == blank_frame(),
{
    let w = window(Some(c), gs.len() as int);
    let sub = spec_subtract(gs, Some(c));
    assert(sub == gs[w.0].time);
    assert forall|g: int| w.0 <= g < w.1 implies (#[trigger] gs[g].time) - sub >= 0 by {
        assert(gs[w.0].time <= gs[g].time);
    }
    lemma_pick_group_none(gs, w.0, w.1, sub, 0);
}

/// The last group before `t` is the window's first when no later group
/// qualifies and the first does.
proof fn lemma_pick_group_first(gs: Seq<GroupV>, lo: int, hi: int, sub: i64, t: i64)
    requires
        lo < hi,
        gs[lo].time - sub < t,
        forall|g: int| lo < g < hi ==> (#[trigger] gs[g].time) - sub >= t,
    ensures
        pick_group(gs, lo, hi, sub, t) == Some(lo),
    decreases hi - lo,
{
    if hi - 1 > lo {
        lemma_pick_group_first(gs, lo, hi - 1, sub, t);
    }
}

/// The last frame at or before `t` is the first when no later frame
/// qualifies and the first does.
proof fn lemma_pick_frame_first(fs: Seq<FrameV>, hi: int, sub: i64, t: i64)
    requires
        0 < hi <= fs.len(),
        fs[0].time - sub <= t,
        forall|j: int| 0 < j < hi ==> (#[trigger] fs[j].time) - sub > t,
    ensures
        pick_frame(fs, hi, sub, t) == Some(0int),
    decreases hi,
{
    if hi > 1 {
        lemma_pick_frame_first(fs, hi - 1, sub, t);
    }
}

/// Under a cut with `start_immediately`, the idle gap before the first
/// retained frame is removed: at playback time zero that frame is
/// already visible. This needs a real gap - the window's first group
/// strictly precedes its first frame - along with the chained group
/// times every loaded timeline has, and a first frame strictly earlier
/// than its successors (with duplicate timestamps the last duplicate
/// would show instead).
pub proof fn lemma_start_immediately_removes_gap(gs: Seq<GroupV>, c: Cut)
    requires
        c.start_immediately,
        ({
            let w = window(Some(c), gs.len() as int);
            w.0 < w.1
        }),
        ({
            let w = window(Some(c), gs.len() as int);
            gs[w.0].frames.len() > 0
        }),
        ({
            let w = window(Some(c), gs.len() as int);
            gs[w.0].time < gs[w.0].frames[0].time
        }),
        crate::timeline::groups_chained(gs),
        ({
            let w = window(Some(c), gs.len() as int);
            forall|j: int| 0 < j < gs[w.0].frames.len() ==> (#[trigger] gs[w.0].frames[j].time)
                > gs[w.0].frames[0].time
        }),
    ensures
        spec_frame_at(gs, Some(c), 0) == gs[window(Some(c), gs.len() as int).0].frames[0],
{
    let w = window(Some(c), gs.len() as int);
    let sub = spec_subtract(gs, Some(c));
    assert(first_framed_group(gs, w.0, w.1) == Some(w.0));
    assert(sub == gs[w.0].frames[0].time);
    assert forall|g: int| w.0 < g < w.1 implies (#[trigger] gs[g].time) - sub >= 0 by {
        assert(gs[w.0].frames[0].time <= gs[g].time);
    }
    lemma_pick_group_first(gs, w.0, w.1, sub, 0);
    lemma_pick_frame_first(gs[w.0].frames, gs[w.0].frames.len() as int, sub, 0);
}

} // verus!
