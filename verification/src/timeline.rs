//! Frames, frame groups and timeline construction: output events drive
//! the terminal-state engine, every event that visibly changes the
//! screen is captured as a full-grid snapshot, and snapshots are
//! partitioned into groups at marker boundaries.
use vstd::prelude::*;

use crate::color::TermColor;
use crate::events::{Event, EventV, Header};
use crate::term;

verus! {

/// One character cell of a captured grid: the character and its
/// optional foreground and background colors. Absent colors resolve to
/// the theme defaults at compositing time.
#[derive(Clone, Copy, PartialEq, Eq, Structural, Debug)]
pub struct TermCell {
    pub ch: char,
    pub fg: Option<TermColor>,
    pub bg: Option<TermColor>,
}

/// A full terminal-grid snapshot at one instant, in microseconds.
pub struct Frame {
    pub time: i64,
    pub data: Vec<Vec<TermCell>>,
}

/// The mathematical view of a frame.
pub struct FrameV {
    pub time: i64,
    pub data: Seq<Seq<TermCell>>,
}

impl View for Frame {
    type V = FrameV;

    open spec fn view(&self) -> FrameV {
        FrameV { time: self.time, data: self.data@.map_values(|r: Vec<TermCell>| r@) }
    }
}

impl Frame {
    /// The blank fallback frame: time zero, no grid.
    pub fn new() -> (f: Frame)
        ensures
            f@ == blank_frame(),
    {
        let f = Frame { time: 0, data: Vec::new() };
        proof {
            assert(f@.data =~= blank_frame().data);
        }
        f
    }
}

/// The blank fallback frame's view.
pub open spec fn blank_frame() -> FrameV {
    FrameV { time: 0, data: Seq::empty() }
}

/// Copies one grid row.
fn copy_row(row: &Vec<TermCell>) -> (r: Vec<TermCell>)
    ensures
        r@ == row@,
{
    let mut r: Vec<TermCell> = Vec::new();
    let mut i: usize = 0;
    while i < row.len()
        invariant
            i <= row.len(),
            r@ == row@.take(i as int),
        decreases row.len() - i,
    {
        r.push(row[i]);
        proof {
            assert(row@.take(i + 1 as int) =~= row@.take(i as int).push(row@[i as int]));
        }
        i = i + 1;
    }
    proof {
        assert(row@.take(row@.len() as int) =~= row@);
    }
    r
}

/// Copies a whole frame.
pub fn clone_frame(f: &Frame) -> (r: Frame)
    ensures
        r@ == f@,
{
    let mut data: Vec<Vec<TermCell>> = Vec::new();
    let mut i: usize = 0;
    while i < f.data.len()
        invariant
            i <= f.data.len(),
            data@.len() == i,
            forall|j: int| 0 <= j < i ==> (#[trigger] data@[j])@ == f.data@[j]@,
        decreases f.data.len() - i,
    {
        data.push(copy_row(&f.data[i]));
        i = i + 1;
    }
    let r = Frame { time: f.time, data };
    proof {
        assert(r@.data =~= f@.data);
    }
    r
}

/// All snapshots between one marker (or session start) and the next
/// marker (or session end). `time` is the marker's time, zero for the
/// leading group.
pub struct FrameGroup {
    pub time: i64,
    pub frames: Vec<Frame>,
}

/// The mathematical view of a frame group.
pub struct GroupV {
    pub time: i64,
    pub frames: Seq<FrameV>,
}

impl View for FrameGroup {
    type V = GroupV;

    open spec fn view(&self) -> GroupV {
        GroupV { time: self.time, frames: self.frames@.map_values(|f: Frame| f@) }
    }
}

/// One step of a replayed timeline: a captured snapshot, or a marker at
/// a given time.
pub enum ItemV {
    Snapshot(FrameV),
    Mark(i64),
}

/// How a replayed item sequence may relate to the event log: each
/// marker contributes exactly one mark at its time, each output event
/// zero or one snapshot at its time (depending on whether the engine
/// reported a visible change), and unknown events contribute nothing;
/// order is preserved.
pub open spec fn replay_shape(evs: Seq<EventV>, items: Seq<ItemV>) -> bool
    decreases evs.len(), items.len(),
{
    if evs.len() == 0 {
        items.len() == 0
    } else {
        match evs[0] {
            EventV::Output { time, .. } => (items.len() > 0 && (items[0] matches ItemV::Snapshot(
                f,
            ) && f.time == time) && replay_shape(evs.drop_first(), items.drop_first()))
                || replay_shape(evs.drop_first(), items),
            EventV::Marker { time, .. } => items.len() > 0 && items[0] == ItemV::Mark(time)
                && replay_shape(evs.drop_first(), items.drop_first()),
            EventV::Unknown { .. } => replay_shape(evs.drop_first(), items),
        }
    }
}

/// What one event may add to the replayed items.
pub open spec fn step_ok(e: EventV, extra: Option<ItemV>) -> bool {
    match e {
        EventV::Output { time, .. } => match extra {
            None => true,
            Some(it) => it matches ItemV::Snapshot(f) && f.time == time,
        },
        EventV::Marker { time, .. } => extra == Some(ItemV::Mark(time)),
        EventV::Unknown { .. } => extra is None,
    }
}

/// Extending a replayed prefix by one event keeps the replay shape.
proof fn lemma_shape_push(evs: Seq<EventV>, items: Seq<ItemV>, e: EventV, extra: Option<ItemV>)
    requires
        replay_shape(evs, items),
        step_ok(e, extra),
    ensures
        replay_shape(
            evs.push(e),
            match extra {
                None => items,
                Some(x) => items.push(x),
            },
        ),
    decreases evs.len(),
{
    let items2 = match extra {
        None => items,
        Some(x) => items.push(x),
    };
    if evs.len() == 0 {
        assert(items.len() == 0);
        assert(items =~= Seq::<ItemV>::empty());
        assert(evs.push(e)[0] == e);
        assert(evs.push(e).drop_first() =~= Seq::<EventV>::empty());
        match extra {
            None => {
                assert(items2.len() == 0);
            },
            Some(x) => {
                assert(items2[0] == x);
                assert(items2.drop_first() =~= Seq::<ItemV>::empty());
            },
        }
        assert(replay_shape(Seq::<EventV>::empty(), Seq::<ItemV>::empty()));
        match e {
            EventV::Output { .. } => {
                assert(replay_shape(evs.push(e), items2));
            },
            EventV::Marker { .. } => {
                assert(replay_shape(evs.push(e), items2));
            },
            EventV::Unknown { .. } => {
                assert(replay_shape(evs.push(e), items2));
            },
        }
    } else {
        assert(evs.push(e)[0] == evs[0]);
        assert(evs.push(e).drop_first() =~= evs.drop_first().push(e));
        match evs[0] {
            EventV::Output { time, .. } => {
                if items.len() > 0 && (items[0] matches ItemV::Snapshot(f) && f.time == time)
                    && replay_shape(evs.drop_first(), items.drop_first()) {
                    lemma_shape_push(evs.drop_first(), items.drop_first(), e, extra);
                    assert(items2.len() > 0 && items2[0] == items[0]);
                    match extra {
                        None => {},
                        Some(x) => {
                            assert(items2.drop_first() =~= items.drop_first().push(x));
                        },
                    }
                } else {
                    lemma_shape_push(evs.drop_first(), items, e, extra);
                }
            },
            EventV::Marker { time, .. } => {
                lemma_shape_push(evs.drop_first(), items.drop_first(), e, extra);
                assert(items2.len() > 0 && items2[0] == items[0]);
                match extra {
                    None => {},
                    Some(x) => {
                        assert(items2.drop_first() =~= items.drop_first().push(x));
                    },
                }
            },
            EventV::Unknown { .. } => {
                lemma_shape_push(evs.drop_first(), items, e, extra);
            },
        }
    }
}

/// The grouping state after consuming a sequence of items: the finished
/// groups and the group still being filled. The current group starts at
/// time zero with no frames; each mark pushes the current group
/// unconditionally - a leading empty segment is kept - and starts a new
/// one at the mark's time.
pub open spec fn gstate(items: Seq<ItemV>) -> (Seq<GroupV>, GroupV)
    decreases items.len(),
{
    if items.len() == 0 {
        (Seq::empty(), GroupV { time: 0, frames: Seq::empty() })
    } else {
        let prev = gstate(items.drop_last());
        match items.last() {
            ItemV::Snapshot(f) => (prev.0, GroupV { time: prev.1.time, frames: prev.1.frames.push(f) }),
            ItemV::Mark(t) => (prev.0.push(prev.1), GroupV { time: t, frames: Seq::empty() }),
        }
    }
}

/// The groups of a replayed timeline: the finished groups, plus the
/// final group only when it holds at least one frame - a trailing empty
/// group is discarded.
pub open spec fn spec_groups(items: Seq<ItemV>) -> Seq<GroupV> {
    let st = gstate(items);
    if st.1.frames.len() > 0 {
        st.0.push(st.1)
    } else {
        st.0
    }
}

/// How many marks a replayed timeline holds.
pub open spec fn count_marks(items: Seq<ItemV>) -> int
    decreases items.len(),
{
    if items.len() == 0 {
        0
    } else {
        count_marks(items.drop_last()) + (if items.last() is Mark {
            1int
        } else {
            0int
        })
    }
}

/// Every mark finishes exactly one group.
pub proof fn lemma_mark_count(items: Seq<ItemV>)
    ensures
        gstate(items).0.len() == count_marks(items),
    decreases items.len(),
{
    if items.len() > 0 {
        lemma_mark_count(items.drop_last());
    }
}

/// A log that begins with a marker yields a leading group at index
/// zero with marker time zero and an empty frame list, however many
/// groups follow.
pub proof fn lemma_leading_empty_group(items: Seq<ItemV>)
    requires
        items.len() > 0,
        items[0] is Mark,
    ensures
        spec_groups(items).len() >= 1,
        spec_groups(items)[0] == (GroupV { time: 0, frames: Seq::<FrameV>::empty() }),
    decreases items.len(),
{
    if items.len() == 1 {
        assert(items.drop_last() =~= Seq::<ItemV>::empty());
        assert(gstate(Seq::<ItemV>::empty()).0.len() == 0);
        assert(gstate(Seq::<ItemV>::empty()).1 == (GroupV {
            time: 0,
            frames: Seq::<FrameV>::empty(),
        }));
    } else {
        let pre = items.drop_last();
        assert(pre[0] == items[0]);
        lemma_leading_empty_group(pre);
        let fin = gstate(pre).0;
        let cur = gstate(pre).1;
        match items.last() {
            ItemV::Snapshot(_) => {
                if fin.len() >= 1 {
                    assert(spec_groups(items)[0] == fin[0]);
                    assert(spec_groups(pre)[0] == fin[0]);
                } else {
                    if cur.frames.len() > 0 {
                        assert(spec_groups(pre)[0] == cur);
                        assert(false);
                    } else {
                        assert(spec_groups(pre).len() == 0);
                        assert(false);
                    }
                }
            },
            ItemV::Mark(_) => {
                if fin.len() >= 1 {
                    assert(spec_groups(items)[0] == fin[0]);
                    assert(spec_groups(pre)[0] == fin[0]);
                } else {
                    lemma_first_mark_finishes(pre);
                    assert(false);
                }
            },
        }
    }
}

/// A timeline with no marks has no finished groups.
proof fn lemma_no_marks_zero(items: Seq<ItemV>)
    requires
        count_marks(items) == 0,
    ensures
        forall|j: int| 0 <= j < items.len() ==> !((#[trigger] items[j]) is Mark),
    decreases items.len(),
{
    if items.len() > 0 {
        lemma_mark_count(items);
        lemma_mark_count(items.drop_last());
        assert(count_marks(items.drop_last()) == 0);
        lemma_no_marks_zero(items.drop_last());
        assert forall|j: int| 0 <= j < items.len() implies !((#[trigger] items[j]) is Mark) by {
            if j < items.len() - 1 {
                assert(items.drop_last()[j] == items[j]);
            }
        }
    }
}

/// A timeline that starts with a mark has at least one finished group.
proof fn lemma_first_mark_finishes(items: Seq<ItemV>)
    requires
        items.len() > 0,
        items[0] is Mark,
    ensures
        gstate(items).0.len() >= 1,
    decreases items.len(),
{
    if items.len() == 1 {
        assert(items.drop_last() =~= Seq::<ItemV>::empty());
    } else {
        assert(items.drop_last()[0] == items[0]);
        lemma_first_mark_finishes(items.drop_last());
    }
}

/// A log whose final segment - after its last marker - holds no
/// snapshots yields no trailing group: there are exactly as many groups
/// as marks.
pub proof fn lemma_no_trailing_group(items: Seq<ItemV>)
    requires
        forall|j: int| 0 <= j < items.len() ==> !((#[trigger] items[j]) is Snapshot) || exists|k: int|
            j < k < items.len() && items[k] is Mark,
    ensures
        spec_groups(items).len() == count_marks(items),
    decreases items.len(),
{
    lemma_mark_count(items);
    if items.len() == 0 {
    } else {
        match items.last() {
            ItemV::Snapshot(_) => {
                // the last item is a snapshot with no mark after it
                assert(items[items.len() - 1] is Snapshot);
                assert(false);
            },
            ItemV::Mark(_) => {
                assert(gstate(items).1.frames.len() == 0);
            },
        }
    }
}

/// Replays the event log through the terminal-state engine and groups
/// the captured snapshots at marker boundaries.
///
/// The result is `spec_groups` of some item sequence that relates to
/// the events by `replay_shape`: markers are kept in order with their
/// times, each output event yields at most one snapshot - exactly when
/// the engine reported a visible change - and unknown events are
/// ignored.
pub fn load_groups(header: &Header, events: &Vec<Event>) -> (groups: Vec<FrameGroup>)
    requires
        header.width >= 1,
        header.height >= 1,
    ensures
        exists|items: Seq<ItemV>|
            replay_shape(events@.map_values(|e: Event| e@), items) && groups@.map_values(
                |g: FrameGroup| g@,
            ) == spec_groups(items),
{
    let mut vt = term::vt_new(header.width, header.height);
    let mut out: Vec<FrameGroup> = Vec::new();
    let mut cur_time: i64 = 0;
    let mut cur_frames: Vec<Frame> = Vec::new();
    let ghost mut items: Seq<ItemV> = Seq::empty();
    let mut i: usize = 0;
    while i < events.len()
        invariant
            i <= events.len(),
            replay_shape(events@.take(i as int).map_values(|e: Event| e@), items),
            gstate(items).0 == out@.map_values(|g: FrameGroup| g@),
            gstate(items).1.time == cur_time,
            gstate(items).1.frames == cur_frames@.map_values(|f: Frame| f@),
        decreases events.len() - i,
    {
        let ghost evs_old = events@.take(i as int).map_values(|e: Event| e@);
        let ghost ev = events@[i as int]@;
        let ghost items_old = items;
        proof {
            assert(events@.take(i + 1 as int).map_values(|e: Event| e@) =~= evs_old.push(ev));
        }
        match &events[i] {
            Event::Output { time, data } => {
                let changed = term::vt_feed(&mut vt, data);
                if changed.len() > 0 {
                    let grid = term::vt_grid(&vt);
                    let f = Frame { time: *time, data: grid };
                    let ghost fv = f@;
                    proof {
                        lemma_shape_push(evs_old, items_old, ev, Some(ItemV::Snapshot(fv)));
                        items = items_old.push(ItemV::Snapshot(fv));
                        assert(items.drop_last() =~= items_old);
                    }
                    cur_frames.push(f);
                    proof {
                        assert(cur_frames@.map_values(|f: Frame| f@) =~= gstate(
                            items_old,
                        ).1.frames.push(fv));
                        assert(gstate(items).1.frames == gstate(items_old).1.frames.push(fv));
                    }
                } else {
                    proof {
                        lemma_shape_push(evs_old, items_old, ev, None);
                    }
                }
            },
            Event::Marker { time, .. } => {
                let t = *time;
                let g = FrameGroup { time: cur_time, frames: cur_frames };
                proof {
                    lemma_shape_push(evs_old, items_old, ev, Some(ItemV::Mark(t)));
                    items = items_old.push(ItemV::Mark(t));
                    assert(items.drop_last() =~= items_old);
                    assert(g@ == gstate(items_old).1);
                }
                out.push(g);
                proof {
                    assert(out@.map_values(|g: FrameGroup| g@) =~= gstate(items_old).0.push(
                        gstate(items_old).1,
                    ));
                    assert(gstate(items).0 == gstate(items_old).0.push(gstate(items_old).1));
                }
                cur_time = t;
                cur_frames = Vec::new();
                proof {
                    assert(cur_frames@.map_values(|f: Frame| f@) =~= Seq::<FrameV>::empty());
                }
            },
            Event::Unknown { .. } => {
                proof {
                    lemma_shape_push(evs_old, items_old, ev, None);
                }
            },
        }
        i = i + 1;
    }
    proof {
        assert(events@.take(events@.len() as int) =~= events@);
    }
    if cur_frames.len() > 0 {
        let g = FrameGroup { time: cur_time, frames: cur_frames };
        proof {
            assert(g@ == gstate(items).1);
        }
        out.push(g);
        proof {
            assert(out@.map_values(|g: FrameGroup| g@) =~= gstate(items).0.push(gstate(items).1));
        }
    }
    proof {
        let evsv = events@.map_values(|e: Event| e@);
        assert(replay_shape(evsv, items));
        assert(out@.map_values(|g: FrameGroup| g@) == spec_groups(items));
    }
    out
}

} // verus!

verus! {

/// How many snapshots a replayed timeline holds.
pub open spec fn count_snapshots(items: Seq<ItemV>) -> int
    decreases items.len(),
{
    if items.len() == 0 {
        0
    } else {
        (if items[0] is Snapshot {
            1int
        } else {
            0int
        }) + count_snapshots(items.drop_first())
    }
}

/// How many output events a log holds.
pub open spec fn count_outputs(evs: Seq<EventV>) -> int
    decreases evs.len(),
{
    if evs.len() == 0 {
        0
    } else {
        (if evs[0] is Output {
            1int
        } else {
            0int
        }) + count_outputs(evs.drop_first())
    }
}

/// The dedup policy bounds retained state: a replayed timeline holds at
/// most one snapshot per output event, however many raw events repeat
/// the same visible content.
pub proof fn lemma_dedup_bound(evs: Seq<EventV>, items: Seq<ItemV>)
    requires
        replay_shape(evs, items),
    ensures
        count_snapshots(items) <= count_outputs(evs),
    decreases evs.len(),
{
    if evs.len() == 0 {
    } else {
        match evs[0] {
            EventV::Output { time, .. } => {
                if items.len() > 0 && (items[0] matches ItemV::Snapshot(f) && f.time == time)
                    && replay_shape(evs.drop_first(), items.drop_first()) {
                    lemma_dedup_bound(evs.drop_first(), items.drop_first());
                } else {
                    lemma_dedup_bound(evs.drop_first(), items);
                    lemma_count_snapshots_nonneg(items);
                }
            },
            EventV::Marker { .. } => {
                lemma_dedup_bound(evs.drop_first(), items.drop_first());
            },
            EventV::Unknown { .. } => {
                lemma_dedup_bound(evs.drop_first(), items);
            },
        }
    }
}

/// Snapshot counts are never negative.
proof fn lemma_count_snapshots_nonneg(items: Seq<ItemV>)
    ensures
        count_snapshots(items) >= 0,
    decreases items.len(),
{
    if items.len() > 0 {
        lemma_count_snapshots_nonneg(items.drop_first());
    }
}

} // verus!

verus! {

/// The timestamp a replayed item carries.
pub open spec fn item_time(it: ItemV) -> i64 {
    match it {
        ItemV::Snapshot(f) => f.time,
        ItemV::Mark(t) => t,
    }
}

/// Event timestamps never decrease.
pub open spec fn sorted_events(evs: Seq<EventV>) -> bool {
    forall|i: int, j: int| 0 <= i <= j < evs.len() ==> evs[i].time() <= evs[j].time()
}

/// Event timestamps are non-negative.
pub open spec fn nonneg_events(evs: Seq<EventV>) -> bool {
    forall|i: int| 0 <= i < evs.len() ==> evs[i].time() >= 0
}

/// Item timestamps never decrease.
pub open spec fn sorted_items(items: Seq<ItemV>) -> bool {
    forall|i: int, j: int| 0 <= i <= j < items.len() ==> item_time(items[i]) <= item_time(
        items[j],
    )
}

/// Item timestamps are non-negative.
pub open spec fn nonneg_items(items: Seq<ItemV>) -> bool {
    forall|i: int| 0 <= i < items.len() ==> item_time(items[i]) >= 0
}

/// A group's invariant: its frames are time-ordered and none precedes
/// the group's marker time.
pub open spec fn group_wf(g: GroupV) -> bool {
    &&& forall|i: int| 0 <= i < g.frames.len() ==> g.frames[i].time >= g.time
    &&& forall|i: int, j: int|
        0 <= i <= j < g.frames.len() ==> g.frames[i].time <= g.frames[j].time
}

/// Group marker times never decrease.
pub open spec fn groups_sorted(gs: Seq<GroupV>) -> bool {
    forall|i: int, j: int| 0 <= i <= j < gs.len() ==> (#[trigger] gs[i]).time <= (
    #[trigger] gs[j]).time
}

/// Groups chain in time: every frame of a group lies at or before each
/// later group's marker time.
pub open spec fn groups_chained(gs: Seq<GroupV>) -> bool {
    forall|i: int, j: int, k: int|
        0 <= i < j < gs.len() && 0 <= k < gs[i].frames.len() ==> (#[trigger] gs[i].frames[k]).time
            <= (#[trigger] gs[j]).time
}

/// A replayed item sequence inherits the log's time order.
proof fn lemma_shape_sorted(evs: Seq<EventV>, items: Seq<ItemV>)
    requires
        replay_shape(evs, items),
        sorted_events(evs),
        nonneg_events(evs),
    ensures
        sorted_items(items),
        nonneg_items(items),
        items.len() > 0 ==> evs.len() > 0 && item_time(items[0]) >= evs[0].time(),
    decreases evs.len(),
{
    if evs.len() == 0 {
    } else {
        let evs1 = evs.drop_first();
        assert(sorted_events(evs1) && nonneg_events(evs1)) by {
            assert(forall|i: int| 0 <= i < evs1.len() ==> evs1[i] == evs[i + 1]);
        }
        match evs[0] {
            EventV::Output { time, .. } => {
                if items.len() > 0 && (items[0] matches ItemV::Snapshot(f) && f.time == time)
                    && replay_shape(evs1, items.drop_first()) {
                    let items1 = items.drop_first();
                    lemma_shape_sorted(evs1, items1);
                    assert(forall|i: int| 0 <= i < items1.len() ==> items1[i] == items[i + 1]);
                    assert forall|i: int, j: int| 0 <= i <= j < items.len() implies item_time(
                        items[i],
                    ) <= item_time(items[j]) by {
                        if j > 0 {
                            if i == 0 {
                                assert(item_time(items[0]) == evs[0].time());
                                assert(items1.len() > 0);
                                assert(item_time(items1[0]) >= evs1[0].time());
                                assert(evs1[0] == evs[1]);
                                assert(evs[0].time() <= evs[1].time());
                                assert(item_time(items1[0]) <= item_time(items1[j - 1]));
                            } else {
                                assert(item_time(items1[i - 1]) <= item_time(items1[j - 1]));
                            }
                        }
                    }
                    assert forall|i: int| 0 <= i < items.len() implies item_time(items[i])
                        >= 0 by {
                        if i > 0 {
                            assert(item_time(items1[i - 1]) >= 0);
                        } else {
                            assert(item_time(items[0]) == evs[0].time());
                        }
                    }
                } else {
                    lemma_shape_sorted(evs1, items);
                }
            },
            EventV::Marker { time, .. } => {
                let items1 = items.drop_first();
                lemma_shape_sorted(evs1, items1);
                assert(forall|i: int| 0 <= i < items1.len() ==> items1[i] == items[i + 1]);
                assert forall|i: int, j: int| 0 <= i <= j < items.len() implies item_time(
                    items[i],
                ) <= item_time(items[j]) by {
                    if j > 0 {
                        if i == 0 {
                            assert(item_time(items[0]) == evs[0].time());
                            assert(items1.len() > 0);
                            assert(item_time(items1[0]) >= evs1[0].time());
                            assert(evs1[0] == evs[1]);
                            assert(evs[0].time() <= evs[1].time());
                            assert(item_time(items1[0]) <= item_time(items1[j - 1]));
                        } else {
                            assert(item_time(items1[i - 1]) <= item_time(items1[j - 1]));
                        }
                    }
                }
                assert forall|i: int| 0 <= i < items.len() implies item_time(items[i]) >= 0 by {
                    if i > 0 {
                        assert(item_time(items1[i - 1]) >= 0);
                    } else {
                        assert(item_time(items[0]) == evs[0].time());
                    }
                }
            },
            EventV::Unknown { .. } => {
                lemma_shape_sorted(evs1, items);
            },
        }
    }
}

/// Grouping time-ordered items keeps every group well-formed and the
/// group times ordered.
proof fn lemma_gstate_wf(items: Seq<ItemV>)
    requires
        sorted_items(items),
        nonneg_items(items),
    ensures
        group_wf(gstate(items).1),
        forall|k: int| 0 <= k < gstate(items).0.len() ==> group_wf(#[trigger] gstate(items).0[k]),
        forall|i: int, j: int|
            0 <= i <= j < gstate(items).0.len() ==> gstate(items).0[i].time <= gstate(
                items,
            ).0[j].time,
        gstate(items).0.len() > 0 ==> gstate(items).0.last().time <= gstate(items).1.time,
        gstate(items).1.time >= 0,
        items.len() > 0 ==> gstate(items).1.time <= item_time(items.last()),
        items.len() > 0 ==> forall|i: int|
            0 <= i < gstate(items).1.frames.len() ==> gstate(items).1.frames[i].time
                <= item_time(items.last()),
        groups_chained(gstate(items).0),
        forall|k: int, f: int|
            0 <= k < gstate(items).0.len() && 0 <= f < gstate(items).0[k].frames.len() ==> (
            #[trigger] gstate(items).0[k].frames[f]).time <= gstate(items).1.time,
    decreases items.len(),
{
    if items.len() == 0 {
    } else {
        let pre = items.drop_last();
        assert(sorted_items(pre) && nonneg_items(pre)) by {
            assert(forall|i: int| 0 <= i < pre.len() ==> pre[i] == items[i]);
        }
        lemma_gstate_wf(pre);
        let st = gstate(pre);
        if pre.len() > 0 {
            assert(item_time(pre.last()) <= item_time(items.last())) by {
                assert(pre.last() == items[items.len() - 2]);
                assert(items.last() == items[items.len() - 1]);
            }
        }
        assert(item_time(items.last()) >= 0);
        match items.last() {
            ItemV::Snapshot(f) => {
                assert(f.time == item_time(items.last()));
            },
            ItemV::Mark(t) => {
                assert(t == item_time(items.last()));
            },
        }
    }
}

/// The timeline invariant: when the log's events are time-ordered with
/// non-negative times, every group a replay produces holds time-ordered
/// frames none of which precedes the group's marker time, and the
/// groups themselves are ordered by marker time.
pub proof fn lemma_timeline_invariant(evs: Seq<EventV>, items: Seq<ItemV>)
    requires
        replay_shape(evs, items),
        sorted_events(evs),
        nonneg_events(evs),
    ensures
        forall|k: int| 0 <= k < spec_groups(items).len() ==> group_wf(
            #[trigger] spec_groups(items)[k],
        ),
        groups_sorted(spec_groups(items)),
        groups_chained(spec_groups(items)),
{
    lemma_shape_sorted(evs, items);
    lemma_gstate_wf(items);
    let st = gstate(items);
    if st.1.frames.len() > 0 {
        assert(spec_groups(items) == st.0.push(st.1));
        assert forall|k: int| 0 <= k < spec_groups(items).len() implies group_wf(
            #[trigger] spec_groups(items)[k],
        ) by {
            if k < st.0.len() {
                assert(spec_groups(items)[k] == st.0[k]);
            } else {
                assert(spec_groups(items)[k] == st.1);
            }
        }
        assert forall|i: int, j: int, k: int|
            0 <= i < j < spec_groups(items).len() && 0 <= k < spec_groups(
                items,
            )[i].frames.len() implies (#[trigger] spec_groups(items)[i].frames[k]).time
            <= (#[trigger] spec_groups(items)[j]).time by {
            assert(spec_groups(items)[i] == st.0[i]);
            if j < st.0.len() {
                assert(spec_groups(items)[j] == st.0[j]);
            } else {
                assert(spec_groups(items)[j] == st.1);
            }
        }
    }
}

} // verus!
