//! Turns a recorded terminal session - a timestamped log of raw terminal
//! output plus named marker checkpoints - into rasterized video frames.
//!
//! The pipeline: session text is parsed into a header and an event
//! sequence; output events drive a terminal-state engine, and every
//! event that visibly changes the screen is captured as a full-grid
//! `Frame`; frames are grouped at marker boundaries; an optional `Cut`
//! trims and time-shifts the group list; a playback timestamp selects
//! the active frame; and a compositor renders the selected grid into a
//! flat buffer of packed 32-bit pixels.
//!
//! Timestamps are carried as whole microseconds so that every comparison
//! and offset in the timeline is exact integer arithmetic.
use vstd::prelude::*;

pub mod color;
pub mod events;
pub mod json;
pub mod render;
pub mod select;
pub mod term;
pub mod timeline;

use crate::events::{Cut, Event, EventV, Screencast};
use crate::select::{frame_at, groups_view, spec_frame_at};
use crate::timeline::{group_wf, groups_chained, groups_sorted, lemma_timeline_invariant,
    load_groups, nonneg_events, replay_shape, sorted_events, spec_groups, Frame, FrameGroup,
    ItemV};

verus! {

/// A loaded session: the canvas size in pixels, the current cut, and
/// the marker-grouped timeline of captured frames.
///
/// Loading replaces the timeline wholesale; the cut is applied purely
/// at query time and never mutates the timeline.
pub struct Vt {
    pub width: usize,
    pub height: usize,
    pub cut: Option<Cut>,
    pub groups: Vec<FrameGroup>,
}

impl Vt {
    /// A session with no timeline loaded: every query yields the blank
    /// fallback frame.
    pub fn new(width: usize, height: usize) -> (vt: Vt)
        ensures
            vt.width == width,
            vt.height == height,
            vt.cut is None,
            vt.groups@.len() == 0,
    {
        Vt { width, height, cut: None, groups: Vec::new() }
    }

    /// Replays a parsed session file into a fresh timeline, replacing
    /// the previous one. The cut and canvas size are untouched.
    ///
    /// The grid must have at least one column and one row: the
    /// terminal-state engine cannot be built around an empty grid (the
    /// caller checks the header and reports a load failure instead).
    ///
    /// The new group list is the grouping of some replayed item
    /// sequence that `replay_shape` relates to the file's events:
    /// markers delimit groups in order, each output event contributes
    /// at most one snapshot - exactly when the engine reported a
    /// visible change - and unknown events contribute nothing.
    pub fn load(&mut self, file: Screencast)
        requires
            file.header.width >= 1,
            file.header.height >= 1,
        ensures
            exists|items: Seq<ItemV>|
                replay_shape(file.events@.map_values(|e: Event| e@), items) && groups_view(
                    final(self).groups@,
                ) == spec_groups(items),
            sorted_events(file.events@.map_values(|e: Event| e@)) && nonneg_events(
                file.events@.map_values(|e: Event| e@),
            ) ==> ({
                let gs = groups_view(final(self).groups@);
                (forall|k: int| 0 <= k < gs.len() ==> group_wf(#[trigger] gs[k]))
                    && groups_sorted(gs) && groups_chained(gs)
            }),
            final(self).width == old(self).width,
            final(self).height == old(self).height,
            final(self).cut == old(self).cut,
    {
        self.groups = load_groups(&file.header, &file.events);
        proof {
            let evs = file.events@.map_values(|e: Event| e@);
            let items = choose|items: Seq<ItemV>|
                replay_shape(evs, items) && groups_view(self.groups@) == spec_groups(items);
            if sorted_events(evs) && nonneg_events(evs) {
                lemma_timeline_invariant(evs, items);
            }
        }
    }

    /// The configured cut's marker bounds, if any.
    pub fn cut(&self) -> (r: (Option<usize>, Option<usize>))
        ensures
            r == (match self.cut {
                Some(c) => (c.first_marker, c.last_marker),
                None => (None::<usize>, None::<usize>),
            }),
    {
        match &self.cut {
            Some(cut) => (cut.first_marker, cut.last_marker),
            None => (None, None),
        }
    }

    /// Replaces the cut. Only later queries are affected.
    pub fn set_cut(&mut self, cut: Option<Cut>)
        ensures
            final(self).cut == cut,
            final(self).width == old(self).width,
            final(self).height == old(self).height,
            final(self).groups == old(self).groups,
    {
        self.cut = cut;
    }

    /// The frame visible at playback time `time` (microseconds) under
    /// the current cut: the blank fallback frame when the window is
    /// empty or nothing is visible yet, never an error.
    pub fn frame(&self, time: i64) -> (f: Frame)
        ensures
            f@ == spec_frame_at(groups_view(self.groups@), self.cut, time),
    {
        frame_at(&self.groups, &self.cut, time)
    }
}

/// Host deinitialization hook. The library keeps no global state, so
/// there is nothing to release.
pub fn f0r_deinit() {
}

} // verus!
