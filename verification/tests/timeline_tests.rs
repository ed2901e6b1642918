use vtcast::events::{Cut, Event, Header};
use vtcast::json::parse_file;
use vtcast::timeline::{Frame, FrameGroup, TermCell};
use vtcast::Vt;

fn tchars(s: &str) -> Vec<char> {
    s.chars().collect()
}

fn load_session(text: &str, width: usize, height: usize) -> Vt {
    let sc = parse_file(&tchars(text)).unwrap();
    let mut vt = Vt::new(width, height);
    vt.load(sc);
    vt
}

fn cell(ch: char) -> TermCell {
    TermCell { ch, fg: None, bg: None }
}

fn one_cell_frame(time: i64, ch: char) -> Frame {
    Frame { time, data: vec![vec![cell(ch)]] }
}

#[test]
fn dedup_collapses_an_unchanged_feed() {
    // The second feed of the same pen-only payload reports no changed
    // rows, so the pair yields exactly one frame, not two.
    let vt = load_session(
        "{\"width\":4,\"height\":2}\n[0.0,\"o\",\"\\u001b[1m\"]\n[1.0,\"o\",\"\\u001b[1m\"]",
        40,
        20,
    );
    assert_eq!(vt.groups.len(), 1);
    assert_eq!(vt.groups[0].frames.len(), 1);
    assert_eq!(vt.groups[0].frames[0].time, 0);
}

#[test]
fn empty_feed_reports_no_change() {
    let vt = load_session(
        "{\"width\":4,\"height\":2}\n[0.5,\"o\",\"hi\"]\n[1.0,\"o\",\"\"]",
        40,
        20,
    );
    assert_eq!(vt.groups.len(), 1);
    assert_eq!(vt.groups[0].frames.len(), 1);
    assert_eq!(vt.groups[0].frames[0].time, 500_000);
}

#[test]
fn leading_marker_keeps_an_empty_group() {
    let vt = load_session(
        "{\"width\":4,\"height\":2}\n[1.0,\"m\",\"start\"]\n[2.0,\"o\",\"hi\"]",
        40,
        20,
    );
    assert_eq!(vt.groups.len(), 2);
    assert_eq!(vt.groups[0].time, 0);
    assert!(vt.groups[0].frames.is_empty());
    assert_eq!(vt.groups[1].time, 1_000_000);
    assert_eq!(vt.groups[1].frames.len(), 1);
}

#[test]
fn trailing_empty_group_is_dropped() {
    let vt = load_session(
        "{\"width\":4,\"height\":2}\n[1.0,\"o\",\"hi\"]\n[2.0,\"m\",\"end\"]",
        40,
        20,
    );
    assert_eq!(vt.groups.len(), 1);
    assert_eq!(vt.groups[0].time, 0);
    assert_eq!(vt.groups[0].frames.len(), 1);
}

#[test]
fn unknown_events_never_contribute_frames() {
    let vt = load_session(
        "{\"width\":4,\"height\":2}\n[0.5,\"r\",\"80x24\"]\n[1.0,\"o\",\"hi\"]",
        40,
        20,
    );
    assert_eq!(vt.groups.len(), 1);
    assert_eq!(vt.groups[0].frames.len(), 1);
    assert_eq!(vt.groups[0].frames[0].time, 1_000_000);
}

#[test]
fn selection_boundary_is_strict_for_groups_and_inclusive_for_frames() {
    let vt = Vt {
        width: 10,
        height: 10,
        cut: None,
        groups: vec![FrameGroup { time: 0, frames: vec![one_cell_frame(0, 'a')] }],
    };
    // at t == 0 the group time comparison is strict: nothing is visible
    let f = vt.frame(0);
    assert_eq!(f.time, 0);
    assert!(f.data.is_empty());
    // one microsecond later the frame comparison (<=) admits the frame
    let f = vt.frame(1);
    assert_eq!(f.data, vec![vec![cell('a')]]);
}

#[test]
fn cut_out_of_range_clamps_to_blank() {
    let mut vt = Vt {
        width: 10,
        height: 10,
        cut: None,
        groups: vec![FrameGroup { time: 0, frames: vec![one_cell_frame(0, 'a')] }],
    };
    vt.set_cut(Some(Cut { first_marker: Some(5), last_marker: None, start_immediately: false }));
    for t in [-1_000_000i64, 0, 1, 1_000_000, i64::MAX] {
        let f = vt.frame(t);
        assert!(f.data.is_empty());
        assert_eq!(f.time, 0);
    }
    vt.set_cut(Some(Cut { first_marker: Some(0), last_marker: Some(7), start_immediately: false }));
    let f = vt.frame(10_000_000);
    assert!(f.data.is_empty());
}

#[test]
fn start_immediately_removes_the_idle_gap() {
    let vt = Vt {
        width: 10,
        height: 10,
        cut: Some(Cut { first_marker: None, last_marker: None, start_immediately: true }),
        groups: vec![FrameGroup { time: 2_000_000, frames: vec![one_cell_frame(5_000_000, 'x')] }],
    };
    let f = vt.frame(0);
    assert_eq!(f.time, 5_000_000);
    assert_eq!(f.data, vec![vec![cell('x')]]);

    let vt = Vt {
        width: 10,
        height: 10,
        cut: Some(Cut { first_marker: None, last_marker: None, start_immediately: false }),
        groups: vec![FrameGroup { time: 2_000_000, frames: vec![one_cell_frame(5_000_000, 'x')] }],
    };
    let f = vt.frame(0);
    assert!(f.data.is_empty());
}

#[test]
fn cut_accessor_reports_markers() {
    let mut vt = Vt::new(4, 4);
    assert_eq!(vt.cut(), (None, None));
    vt.set_cut(Some(Cut { first_marker: Some(1), last_marker: Some(3), start_immediately: false }));
    assert_eq!(vt.cut(), (Some(1), Some(3)));
}

#[test]
fn reload_replaces_the_timeline() {
    let mut vt = load_session("{\"width\":4,\"height\":2}\n[1.0,\"o\",\"hi\"]", 40, 20);
    assert_eq!(vt.groups.len(), 1);
    let sc = parse_file(&tchars(
        "{\"width\":4,\"height\":2}\n[1.0,\"m\",\"a\"]\n[2.0,\"m\",\"b\"]",
    ))
    .unwrap();
    vt.load(sc);
    assert_eq!(vt.groups.len(), 2);
    assert_eq!(vt.groups[0].time, 0);
    assert_eq!(vt.groups[1].time, 1_000_000);
    assert_eq!(Header { width: 4, height: 2 }, Header { width: 4, height: 2 });
}

#[test]
fn end_to_end_grid_contents() {
    let vt = load_session("{\"width\":10,\"height\":2}\n[0.0,\"o\",\"hi\"]", 100, 40);
    let f = vt.frame(1);
    assert_eq!(f.data.len(), 2);
    assert_eq!(f.data[0].len(), 10);
    assert_eq!(f.data[0][0].ch, 'h');
    assert_eq!(f.data[0][1].ch, 'i');
    for c in 2..10 {
        assert_eq!(f.data[0][c].ch, ' ');
    }
    for c in 0..10 {
        assert_eq!(f.data[1][c].ch, ' ');
    }
}

#[test]
fn deinit_is_a_no_op() {
    vtcast::f0r_deinit();
}

#[test]
fn cut_window_selects_marker_segments() {
    // three segments: "a" before the first marker, "b" between the
    // markers, "c" after the second
    let vt = load_session(
        "{\"width\":8,\"height\":2}\n[0.5,\"o\",\"a\"]\n[1.0,\"m\",\"one\"]\n[1.5,\"o\",\"b\"]\n[2.0,\"m\",\"two\"]\n[2.5,\"o\",\"c\"]",
        80,
        40,
    );
    assert_eq!(vt.groups.len(), 3);

    // first_marker = 0 discards segment zero and shifts by the first
    // marker's time
    let mut vt = vt;
    vt.set_cut(Some(Cut { first_marker: Some(0), last_marker: None, start_immediately: false }));
    assert!(vt.frame(0).data.is_empty());
    // 0.6s into the window: the "b" frame (absolute 1.5s, shifted 0.5s)
    let f = vt.frame(600_000);
    assert_eq!(f.data[0][1].ch, 'b');
    assert_eq!(f.data[0][2].ch, ' ');
    // 1.2s: the second segment's group is already active (marker at
    // shifted 1.0s) but its only frame lies at shifted 1.5s, so the
    // blank fallback shows - selection never falls back to an earlier
    // group
    assert!(vt.frame(1_200_000).data.is_empty());
    // 1.6s: the "c" frame
    let f = vt.frame(1_600_000);
    assert_eq!(f.data[0][2].ch, 'c');

    // last_marker = 0 keeps only segment zero
    vt.set_cut(Some(Cut { first_marker: None, last_marker: Some(0), start_immediately: false }));
    assert!(vt.frame(400_000).data.is_empty());
    let f = vt.frame(600_000);
    assert_eq!(f.data[0][0].ch, 'a');
    assert_eq!(f.data[0][1].ch, ' ');
    // far past the window's end the last retained frame stays visible
    let f = vt.frame(100_000_000);
    assert_eq!(f.data[0][0].ch, 'a');
    assert_eq!(f.data[0][1].ch, ' ');
}

#[test]
fn start_immediately_skips_empty_leading_groups() {
    // the window's first group holds no frames; the offset comes from
    // the first frame anywhere in the effective range
    let vt = Vt {
        width: 10,
        height: 10,
        cut: Some(Cut { first_marker: None, last_marker: None, start_immediately: true }),
        groups: vec![
            FrameGroup { time: 1_000_000, frames: vec![] },
            FrameGroup { time: 2_000_000, frames: vec![one_cell_frame(5_000_000, 'x')] },
        ],
    };
    let f = vt.frame(0);
    assert_eq!(f.time, 5_000_000);
    assert_eq!(f.data, vec![vec![cell('x')]]);
    // a range with no frames at all falls back to an offset of zero
    let vt = Vt {
        width: 10,
        height: 10,
        cut: Some(Cut { first_marker: None, last_marker: None, start_immediately: true }),
        groups: vec![FrameGroup { time: 1_000_000, frames: vec![] }],
    };
    assert!(vt.frame(0).data.is_empty());
    assert!(vt.frame(3_000_000).data.is_empty());
}
