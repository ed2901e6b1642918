use vtcast::events::{Cut, Error, Event};
use vtcast::json::{parse_cut, parse_event, parse_file, parse_header};

fn pchars(s: &str) -> Vec<char> {
    s.chars().collect()
}

#[test]
fn header_round_trip() {
    let h = parse_header(&pchars("{\"width\":80,\"height\":24}")).unwrap();
    assert_eq!(h.width, 80);
    assert_eq!(h.height, 24);
}

#[test]
fn header_ignores_unknown_members() {
    let h = parse_header(&pchars(
        "{\"version\": 2, \"width\": 10, \"env\": {\"TERM\": \"xterm\"}, \"height\": 2, \"tags\": [1, [2, {}]]}",
    ))
    .unwrap();
    assert_eq!(h.width, 10);
    assert_eq!(h.height, 2);
}

#[test]
fn header_rejects_missing_duplicate_or_ill_typed_dimensions() {
    assert!(parse_header(&pchars("{\"width\":80}")).is_none());
    assert!(parse_header(&pchars("{\"width\":80,\"height\":24,\"width\":80}")).is_none());
    assert!(parse_header(&pchars("{\"width\":80.5,\"height\":24}")).is_none());
    assert!(parse_header(&pchars("{\"width\":-80,\"height\":24}")).is_none());
    assert!(parse_header(&pchars("{\"width\":\"80\",\"height\":24}")).is_none());
    assert!(parse_header(&pchars("[80,24]")).is_none());
    assert!(parse_header(&pchars("{\"width\":80,\"height\":24} x")).is_none());
}

#[test]
fn output_event_round_trip() {
    let ev = parse_event(&pchars("[1.5,\"o\",\"hello\"]")).unwrap();
    match ev {
        Event::Output { time, data } => {
            assert_eq!(time, 1_500_000);
            assert_eq!(data, pchars("hello"));
        },
        _ => panic!("expected an output event"),
    }
}

#[test]
fn marker_event_round_trip() {
    let ev = parse_event(&pchars("[2.0,\"m\",\"chapter1\"]")).unwrap();
    match ev {
        Event::Marker { time, label } => {
            assert_eq!(time, 2_000_000);
            assert_eq!(label, pchars("chapter1"));
        },
        _ => panic!("expected a marker event"),
    }
}

#[test]
fn unknown_event_round_trip() {
    let ev = parse_event(&pchars("[3.0,\"x\",\"?\"]")).unwrap();
    match ev {
        Event::Unknown { time, tag } => {
            assert_eq!(time, 3_000_000);
            assert_eq!(tag, pchars("x"));
        },
        _ => panic!("expected an unknown event"),
    }
    // an unknown tag needs no payload at all
    let ev = parse_event(&pchars("[4.0,\"r\"]")).unwrap();
    assert!(matches!(ev, Event::Unknown { time: 4_000_000, .. }));
}

#[test]
fn event_time_errors() {
    assert_eq!(parse_event(&pchars("[]")), Err(Error::InvalidEventTime));
    assert_eq!(parse_event(&pchars("[\"a\",\"o\",\"x\"]")), Err(Error::InvalidEventTime));
    assert_eq!(parse_event(&pchars("{\"time\":1}")), Err(Error::InvalidEventTime));
    assert_eq!(parse_event(&pchars("[true,\"o\",\"x\"]")), Err(Error::InvalidEventTime));
}

#[test]
fn event_payload_errors() {
    assert_eq!(parse_event(&pchars("[1.5]")), Err(Error::InvalidEvent));
    assert_eq!(parse_event(&pchars("[1.5,7]")), Err(Error::InvalidEvent));
    assert_eq!(parse_event(&pchars("[1.5,\"o\"]")), Err(Error::InvalidEvent));
    assert_eq!(parse_event(&pchars("[1.5,\"o\",5]")), Err(Error::InvalidEvent));
    assert_eq!(parse_event(&pchars("[2.0,\"m\"]")), Err(Error::InvalidEvent));
}

#[test]
fn malformed_json_aborts_the_line() {
    assert_eq!(parse_event(&pchars("")), Err(Error::MalformedJson));
    assert_eq!(parse_event(&pchars("[1.5,\"o\",\"x\"")), Err(Error::MalformedJson));
    assert_eq!(parse_event(&pchars("[1.5,\"o\",\"x\"] y")), Err(Error::MalformedJson));
    assert_eq!(parse_event(&pchars("[01,\"o\",\"x\"]")), Err(Error::MalformedJson));
    assert_eq!(parse_event(&pchars("[1.5,\"o\",\"\\q\"]")), Err(Error::MalformedJson));
    assert_eq!(parse_event(&pchars("tru")), Err(Error::MalformedJson));
}

#[test]
fn string_escapes_decode() {
    let ev = parse_event(&pchars("[0.5,\"o\",\"a\\u001b[1m\\n\\t\\\\\\\"/\"]")).unwrap();
    match ev {
        Event::Output { data, .. } => {
            assert_eq!(data, pchars("a\u{1b}[1m\n\t\\\"/"));
        },
        _ => panic!("expected an output event"),
    }
}

#[test]
fn surrogate_pairs_decode() {
    let ev = parse_event(&pchars("[0.0,\"o\",\"\\ud83d\\ude00\"]")).unwrap();
    match ev {
        Event::Output { data, .. } => {
            assert_eq!(data, pchars("\u{1F600}"));
        },
        _ => panic!("expected an output event"),
    }
    // a lone surrogate is structurally malformed
    assert_eq!(parse_event(&pchars("[0.0,\"o\",\"\\ud83d\"]")), Err(Error::MalformedJson));
}

#[test]
fn times_are_exact_microseconds() {
    let t = |s: &str| match parse_event(&pchars(&format!("[{},\"o\",\"x\"]", s))).unwrap() {
        Event::Output { time, .. } => time,
        _ => panic!(),
    };
    assert_eq!(t("0"), 0);
    assert_eq!(t("-1.5"), -1_500_000);
    assert_eq!(t("1e3"), 1_000_000_000);
    assert_eq!(t("2.5e-1"), 250_000);
    assert_eq!(t("0.0000015"), 1);
    assert_eq!(t("0.0000019"), 1);
    assert_eq!(t("-0.0000019"), -1);
    assert_eq!(t("123.456789"), 123_456_789);
    assert_eq!(t("1e300"), i64::MAX);
    assert_eq!(t("-1e300"), i64::MIN);
    assert_eq!(t("1e-300"), 0);
    assert_eq!(t("0e99999999999999999999"), 0);
}

#[test]
fn file_round_trip() {
    let text = pchars(
        "{\"width\":80,\"height\":24}\n[1.5,\"o\",\"hello\"]\n[2.0,\"m\",\"chapter1\"]\r\n[3.0,\"x\",\"?\"]\n",
    );
    let sc = parse_file(&text).unwrap();
    assert_eq!(sc.header.width, 80);
    assert_eq!(sc.header.height, 24);
    assert_eq!(sc.events.len(), 3);
    assert!(matches!(&sc.events[0], Event::Output { time: 1_500_000, .. }));
    assert!(matches!(&sc.events[1], Event::Marker { time: 2_000_000, .. }));
    assert!(matches!(&sc.events[2], Event::Unknown { time: 3_000_000, .. }));
}

#[test]
fn file_errors() {
    assert_eq!(parse_file(&pchars("")).err(), Some(Error::EmptyFile));
    assert_eq!(parse_file(&pchars("{\"width\":80}")).err(), Some(Error::MalformedJson));
    assert_eq!(
        parse_file(&pchars("{\"width\":80,\"height\":24}\n[bad")).err(),
        Some(Error::MalformedJson)
    );
    assert_eq!(
        parse_file(&pchars("{\"width\":80,\"height\":24}\n[1.5,\"o\"]")).err(),
        Some(Error::InvalidEvent)
    );
    assert_eq!(
        parse_file(&pchars("{\"width\":80,\"height\":24}\n[null,\"o\",\"x\"]")).err(),
        Some(Error::InvalidEventTime)
    );
}

#[test]
fn cut_round_trip() {
    let c = parse_cut(&pchars(
        "{\"first_marker\":1,\"last_marker\":2,\"start_immediately\":true}",
    ))
    .unwrap();
    assert_eq!(
        c,
        Cut { first_marker: Some(1), last_marker: Some(2), start_immediately: true }
    );
    let c = parse_cut(&pchars("{\"start_immediately\":false}")).unwrap();
    assert_eq!(c, Cut { first_marker: None, last_marker: None, start_immediately: false });
    let c = parse_cut(&pchars(
        "{\"first_marker\":null,\"last_marker\":null,\"start_immediately\":true,\"extra\":[1]}",
    ))
    .unwrap();
    assert_eq!(c, Cut { first_marker: None, last_marker: None, start_immediately: true });
}

#[test]
fn cut_errors() {
    assert_eq!(parse_cut(&pchars("{}")), Err(Error::MalformedCut));
    assert_eq!(parse_cut(&pchars("5")), Err(Error::MalformedCut));
    assert_eq!(parse_cut(&pchars("{\"start_immediately\":1}")), Err(Error::MalformedCut));
    assert_eq!(
        parse_cut(&pchars("{\"start_immediately\":true,\"first_marker\":-1}")),
        Err(Error::MalformedCut)
    );
    assert_eq!(
        parse_cut(&pchars("{\"start_immediately\":true,\"start_immediately\":true}")),
        Err(Error::MalformedCut)
    );
    assert_eq!(parse_cut(&pchars("{\"start_immediately\":true")), Err(Error::MalformedCut));
}

#[test]
fn event_is_marker() {
    let m = Event::Marker { time: 0, label: vec![] };
    let o = Event::Output { time: 0, data: vec![] };
    assert!(m.is_marker());
    assert!(!o.is_marker());
}
