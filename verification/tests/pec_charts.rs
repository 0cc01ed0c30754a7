use phire::pec::{count_events, ensure_counts, EventCounts};
use phire::pec_parse::{parse_pec, ArgKind, PecErrorKind, PecOp};

const SAMPLE: &str = "150\nbp 0.00 120\ncv 0 0 7.0\ncp 0 0 1024 700\nn1 0 1.00 512 1 0\n# 1.50\n& 2.0\nn2 1 2.00 3.00 256 0 1 # 2.0 & 0.5\ncm 0 4 5 1024 700 3\ncr 0 4 6 90 99\ncf 0 4 6 255\ncd 1 0 30\nca 1 0 255\n";

#[test]
fn counts_events_per_line() {
    let (counts, bpm) = count_events(SAMPLE);
    assert_eq!(bpm, 1);
    assert_eq!(counts.len(), 2);
    assert_eq!(counts[0].speed_events, 1);
    assert_eq!(counts[0].move_x_events, 2);
    assert_eq!(counts[0].move_y_events, 2);
    assert_eq!(counts[0].rotate_events, 1);
    assert_eq!(counts[0].alpha_events, 1);
    assert_eq!(counts[0].notes, 1);
    assert_eq!(counts[1].notes, 1);
    assert_eq!(counts[1].rotate_events, 1);
    assert_eq!(counts[1].alpha_events, 1);
}

#[test]
fn ensure_counts_grows_with_zeros() {
    let mut v: Vec<EventCounts> = Vec::new();
    ensure_counts(&mut v, 3).notes += 2;
    assert_eq!(v.len(), 4);
    assert_eq!(v[3].notes, 2);
    assert_eq!(v[0], EventCounts::default());
}

#[test]
fn parses_a_chart_into_commands() {
    let s = parse_pec(SAMPLE).expect("the sample reads");
    assert_eq!(s.offset, "150");
    let ops: Vec<PecOp> = s.commands.iter().map(|c| c.op).collect();
    assert_eq!(
        ops,
        vec![
            PecOp::Bpm,
            PecOp::SetSpeed,
            PecOp::SetPosition,
            PecOp::Click,
            PecOp::NoteSpeed,
            PecOp::NoteSize,
            PecOp::Hold,
            PecOp::MovePosition,
            PecOp::MoveRotation,
            PecOp::MoveAlpha,
            PecOp::SetRotation,
            PecOp::SetAlpha,
        ]
    );
    assert_eq!(s.commands[0].args, vec!["0.00", "120"]);
    let click = &s.commands[3];
    assert_eq!((click.line, click.above, click.fake), (0, true, false));
    assert_eq!(click.args, vec!["1.00", "512"]);
    let hold = &s.commands[6];
    assert_eq!((hold.line, hold.above, hold.fake), (1, false, true));
    assert_eq!(hold.args, vec!["2.00", "3.00", "256"]);
    assert_eq!(hold.speed.as_deref(), Some("2.0"));
    assert_eq!(hold.size.as_deref(), Some("0.5"));
    assert_eq!(s.commands[7].args, vec!["4", "5", "1024", "700"]);
    assert_eq!(s.commands[7].tween, 3);
    // tween numbers past the table fall back to its first entry
    assert_eq!(s.commands[8].tween, 0);
    assert_eq!(s.commands[9].args, vec!["4", "6", "255"]);
}

#[test]
fn a_word_after_a_note_that_is_not_a_marker_is_passed_over() {
    let s = parse_pec("0\nbp 0 120\nn1 0 1 0 1 0 x").unwrap();
    assert_eq!(s.commands[1].speed, None);
    let e = parse_pec("0\nbp 0 120\nn1 0 1 0 1 0 x y z").unwrap_err();
    assert_eq!((e.line, e.kind, e.token.as_str()), (3, PecErrorKind::UnexpectedExtra, "z"));
}

#[test]
fn refuses_each_kind_of_error() {
    let e = parse_pec("\n").unwrap_err();
    assert_eq!((e.line, e.kind), (1, PecErrorKind::Missing(ArgKind::F64)));
    let e = parse_pec("abc\n").unwrap_err();
    assert_eq!((e.line, e.kind), (1, PecErrorKind::Malformed(ArgKind::F64)));
    let e = parse_pec("0 1").unwrap_err();
    assert_eq!((e.line, e.kind, e.token.as_str()), (1, PecErrorKind::UnexpectedExtra, "1"));
    let e = parse_pec("0\ncv 0 0 1\nbp 0 120").unwrap_err();
    assert_eq!((e.line, e.kind), (3, PecErrorKind::BpmAfterNotes));
    let e = parse_pec("0\n# 1.0").unwrap_err();
    assert_eq!((e.line, e.kind), (2, PecErrorKind::NoNotesInserted));
    let e = parse_pec("0\n# x").unwrap_err();
    assert_eq!((e.line, e.kind), (2, PecErrorKind::Malformed(ArgKind::F64)));
    let e = parse_pec("0\n& x").unwrap_err();
    assert_eq!((e.line, e.kind), (2, PecErrorKind::NoNotesInserted));
    let e = parse_pec("0\nn1 0 1 0 1 2").unwrap_err();
    assert_eq!((e.line, e.kind), (2, PecErrorKind::Expected01));
    let e = parse_pec("0\nn1 x").unwrap_err();
    assert_eq!((e.line, e.kind), (2, PecErrorKind::Malformed(ArgKind::Usize)));
    let e = parse_pec("0\nn2 0 1").unwrap_err();
    assert_eq!((e.line, e.kind), (2, PecErrorKind::Missing(ArgKind::F64)));
    let e = parse_pec("0\ncx 0 1").unwrap_err();
    assert_eq!((e.line, e.kind, e.token.as_str()), (2, PecErrorKind::UnknownCommand, "cx"));
    let e = parse_pec("0\ncx 0").unwrap_err();
    assert_eq!((e.line, e.kind), (2, PecErrorKind::Missing(ArgKind::F64)));
    let e = parse_pec("0\nzz").unwrap_err();
    assert_eq!((e.line, e.kind, e.token.as_str()), (2, PecErrorKind::UnknownCommand, "zz"));
    let e = parse_pec("0\ncm 0 0 1 2 3 q").unwrap_err();
    assert_eq!((e.line, e.kind), (2, PecErrorKind::Malformed(ArgKind::Tween)));
    let e = parse_pec("0\ncm 0 0 1 2 3 256").unwrap_err();
    assert_eq!((e.line, e.kind), (2, PecErrorKind::Malformed(ArgKind::Tween)));
    let e = parse_pec("0\ncp 0 0 1 2 3").unwrap_err();
    assert_eq!((e.line, e.kind, e.token.as_str()), (2, PecErrorKind::UnexpectedExtra, "3"));
}

#[test]
fn blank_lines_are_skipped() {
    let s = parse_pec("0\n\n   \nbp 0 120\n").unwrap();
    assert_eq!(s.commands.len(), 1);
}

#[test]
fn advance_counts_match_the_parsed_commands() {
    let (counts, bpm) = count_events(SAMPLE);
    let s = parse_pec(SAMPLE).unwrap();
    assert_eq!(bpm, s.commands.iter().filter(|c| c.op == PecOp::Bpm).count());
    for (id, c) in counts.iter().enumerate() {
        let on = |ops: &[PecOp]| s.commands.iter().filter(|x| x.line == id && ops.contains(&x.op)).count();
        assert_eq!(c.notes, on(&[PecOp::Click, PecOp::Hold, PecOp::Flick, PecOp::Drag]));
        assert_eq!(c.speed_events, on(&[PecOp::SetSpeed]));
        assert_eq!(c.alpha_events, on(&[PecOp::SetAlpha, PecOp::MoveAlpha]));
        assert_eq!(c.move_x_events, on(&[PecOp::SetPosition, PecOp::MovePosition]));
        assert_eq!(c.rotate_events, on(&[PecOp::SetRotation, PecOp::MoveRotation]));
    }
}

#[test]
fn counts_reach_the_largest_named_line() {
    let (counts, bpm) = count_events("0\ncx 5");
    assert_eq!(bpm, 0);
    assert_eq!(counts.len(), 6);
    assert!(counts.iter().all(|c| *c == EventCounts::default()));
    let (counts, bpm) = count_events("0\nbp 0 1\nbp 4 2\nn3 2 x\n# 1");
    assert_eq!(bpm, 2);
    assert_eq!(counts.len(), 3);
    assert_eq!(counts[2].notes, 1);
}
