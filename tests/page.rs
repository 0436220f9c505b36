use pagelayout::layout::{justify_x, parse_justify, DrawOp, Justify, Layout};
use pagelayout::script::LayoutError;
use pagelayout::session::{Action, Session};

/// Runs a script with a fixed-advance measurer: each character is half the
/// font size wide.
fn run(session: &mut Session, script: &str) -> Result<Vec<DrawOp>, LayoutError> {
    let mut out = Vec::new();
    for line in script.split('\n') {
        let mut action = session.feed_line(line)?;
        loop {
            match action {
                Action::Skip | Action::Unknown => break,
                Action::Draw(ops) => {
                    out.extend(ops);
                    break;
                }
                Action::Measure(t) => {
                    let advance = session.layout().font_size / 2;
                    action = session.feed_width(t.chars().count() as i64 * advance)?;
                }
            }
        }
    }
    Ok(out)
}

#[test]
fn starting_state() {
    let l = Layout::new();
    assert_eq!((l.x, l.y), (100_000, 100_000));
    assert_eq!((l.pad_x, l.pad_y), (6_000, 6_000));
    assert_eq!((l.width, l.height), (100_000, 100_000));
    assert_eq!(l.font_size, 12_000);
    assert_eq!(l.justify, Justify::Left);
}

#[test]
fn justification_offsets() {
    assert_eq!(justify_x(Justify::Center, 10_000, 200_000, 50_000), 10_000 + 75_000);
    assert_eq!(justify_x(Justify::Right, 10_000, 200_000, 50_000), 10_000 + 150_000);
    assert_eq!(justify_x(Justify::Left, 10_000, 200_000, 50_000), 10_000);
    assert_eq!(justify_x(Justify::Center, 0, 0, 3), -2);
    assert_eq!(justify_x(Justify::Center, 0, 3, 0), 1);
}

#[test]
fn justify_argument() {
    assert_eq!(parse_justify("center"), Justify::Center);
    assert_eq!(parse_justify("right"), Justify::Right);
    assert_eq!(parse_justify("left"), Justify::Left);
    assert_eq!(parse_justify("middle"), Justify::Left);
    assert_eq!(parse_justify(""), Justify::Left);
}

#[test]
fn comments_and_blank_lines_draw_nothing() {
    let mut s = Session::new();
    let ops = run(&mut s, "#comment\n\n# another\n\n").unwrap();
    assert!(ops.is_empty());
    assert_eq!(s.layout(), Layout::new());
}

#[test]
fn rectangle_at_cursor() {
    let mut s = Session::new();
    let ops = run(&mut s, "x\t50\ny\t50\nwidth\t200\nheight\t30\nrectangle").unwrap();
    assert_eq!(ops, vec![DrawOp::Rectangle(50_000, 50_000, 200_000, 30_000), DrawOp::Stroke]);
    assert_eq!((s.layout().x, s.layout().y), (50_000, 50_000));
}

#[test]
fn narrow_textbox_wraps() {
    let mut s = Session::new();
    let ops = run(&mut s, "size\t20\ntextbox\tthe quick brown fox").unwrap();
    // Each character is 10 wide; lines may take 100 - 2 * 6 = 88.
    let lines: Vec<&String> = ops
        .iter()
        .filter_map(|o| match o {
            DrawOp::ShowText(t) => Some(t),
            _ => None,
        })
        .collect();
    assert!(lines.len() >= 2);
    for t in &lines {
        assert!((t.chars().count() as i64) * 10_000 < 88_000);
    }
    assert_eq!(lines, vec!["the", "quick", "brown", "fox"]);
    assert_eq!(
        ops,
        vec![
            DrawOp::SetFontSize(20_000),
            DrawOp::MoveTo(106_000, 126_000),
            DrawOp::ShowText("the".to_string()),
            DrawOp::MoveTo(106_000, 146_000),
            DrawOp::ShowText("quick".to_string()),
            DrawOp::MoveTo(106_000, 166_000),
            DrawOp::ShowText("brown".to_string()),
            DrawOp::MoveTo(106_000, 186_000),
            DrawOp::ShowText("fox".to_string()),
            DrawOp::Rectangle(100_000, 100_000, 100_000, 92_000),
            DrawOp::Stroke,
        ]
    );
    assert_eq!(s.layout().y, 192_000);
}

#[test]
fn fitting_textbox_height() {
    let mut s = Session::new();
    let ops = run(&mut s, "width\t500\ntextbox\thello world").unwrap();
    assert_eq!(
        ops,
        vec![
            DrawOp::MoveTo(106_000, 118_000),
            DrawOp::ShowText("hello world".to_string()),
            DrawOp::Rectangle(100_000, 100_000, 500_000, 24_000),
            DrawOp::Stroke,
        ]
    );
    assert_eq!(s.layout().y, 124_000);
}

#[test]
fn empty_textbox_draws_one_line() {
    let mut s = Session::new();
    let ops = run(&mut s, "textbox\t").unwrap();
    assert_eq!(
        ops,
        vec![
            DrawOp::MoveTo(106_000, 118_000),
            DrawOp::ShowText(String::new()),
            DrawOp::Rectangle(100_000, 100_000, 100_000, 24_000),
            DrawOp::Stroke,
        ]
    );
}

#[test]
fn justified_text_line() {
    let mut s = Session::new();
    let ops = run(&mut s, "width\t200\njustify\tcenter\ntext\tabcd").unwrap();
    // "abcd" is 4 * 6 = 24 wide: centred at 100 + (200 - 24) / 2.
    assert_eq!(ops, vec![DrawOp::MoveTo(188_000, 112_000), DrawOp::ShowText("abcd".to_string())]);
    assert_eq!(s.layout().y, 112_000);
    let ops = run(&mut s, "justify\tright\ntext\tab").unwrap();
    assert_eq!(ops, vec![DrawOp::MoveTo(288_000, 124_000), DrawOp::ShowText("ab".to_string())]);
}

#[test]
fn relative_values_and_spacing() {
    let mut s = Session::new();
    run(&mut s, "x\t+10\ny\t-20.5\nxpad\t3\nypad\t+1\nheight\t-50\nspacing\t5").unwrap();
    assert_eq!(s.layout().x, 110_000);
    assert_eq!(s.layout().y, 84_500);
    assert_eq!((s.layout().pad_x, s.layout().pad_y), (3_000, 7_000));
    assert_eq!(s.layout().height, 50_000);
    let mut s = Session::new();
    run(&mut s, "spacing\t-5").unwrap();
    assert_eq!(s.layout().y, 95_000);
}

#[test]
fn errors_stop_the_script() {
    let mut s = Session::new();
    assert_eq!(run(&mut s, "x\tabc"), Err(LayoutError::MalformedNumber));
    assert_eq!(s.layout(), Layout::new());
    assert_eq!(run(&mut s, "size\t+"), Err(LayoutError::MalformedNumber));
    assert_eq!(run(&mut s, "y"), Err(LayoutError::MissingArgument));
    assert_eq!(run(&mut s, "y\t1000000000000\nspacing\t1"), Err(LayoutError::OutOfRange));
}

#[test]
fn unknown_lines_are_ignored() {
    let mut s = Session::new();
    let ops = run(&mut s, "circle\t5\nrectangle").unwrap();
    assert_eq!(ops, vec![DrawOp::Rectangle(100_000, 100_000, 100_000, 100_000), DrawOp::Stroke]);
}

#[test]
fn huge_measurement_is_refused() {
    let mut l = Layout::new();
    assert_eq!(l.place_text("x", i64::MAX), Err(LayoutError::OutOfRange));
    assert_eq!(l, Layout::new());
}

#[test]
fn textbox_through_layout_calls() {
    let mut l = Layout::new();
    let mut w = l.start_textbox("aa bb");
    assert_eq!(w.candidate(), Some("aa".to_string()));
    w.feed(2_000);
    assert_eq!(w.candidate(), Some("aa bb".to_string()));
    w.feed(89_000);
    let ops = l.finish_textbox(w).unwrap();
    assert_eq!(
        ops,
        vec![
            DrawOp::MoveTo(106_000, 118_000),
            DrawOp::ShowText("aa".to_string()),
            DrawOp::MoveTo(106_000, 130_000),
            DrawOp::ShowText("bb".to_string()),
            DrawOp::Rectangle(100_000, 100_000, 100_000, 36_000),
            DrawOp::Stroke,
        ]
    );
    assert_eq!(l.y, 136_000);
}

#[test]
fn session_asks_for_widths() {
    let mut s = Session::new();
    match s.feed_line("text\thello").unwrap() {
        Action::Measure(t) => assert_eq!(t, "hello"),
        other => panic!("unexpected {:?}", other),
    }
    match s.feed_width(30_000).unwrap() {
        Action::Draw(ops) => assert_eq!(
            ops,
            vec![DrawOp::MoveTo(100_000, 112_000), DrawOp::ShowText("hello".to_string())]
        ),
        other => panic!("unexpected {:?}", other),
    }
    match s.feed_line("textbox\t  ").unwrap() {
        Action::Draw(ops) => assert_eq!(ops.len(), 4),
        other => panic!("unexpected {:?}", other),
    }
    assert!(matches!(s.feed_line("# note").unwrap(), Action::Skip));
    assert!(matches!(s.feed_line("circle\t1").unwrap(), Action::Unknown));
}
