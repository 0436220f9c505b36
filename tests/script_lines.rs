use pagelayout::script::{key_from, parse_line, Directive, Key, LayoutError, Line};

fn command(key: Key, arg: &str) -> Line {
    Line::Command(Directive { key, arg: arg.to_string() })
}

#[test]
fn blank_and_comment_lines_are_skipped() {
    assert_eq!(parse_line(""), Ok(Line::Skip));
    assert_eq!(parse_line("#comment"), Ok(Line::Skip));
    assert_eq!(parse_line("#x\t50"), Ok(Line::Skip));
}

#[test]
fn key_and_argument() {
    assert_eq!(parse_line("x\t50"), Ok(command(Key::X, "50")));
    assert_eq!(parse_line("ypad\t+2"), Ok(command(Key::YPad, "+2")));
    assert_eq!(parse_line("width\t"), Ok(command(Key::Width, "")));
    assert_eq!(
        parse_line("textbox\thello  world\tignored"),
        Ok(command(Key::TextBox, "hello  world"))
    );
    assert_eq!(parse_line("rectangle"), Ok(command(Key::Rectangle, "")));
    assert_eq!(parse_line("rectangle\t9"), Ok(command(Key::Rectangle, "9")));
}

#[test]
fn every_key_is_recognised() {
    let keys = [
        ("x", Key::X),
        ("y", Key::Y),
        ("xpad", Key::XPad),
        ("ypad", Key::YPad),
        ("width", Key::Width),
        ("height", Key::Height),
        ("spacing", Key::Spacing),
        ("size", Key::Size),
        ("justify", Key::Justify),
        ("rectangle", Key::Rectangle),
        ("textbox", Key::TextBox),
        ("text", Key::Text),
    ];
    for (name, key) in keys {
        assert_eq!(key_from(name), Some(key));
    }
    assert_eq!(key_from("X"), None);
    assert_eq!(key_from("texts"), None);
    assert_eq!(key_from(""), None);
}

#[test]
fn missing_argument_is_an_error() {
    assert_eq!(parse_line("x"), Err(LayoutError::MissingArgument));
    assert_eq!(parse_line("textbox"), Err(LayoutError::MissingArgument));
    assert_eq!(parse_line("justify"), Err(LayoutError::MissingArgument));
}

#[test]
fn unknown_key_is_reported_not_fatal() {
    assert_eq!(parse_line("circle\t5"), Ok(Line::Unknown));
    assert_eq!(parse_line("circle"), Ok(Line::Unknown));
    assert_eq!(parse_line(" x\t5"), Ok(Line::Unknown));
}
