use pagelayout::wrap::{split_words, Wrapper};

/// A fixed-advance measurer: every character is `advance` thousandths wide.
fn wrap_with(text: &str, avail: i64, advance: i64) -> Vec<String> {
    let mut w = Wrapper::new(text, avail);
    while let Some(candidate) = w.candidate() {
        let measured = candidate.chars().count() as i64 * advance;
        w.feed(measured);
    }
    assert!(w.done());
    w.finish()
}

#[test]
fn words_split_on_ascii_whitespace() {
    assert_eq!(
        split_words("  the quick\tbrown\n fox\r\n"),
        vec!["the", "quick", "brown", "fox"]
    );
    assert_eq!(split_words(""), Vec::<String>::new());
    assert_eq!(split_words(" \t "), Vec::<String>::new());
    assert_eq!(split_words("one"), vec!["one"]);
}

#[test]
fn fitting_text_is_one_line() {
    assert_eq!(wrap_with("hello   world", 100_000, 1_000), vec!["hello world"]);
}

#[test]
fn empty_text_is_one_empty_line() {
    assert_eq!(wrap_with("", 100_000, 1_000), vec![""]);
    assert_eq!(wrap_with("   ", 100_000, 1_000), vec![""]);
}

#[test]
fn wrapping_keeps_words_in_order() {
    let text = "the quick brown fox jumps over the lazy dog";
    let lines = wrap_with(text, 10_000, 1_000);
    assert!(lines.len() >= 2);
    let rejoined: Vec<String> = lines
        .iter()
        .flat_map(|l| l.split_whitespace().map(|w| w.to_string()))
        .collect();
    assert_eq!(rejoined, split_words(text));
    assert_eq!(lines, vec!["the quick", "brown fox", "jumps over", "the lazy", "dog"]);
}

#[test]
fn candidate_line_at_exact_width_fits() {
    assert_eq!(wrap_with("ab cd", 5_000, 1_000), vec!["ab cd"]);
    assert_eq!(wrap_with("ab cd", 4_999, 1_000), vec!["ab", "cd"]);
}

#[test]
fn wide_single_word_takes_one_line() {
    let lines = wrap_with("supercalifragilistic", 5_000, 1_000);
    assert_eq!(lines, vec!["", "supercalifragilistic"]);
    assert_eq!(lines.iter().filter(|l| l.contains("supercalifragilistic")).count(), 1);
}

#[test]
fn wide_word_inside_text_stands_alone() {
    let lines = wrap_with("a b verylongword c d", 4_000, 1_000);
    assert_eq!(lines, vec!["a b", "verylongword", "c d"]);
}

#[test]
fn candidate_offers_the_next_line() {
    let mut w = Wrapper::new("one two", 100_000);
    assert_eq!(w.candidate(), Some("one".to_string()));
    w.feed(3_000);
    assert_eq!(w.candidate(), Some("one two".to_string()));
    w.feed(200_000);
    assert_eq!(w.candidate(), None);
    assert_eq!(w.finish(), vec!["one", "two"]);
}
