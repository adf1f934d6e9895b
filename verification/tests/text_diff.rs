use riff::diff::{diff, Line};

fn compare(old: &str, new: &str) -> Vec<Line> {
    diff(&String::from(old), &String::from(new))
}

#[test]
fn no_difference_between_same_strings() {
    assert_eq!(
        compare("hello\nworld", "hello\nworld"),
        vec![
            Line::Normal(String::from("hello")),
            Line::Normal(String::from("world"))
        ]
    );
}

#[test]
fn middle_difference() {
    assert_eq!(
        compare("hello\nhi\nworld", "hello\nbye\nworld"),
        vec![
            Line::Normal(String::from("hello")),
            Line::Deleted(String::from("hi")),
            Line::Added(String::from("bye")),
            Line::Normal(String::from("world"))
        ]
    );
}

#[test]
fn middle_difference_various_size() {
    assert_eq!(
        compare("hello\nhi\nmy\nworld", "hello\nbye\nworld"),
        vec![
            Line::Normal(String::from("hello")),
            Line::Deleted(String::from("hi")),
            Line::Deleted(String::from("my")),
            Line::Added(String::from("bye")),
            Line::Normal(String::from("world"))
        ]
    );
}

#[test]
fn middle_difference_extra() {
    assert_eq!(
        compare("hello\nworld", "hello\nbye\nworld"),
        vec![
            Line::Normal(String::from("hello")),
            Line::Added(String::from("bye")),
            Line::Normal(String::from("world"))
        ]
    );
}

#[test]
fn middle_difference_removed() {
    assert_eq!(
        compare("hello\nhi\nworld", "hello\nworld"),
        vec![
            Line::Normal(String::from("hello")),
            Line::Deleted(String::from("hi")),
            Line::Normal(String::from("world"))
        ]
    );
}

#[test]
fn after_added() {
    assert_eq!(
        compare("hello", "hello\nworld"),
        vec![
            Line::Normal(String::from("hello")),
            Line::Added(String::from("world"))
        ]
    );
}

#[test]
fn after_removed() {
    assert_eq!(
        compare("hello\nworld", "hello"),
        vec![
            Line::Normal(String::from("hello")),
            Line::Deleted(String::from("world"))
        ]
    );
}

#[test]
fn before_removed() {
    assert_eq!(
        compare("hello\nworld", "world"),
        vec![
            Line::Deleted(String::from("hello")),
            Line::Normal(String::from("world"))
        ]
    );
}

#[test]
fn before_added() {
    assert_eq!(
        compare("hello\nworld", "hey\nhello\nworld"),
        vec![
            Line::Added(String::from("hey")),
            Line::Normal(String::from("hello")),
            Line::Normal(String::from("world")),
        ]
    );
}

#[test]
fn totally_changed() {
    assert_eq!(
        compare("hello\nworld", "hi\nbuddy"),
        vec![
            Line::Deleted(String::from("hello")),
            Line::Deleted(String::from("world")),
            Line::Added(String::from("hi")),
            Line::Added(String::from("buddy")),
        ]
    );
}

#[test]
fn empty_texts_share_one_empty_line() {
    assert_eq!(compare("", ""), vec![Line::Normal(String::new())]);
}

#[test]
fn empty_text_against_one_line() {
    assert_eq!(
        compare("", "a"),
        vec![Line::Deleted(String::new()), Line::Added(String::from("a"))]
    );
}

#[test]
fn trailing_line_feed_adds_an_empty_line() {
    assert_eq!(
        compare("a", "a\n"),
        vec![Line::Normal(String::from("a")), Line::Added(String::new())]
    );
}

#[test]
fn carriage_return_makes_lines_differ() {
    assert_eq!(
        compare("a\r\nb", "a\nb"),
        vec![
            Line::Deleted(String::from("a\r")),
            Line::Added(String::from("a")),
            Line::Normal(String::from("b")),
        ]
    );
}

#[test]
fn same_text_is_all_normal() {
    let text = "one\n\ntwo\nthree\n";
    let expected: Vec<Line> = text
        .split('\n')
        .map(|line| Line::Normal(String::from(line)))
        .collect();
    assert_eq!(expected.len(), 5);
    assert_eq!(compare(text, text), expected);
}

#[test]
fn text_beyond_ascii_is_compared_by_lines() {
    assert_eq!(
        compare(
            "gr\u{fc}n\n\u{4e16}\u{754c}\nend",
            "gr\u{fc}n\n\u{1f600}\nend"
        ),
        vec![
            Line::Normal(String::from("gr\u{fc}n")),
            Line::Deleted(String::from("\u{4e16}\u{754c}")),
            Line::Added(String::from("\u{1f600}")),
            Line::Normal(String::from("end")),
        ]
    );
}

#[test]
fn rendering_puts_the_marker_first() {
    assert_eq!(Line::Normal(String::from("same")).render(), " |same");
    assert_eq!(Line::Added(String::from("new")).render(), "+|new");
    assert_eq!(Line::Deleted(String::from("old")).render(), "-|old");
    assert_eq!(Line::Added(String::new()).render(), "+|");
}

#[test]
fn rendered_diff_reads_top_to_bottom() {
    let rendered: Vec<String> = compare("hello\nhi\nworld", "hello\nbye\nworld")
        .iter()
        .map(|line| line.render())
        .collect();
    assert_eq!(rendered, vec![" |hello", "-|hi", "+|bye", " |world"]);
}
