use riff::lines::split_lines;

fn split(text: &str) -> Vec<String> {
    split_lines(&String::from(text))
}

fn std_split(text: &str) -> Vec<String> {
    text.split('\n').map(String::from).collect()
}

#[test]
fn empty_text_has_one_empty_line() {
    assert_eq!(split(""), vec![String::new()]);
}

#[test]
fn text_without_line_feed_is_one_line() {
    assert_eq!(split("hello world"), vec![String::from("hello world")]);
}

#[test]
fn two_lines() {
    assert_eq!(split("hello\nworld"), vec!["hello", "world"]);
}

#[test]
fn trailing_line_feed_gives_trailing_empty_line() {
    assert_eq!(split("hello\n"), vec!["hello", ""]);
}

#[test]
fn leading_line_feed_gives_leading_empty_line() {
    assert_eq!(split("\nhello"), vec!["", "hello"]);
}

#[test]
fn only_line_feeds() {
    assert_eq!(split("\n"), vec!["", ""]);
    assert_eq!(split("\n\n\n"), vec!["", "", "", ""]);
}

#[test]
fn empty_lines_in_the_middle_stay() {
    assert_eq!(split("a\n\n\nb"), vec!["a", "", "", "b"]);
}

#[test]
fn carriage_returns_and_blanks_stay() {
    assert_eq!(split("a\r\n b\t\n\r"), vec!["a\r", " b\t", "\r"]);
}

#[test]
fn line_count_is_line_feed_count_plus_one() {
    for text in ["", "a", "\n", "a\nb\nc", "a\nb\nc\n", "\n\n\n\n\n"] {
        let feeds = text.chars().filter(|c| *c == '\n').count();
        assert_eq!(split(text).len(), feeds + 1);
    }
}

#[test]
fn joining_gives_the_text_back() {
    for text in ["", "a", "\n", "a\nb\nc", "a\r\nb\nc\n", "\n\nx\n\n"] {
        assert_eq!(split(text).join("\n"), text);
    }
}

#[test]
fn characters_of_every_width_are_kept() {
    assert_eq!(
        split("a\u{e9}\n\u{4e16}\u{754c}\n\u{1f600}\n\n\u{7f}\u{80}\u{7ff}\u{800}\u{ffff}\u{10000}"),
        vec![
            "a\u{e9}",
            "\u{4e16}\u{754c}",
            "\u{1f600}",
            "",
            "\u{7f}\u{80}\u{7ff}\u{800}\u{ffff}\u{10000}"
        ]
    );
}

#[test]
fn characters_whose_code_ends_in_the_line_feed_bits_do_not_split() {
    // U+010A, U+0A0A and U+1000A carry the bits of the line feed in their code.
    assert_eq!(
        split("\u{10a}\u{a0a}\u{1000a}\n\u{8a}"),
        vec!["\u{10a}\u{a0a}\u{1000a}", "\u{8a}"]
    );
}

#[test]
fn agrees_with_the_standard_split() {
    for text in [
        "",
        "\n",
        "x",
        "x\n",
        "\nx",
        "hello\nworld",
        "a\r\nb\r\n",
        "\u{e9}\n\u{4e16}\n\n\u{1f600}",
        "  \n\t\n ",
    ] {
        assert_eq!(split(text), std_split(text));
    }
}
