use riff::diff::{diff_lines, extract_common, generate_sequence, Line};
use riff::table::{fill_table, init_table};

fn lines(items: &[&str]) -> Vec<String> {
    items.iter().map(|s| String::from(*s)).collect()
}

fn normal(text: &str) -> Line {
    Line::Normal(String::from(text))
}

fn added(text: &str) -> Line {
    Line::Added(String::from(text))
}

fn deleted(text: &str) -> Line {
    Line::Deleted(String::from(text))
}

fn old_side(script: &[Line]) -> Vec<String> {
    let mut out = Vec::new();
    for line in script {
        match line {
            Line::Normal(text) | Line::Deleted(text) => out.push(text.clone()),
            Line::Added(_) => {}
        }
    }
    out
}

fn new_side(script: &[Line]) -> Vec<String> {
    let mut out = Vec::new();
    for line in script {
        match line {
            Line::Normal(text) | Line::Added(text) => out.push(text.clone()),
            Line::Deleted(_) => {}
        }
    }
    out
}

fn unchanged(script: &[Line]) -> Vec<String> {
    let mut out = Vec::new();
    for line in script {
        if let Line::Normal(text) = line {
            out.push(text.clone());
        }
    }
    out
}

fn samples() -> Vec<(Vec<String>, Vec<String>)> {
    vec![
        (lines(&[]), lines(&[])),
        (lines(&[]), lines(&["a", "b"])),
        (lines(&["a", "b"]), lines(&[])),
        (lines(&["a"]), lines(&["b"])),
        (lines(&["a", "b"]), lines(&["b", "a"])),
        (lines(&["a", "b", "c"]), lines(&["b", "c", "d"])),
        (lines(&["a", "b", "c", "a", "b"]), lines(&["b", "a", "c", "b", "a"])),
        (lines(&["x", "x", "x"]), lines(&["x", "x"])),
        (lines(&["", "a", ""]), lines(&["a", "", ""])),
        (
            lines(&["a", "g", "c", "a", "t"]),
            lines(&["g", "a", "c"]),
        ),
    ]
}

#[test]
fn init_table_is_all_zero() {
    let table = init_table(&lines(&["a", "b"]), &lines(&["c", "d", "e"]));
    assert_eq!(table, vec![vec![0usize; 4]; 3]);
}

#[test]
fn init_table_of_empty_sequences_has_one_cell() {
    let table = init_table(&lines(&[]), &lines(&[]));
    assert_eq!(table, vec![vec![0usize]]);
}

#[test]
fn fill_table_holds_prefix_lengths() {
    let old = lines(&["a", "b", "c"]);
    let new = lines(&["b", "c", "d"]);
    let mut table = init_table(&old, &new);
    fill_table(&mut table, &old, &new);
    assert_eq!(
        table,
        vec![
            vec![0, 0, 0, 0],
            vec![0, 0, 0, 0],
            vec![0, 1, 1, 1],
            vec![0, 1, 2, 2],
        ]
    );
}

#[test]
fn fill_table_overwrites_what_was_there() {
    let old = lines(&["a", "b"]);
    let new = lines(&["a", "c", "b"]);
    let mut table = vec![vec![7usize; 4]; 3];
    fill_table(&mut table, &old, &new);
    assert_eq!(
        table,
        vec![vec![0, 0, 0, 0], vec![0, 1, 1, 1], vec![0, 1, 1, 2]]
    );
}

#[test]
fn table_grows_by_at_most_one_along_both_axes() {
    for (old, new) in samples() {
        let mut table = init_table(&old, &new);
        fill_table(&mut table, &old, &new);
        assert_eq!(table.len(), old.len() + 1);
        for j in 0..=old.len() {
            assert_eq!(table[j].len(), new.len() + 1);
            assert_eq!(table[j][0], 0);
            for i in 1..=new.len() {
                assert!(table[j][i - 1] <= table[j][i]);
                assert!(table[j][i] <= table[j][i - 1] + 1);
            }
        }
        for i in 0..=new.len() {
            assert_eq!(table[0][i], 0);
            for j in 1..=old.len() {
                assert!(table[j - 1][i] <= table[j][i]);
                assert!(table[j][i] <= table[j - 1][i] + 1);
            }
        }
    }
}

#[test]
fn generate_sequence_walks_the_table_back() {
    let old = lines(&["a", "b", "c"]);
    let new = lines(&["b", "c", "d"]);
    let mut table = init_table(&old, &new);
    fill_table(&mut table, &old, &new);
    assert_eq!(
        generate_sequence(&table, &old, &new),
        vec![deleted("a"), normal("b"), normal("c"), added("d")]
    );
}

#[test]
fn both_empty_gives_empty_script() {
    assert_eq!(diff_lines(&lines(&[]), &lines(&[])), Vec::<Line>::new());
}

#[test]
fn from_empty_everything_is_added() {
    assert_eq!(
        diff_lines(&lines(&[]), &lines(&["a", "b", "c"])),
        vec![added("a"), added("b"), added("c")]
    );
}

#[test]
fn to_empty_everything_is_deleted() {
    assert_eq!(
        diff_lines(&lines(&["a", "b", "c"]), &lines(&[])),
        vec![deleted("a"), deleted("b"), deleted("c")]
    );
}

#[test]
fn same_sequence_is_unchanged() {
    let s = lines(&["a", "b", "a", "", "c"]);
    assert_eq!(
        diff_lines(&s, &s),
        vec![normal("a"), normal("b"), normal("a"), normal(""), normal("c")]
    );
}

#[test]
fn tie_puts_the_addition_last() {
    assert_eq!(
        diff_lines(&lines(&["a"]), &lines(&["b"])),
        vec![deleted("a"), added("b")]
    );
}

#[test]
fn tie_between_two_equally_long_matches_keeps_the_earlier_new_line() {
    assert_eq!(
        diff_lines(&lines(&["a", "b"]), &lines(&["b", "a"])),
        vec![deleted("a"), normal("b"), added("a")]
    );
}

#[test]
fn longer_match_wins_over_the_tie_rule() {
    assert_eq!(
        diff_lines(&lines(&["a", "b", "x"]), &lines(&["y", "a", "b"])),
        vec![added("y"), normal("a"), normal("b"), deleted("x")]
    );
}

#[test]
fn greetings() {
    assert_eq!(
        diff_lines(&lines(&["hello", "world"]), &lines(&["hello", "world"])),
        vec![normal("hello"), normal("world")]
    );
    assert_eq!(
        diff_lines(
            &lines(&["hello", "hi", "world"]),
            &lines(&["hello", "bye", "world"])
        ),
        vec![normal("hello"), deleted("hi"), added("bye"), normal("world")]
    );
    assert_eq!(
        diff_lines(&lines(&["hello", "world"]), &lines(&["world"])),
        vec![deleted("hello"), normal("world")]
    );
    assert_eq!(
        diff_lines(&lines(&["hello", "world"]), &lines(&["hi", "buddy"])),
        vec![deleted("hello"), deleted("world"), added("hi"), added("buddy")]
    );
    assert_eq!(
        diff_lines(&lines(&["hello", "world"]), &lines(&["hey", "hello", "world"])),
        vec![added("hey"), normal("hello"), normal("world")]
    );
}

#[test]
fn script_spells_both_sequences() {
    for (old, new) in samples() {
        let script = diff_lines(&old, &new);
        assert_eq!(old_side(&script), old);
        assert_eq!(new_side(&script), new);
    }
}

#[test]
fn script_length_is_within_bounds() {
    for (old, new) in samples() {
        let script = diff_lines(&old, &new);
        assert!(script.len() >= old.len().max(new.len()));
        assert!(script.len() <= old.len() + new.len());
    }
}

#[test]
fn script_length_counts_shared_lines_once() {
    let old = lines(&["a", "g", "c", "a", "t"]);
    let new = lines(&["g", "a", "c"]);
    let script = diff_lines(&old, &new);
    assert_eq!(unchanged(&script).len(), 2);
    assert_eq!(script.len(), 5 + 3 - 2);
}

#[test]
fn unchanged_count_is_last_table_cell() {
    for (old, new) in samples() {
        let mut table = init_table(&old, &new);
        fill_table(&mut table, &old, &new);
        let script = diff_lines(&old, &new);
        assert_eq!(unchanged(&script).len(), table[old.len()][new.len()]);
    }
}

#[test]
fn extract_common_gives_the_unchanged_lines() {
    assert_eq!(
        extract_common(&lines(&["a", "b", "c"]), &lines(&["b", "c", "d"])),
        lines(&["b", "c"])
    );
    assert_eq!(
        extract_common(&lines(&["a", "b"]), &lines(&["b", "a"])),
        lines(&["b"])
    );
    assert_eq!(
        extract_common(&lines(&["a"]), &lines(&["b"])),
        lines(&[])
    );
    assert_eq!(extract_common(&lines(&[]), &lines(&[])), lines(&[]));
}

#[test]
fn extract_common_agrees_with_the_script() {
    for (old, new) in samples() {
        assert_eq!(
            extract_common(&old, &new),
            unchanged(&diff_lines(&old, &new))
        );
    }
}

#[test]
fn repeated_lines() {
    assert_eq!(
        diff_lines(&lines(&["x", "x", "x"]), &lines(&["x", "x"])),
        vec![deleted("x"), normal("x"), normal("x")]
    );
}
