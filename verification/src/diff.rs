//! The diff engine: from two texts, or two sequences of lines, to the script of
//! unchanged, added and deleted lines that turns the first into the second.

use vstd::prelude::*;
use vstd::string::StringExecFns;
use crate::lcs::{is_common_subsequence, lcs_len, lemma_lcs_len_of_prefixes};
use crate::script::{
    common, edit_script, last_entry, lemma_script_common, lemma_script_from_empty,
    lemma_script_identity, lemma_script_len, lemma_script_to_empty, lemma_script_transforms,
    lemma_sides_push, transforms, Entry,
};
use crate::lines::{lines_of, split_lines};
use crate::table::{fill_table, init_table, is_similarity_table, Table};

verus! {

/// One line of a diff.
#[derive(Clone, Debug, PartialEq, Eq, PartialOrd, Ord)]
pub enum Line {
    /// The line stands in both texts.
    Normal(String),
    /// The line stands in the new text only.
    Added(String),
    /// The line stands in the old text only.
    Deleted(String),
}

impl View for Line {
    type V = Entry<Seq<char>>;

    open spec fn view(&self) -> Entry<Seq<char>> {
        match *self {
            Line::Normal(text) => Entry::Unchanged(text@),
            Line::Added(text) => Entry::Added(text@),
            Line::Deleted(text) => Entry::Deleted(text@),
        }
    }
}

impl DeepView for Line {
    type V = Entry<Seq<char>>;

    open spec fn deep_view(&self) -> Entry<Seq<char>> {
        self.view()
    }
}

/// The two characters that mark the kind of an entry in front of its text.
pub open spec fn marker<A>(entry: Entry<A>) -> Seq<char> {
    match entry {
        Entry::Unchanged(_) => seq![' ', '|'],
        Entry::Added(_) => seq!['+', '|'],
        Entry::Deleted(_) => seq!['-', '|'],
    }
}

impl Line {
    /// The line as it is shown to a reader: its marker, then its text.
    pub fn render(&self) -> (rendered: String)
        ensures
            rendered@ == marker(self@) + self@.item(),
    {
        proof {
            reveal_strlit(" |");
            reveal_strlit("+|");
            reveal_strlit("-|");
        }
        match self {
            Line::Normal(text) => " |".to_owned().concat(text.as_str()),
            Line::Added(text) => "+|".to_owned().concat(text.as_str()),
            Line::Deleted(text) => "-|".to_owned().concat(text.as_str()),
        }
    }
}

/// Walks the similarity table back from its last cell and returns the edit
/// script from `old_lines` to `new_lines`.
///
/// The entries are found from the last to the first and put in order at the
/// end. Where neither neighbour of a cell promises a longer common
/// subsequence, the new line is taken first, so that in the script the
/// deletion stands before the addition.
pub fn generate_sequence(table: &Table, old_lines: &Vec<String>, new_lines: &Vec<String>) -> (script: Vec<Line>)
    requires
        is_similarity_table(table@, old_lines.deep_view(), new_lines.deep_view()),
    ensures
        script.deep_view() == edit_script(old_lines.deep_view(), new_lines.deep_view()),
        transforms(script.deep_view(), old_lines.deep_view(), new_lines.deep_view()),
        common(script.deep_view()).len() == table@[old_lines.len() as int]@[new_lines.len() as int],
        script.len() + table@[old_lines.len() as int]@[new_lines.len() as int] == old_lines.len()
            + new_lines.len(),
{
    let ghost a = old_lines.deep_view();
    let ghost b = new_lines.deep_view();
    let mut j: usize = old_lines.len();
    let mut i: usize = new_lines.len();
    let mut output: Vec<Line> = Vec::new();
    proof {
        assert(a.take(j as int) =~= a);
        assert(b.take(i as int) =~= b);
    }

    while j > 0 && i > 0
        invariant
            a == old_lines.deep_view(),
            b == new_lines.deep_view(),
            is_similarity_table(table@, a, b),
            j <= old_lines.len(),
            i <= new_lines.len(),
            edit_script(a, b) == edit_script(a.take(j as int), b.take(i as int)) + output.deep_view().reverse(),
        decreases i + j,
    {
        proof {
            lemma_prefix_step(a, b, j as int, i as int);
        }
        let ghost before = output.deep_view();
        if old_lines[j - 1] == new_lines[i - 1] {
            output.push(Line::Normal(old_lines[j - 1].clone()));
            i -= 1;
            j -= 1;
        } else if table[j - 1][i] > table[j][i - 1] {
            output.push(Line::Deleted(old_lines[j - 1].clone()));
            j -= 1;
        } else {
            output.push(Line::Added(new_lines[i - 1].clone()));
            i -= 1;
        }
        proof {
            lemma_reverse_push(before, output@.last()@);
        }
    }

    while i > 0
        invariant
            a == old_lines.deep_view(),
            b == new_lines.deep_view(),
            j <= old_lines.len(),
            i <= new_lines.len(),
            i > 0 ==> j == 0,
            edit_script(a, b) == edit_script(a.take(j as int), b.take(i as int)) + output.deep_view().reverse(),
        decreases i,
    {
        proof {
            lemma_prefix_step(a, b, j as int, i as int);
        }
        let ghost before = output.deep_view();
        output.push(Line::Added(new_lines[i - 1].clone()));
        i -= 1;
        proof {
            lemma_reverse_push(before, output@.last()@);
        }
    }

    while j > 0
        invariant
            a == old_lines.deep_view(),
            b == new_lines.deep_view(),
            j <= old_lines.len(),
            i == 0,
            edit_script(a, b) == edit_script(a.take(j as int), b.take(i as int)) + output.deep_view().reverse(),
        decreases j,
    {
        proof {
            lemma_prefix_step(a, b, j as int, i as int);
        }
        let ghost before = output.deep_view();
        output.push(Line::Deleted(old_lines[j - 1].clone()));
        j -= 1;
        proof {
            lemma_reverse_push(before, output@.last()@);
        }
    }

    let script = reversed(output);
    proof {
        assert(a.take(a.len() as int) =~= a);
        assert(b.take(b.len() as int) =~= b);
        lemma_script_transforms(a, b);
        lemma_script_common(a, b);
        lemma_script_len(a, b);
    }
    script
}

/// Computes the line diff between two texts: the edit script from the lines
/// of `old_text` to the lines of `new_text`.
///
/// Each text must have fewer than `usize::MAX` lines: the similarity table has
/// one more row than the old text has lines and one more column than the new
/// text has lines.
pub fn diff(old_text: &String, new_text: &String) -> (script: Vec<Line>)
    requires
        lines_of(old_text@).len() < usize::MAX,
        lines_of(new_text@).len() < usize::MAX,
    ensures
        script.deep_view() == edit_script(lines_of(old_text@), lines_of(new_text@)),
        transforms(script.deep_view(), lines_of(old_text@), lines_of(new_text@)),
        common(script.deep_view()).len() == lcs_len(lines_of(old_text@), lines_of(new_text@)),
        script.len() == lines_of(old_text@).len() + lines_of(new_text@).len() - lcs_len(
            lines_of(old_text@),
            lines_of(new_text@),
        ),
        lines_of(old_text@).len() <= script.len(),
        lines_of(new_text@).len() <= script.len(),
        script.len() <= lines_of(old_text@).len() + lines_of(new_text@).len(),
        old_text@ == new_text@ ==> script.deep_view() == lines_of(old_text@).map_values(
            |text: Seq<char>| Entry::Unchanged(text),
        ),
{
    let old_lines = split_lines(old_text);
    let new_lines = split_lines(new_text);
    diff_lines(&old_lines, &new_lines)
}

/// Computes the edit script from `old_lines` to `new_lines`.
///
/// Each sequence must have fewer than `usize::MAX` lines, so that the
/// similarity table can have one more row and one more column.
pub fn diff_lines(old_lines: &Vec<String>, new_lines: &Vec<String>) -> (script: Vec<Line>)
    requires
        old_lines.len() < usize::MAX,
        new_lines.len() < usize::MAX,
    ensures
        script.deep_view() == edit_script(old_lines.deep_view(), new_lines.deep_view()),
        transforms(script.deep_view(), old_lines.deep_view(), new_lines.deep_view()),
        common(script.deep_view()).len() == lcs_len(old_lines.deep_view(), new_lines.deep_view()),
        script.len() == old_lines.len() + new_lines.len() - lcs_len(
            old_lines.deep_view(),
            new_lines.deep_view(),
        ),
        old_lines.len() <= script.len(),
        new_lines.len() <= script.len(),
        script.len() <= old_lines.len() + new_lines.len(),
        old_lines.deep_view() == new_lines.deep_view() ==> script.deep_view()
            == old_lines.deep_view().map_values(|text: Seq<char>| Entry::Unchanged(text)),
        old_lines.len() == 0 ==> script.deep_view() == new_lines.deep_view().map_values(
            |text: Seq<char>| Entry::Added(text),
        ),
        new_lines.len() == 0 ==> script.deep_view() == old_lines.deep_view().map_values(
            |text: Seq<char>| Entry::Deleted(text),
        ),
{
    let mut table = init_table(old_lines, new_lines);
    fill_table(&mut table, old_lines, new_lines);
    let script = generate_sequence(&table, old_lines, new_lines);
    proof {
        let a = old_lines.deep_view();
        let b = new_lines.deep_view();
        lemma_script_transforms(a, b);
        lemma_script_common(a, b);
        lemma_script_len(a, b);
        lemma_script_identity(a);
        if a.len() == 0 {
            assert(a =~= Seq::empty());
            lemma_script_from_empty(b);
        }
        if b.len() == 0 {
            assert(b =~= Seq::empty());
            lemma_script_to_empty(a);
        }
    }
    script
}

/// Returns the lines that the edit script from `old_lines` to `new_lines`
/// leaves unchanged: a longest common subsequence of the two.
///
/// The lines are written from the last to the first into a buffer that has the
/// length of the longest common subsequence from the start.
pub fn extract_common(old_lines: &Vec<String>, new_lines: &Vec<String>) -> (shared: Vec<String>)
    requires
        old_lines.len() < usize::MAX,
        new_lines.len() < usize::MAX,
    ensures
        shared.deep_view() == common(edit_script(old_lines.deep_view(), new_lines.deep_view())),
        is_common_subsequence(shared.deep_view(), old_lines.deep_view(), new_lines.deep_view()),
        shared.len() == lcs_len(old_lines.deep_view(), new_lines.deep_view()),
{
    let ghost a = old_lines.deep_view();
    let ghost b = new_lines.deep_view();
    let mut table = init_table(old_lines, new_lines);
    fill_table(&mut table, old_lines, new_lines);
    let mut j: usize = old_lines.len();
    let mut i: usize = new_lines.len();
    let mut k: usize = table[j][i];
    proof {
        assert(a.take(j as int) =~= a);
        assert(b.take(i as int) =~= b);
    }

    let mut shared: Vec<String> = Vec::with_capacity(k);
    while shared.len() < k
        invariant
            shared.len() <= k,
        decreases k - shared.len(),
    {
        shared.push(String::new());
    }

    while j > 0 && i > 0
        invariant
            a == old_lines.deep_view(),
            b == new_lines.deep_view(),
            is_similarity_table(table@, a, b),
            j <= old_lines.len(),
            i <= new_lines.len(),
            k == lcs_len(a.take(j as int), b.take(i as int)),
            k <= shared.len(),
            common(edit_script(a, b)) == common(edit_script(a.take(j as int), b.take(i as int)))
                + shared.deep_view().skip(k as int),
        decreases i + j,
    {
        proof {
            lemma_prefix_step(a, b, j as int, i as int);
            lemma_lcs_len_of_prefixes(a, b, j as int, i as int);
        }
        if old_lines[j - 1] == new_lines[i - 1] {
            proof {
                lemma_sides_push(
                    edit_script(a.take(j - 1), b.take(i - 1)),
                    Entry::Unchanged(a[j - 1]),
                );
            }
            k -= 1;
            shared[k] = old_lines[j - 1].clone();
            i -= 1;
            j -= 1;
        } else if table[j - 1][i] > table[j][i - 1] {
            proof {
                lemma_sides_push(edit_script(a.take(j - 1), b.take(i as int)), Entry::Deleted(a[j - 1]));
            }
            j -= 1;
        } else {
            proof {
                lemma_sides_push(edit_script(a.take(j as int), b.take(i - 1)), Entry::Added(b[i - 1]));
            }
            i -= 1;
        }
    }
    proof {
        lemma_lcs_len_of_prefixes(a, b, j as int, i as int);
        lemma_script_common(a.take(j as int), b.take(i as int));
        assert(shared.deep_view().skip(0) =~= shared.deep_view());
        lemma_script_common(a, b);
    }
    shared
}

/// Returns the entries of `lines` in the opposite order.
fn reversed(lines: Vec<Line>) -> (result: Vec<Line>)
    ensures
        result@ == lines@.reverse(),
{
    let mut rest = lines;
    let mut result: Vec<Line> = Vec::with_capacity(rest.len());
    while rest.len() > 0
        invariant
            rest@.len() + result@.len() == lines@.len(),
            rest@ == lines@.take(rest@.len() as int),
            result@ == lines@.reverse().take(result@.len() as int),
        decreases rest@.len(),
    {
        let line = rest.pop().unwrap();
        result.push(line);
        proof {
            assert(rest@ =~= lines@.take(rest@.len() as int));
        }
    }
    result
}

/// The edit script of two prefixes, not both empty, continues the script of
/// the prefixes left once its last entry has consumed its element.
proof fn lemma_prefix_step<A>(a: Seq<A>, b: Seq<A>, j: int, i: int)
    requires
        0 <= j <= a.len(),
        0 <= i <= b.len(),
        i + j > 0,
    ensures
        ({
            let e = last_entry(a.take(j), b.take(i));
            let rest_j = if e.in_old() { j - 1 } else { j };
            let rest_i = if e.in_new() { i - 1 } else { i };
            &&& 0 <= rest_j
            &&& 0 <= rest_i
            &&& edit_script(a.take(j), b.take(i)) == edit_script(a.take(rest_j), b.take(rest_i)).push(e)
            &&& e == if j == 0 {
                Entry::Added(b[i - 1])
            } else if i == 0 {
                Entry::Deleted(a[j - 1])
            } else if a[j - 1] == b[i - 1] {
                Entry::Unchanged(a[j - 1])
            } else if lcs_len(a.take(j - 1), b.take(i)) > lcs_len(a.take(j), b.take(i - 1)) {
                Entry::Deleted(a[j - 1])
            } else {
                Entry::Added(b[i - 1])
            }
        }),
{
    if j > 0 {
        assert(a.take(j).drop_last() =~= a.take(j - 1));
    }
    if i > 0 {
        assert(b.take(i).drop_last() =~= b.take(i - 1));
    }
}

/// Reversing a sequence with one more element at its end puts that element
/// first.
proof fn lemma_reverse_push<A>(s: Seq<A>, x: A)
    ensures
        s.push(x).reverse() == seq![x] + s.reverse(),
        forall|front: Seq<A>| #[trigger] (front.push(x) + s.reverse()) == front + s.push(x).reverse(),
{
    assert forall|front: Seq<A>| #[trigger] (front.push(x) + s.reverse()) == front + s.push(x).reverse() by {
        assert(front.push(x) + s.reverse() =~= front + (seq![x] + s.reverse()));
    }
}

} // verus!
