//! The similarity table: lengths of the longest common subsequences of all
//! pairs of prefixes of two line sequences.

use vstd::prelude::*;
use crate::lcs::{lcs_len, lemma_lcs_len_bounded, lemma_lcs_len_of_prefixes, lemma_lcs_len_step};

verus! {

/// Row `j`, column `i` holds the length of the longest common subsequence of
/// the first `j` old lines and the first `i` new lines.
pub type Table = Vec<Vec<usize>>;

/// `table` has `rows` rows of `cols` cells each.
pub open spec fn has_shape(table: Seq<Vec<usize>>, rows: nat, cols: nat) -> bool {
    &&& table.len() == rows
    &&& forall|j: int| 0 <= j < rows ==> (#[trigger] table[j])@.len() == cols
}

/// Every cell of the first `rows` rows holds the length of the longest common
/// subsequence of the prefixes it stands for.
pub open spec fn rows_filled<A>(table: Seq<Vec<usize>>, old_seq: Seq<A>, new_seq: Seq<A>, rows: nat) -> bool {
    forall|j: int, i: int|
        0 <= j < rows && 0 <= i <= new_seq.len() ==> #[trigger] table[j]@[i] == lcs_len(
            old_seq.take(j),
            new_seq.take(i),
        )
}

/// `table` is the similarity table of `old_seq` and `new_seq`.
pub open spec fn is_similarity_table<A>(table: Seq<Vec<usize>>, old_seq: Seq<A>, new_seq: Seq<A>) -> bool {
    &&& has_shape(table, old_seq.len() + 1, new_seq.len() + 1)
    &&& rows_filled(table, old_seq, new_seq, old_seq.len() + 1)
}

/// In a similarity table the first row and the first column hold zeros, a
/// cell is no less than its upper and its left neighbour and at most one
/// more than either, and a cell whose two lines are equal is one more than its
/// upper left neighbour.
pub proof fn lemma_similarity_table_cells<A>(table: Seq<Vec<usize>>, old_seq: Seq<A>, new_seq: Seq<A>)
    requires
        is_similarity_table(table, old_seq, new_seq),
    ensures
        forall|i: int| 0 <= i <= new_seq.len() ==> #[trigger] table[0]@[i] == 0,
        forall|j: int| 0 <= j <= old_seq.len() ==> #[trigger] table[j]@[0] == 0,
        forall|j: int, i: int|
            1 <= j <= old_seq.len() && 0 <= i <= new_seq.len() ==> (table[j - 1]@[i]
                <= #[trigger] table[j]@[i] <= table[j - 1]@[i] + 1),
        forall|j: int, i: int|
            0 <= j <= old_seq.len() && 1 <= i <= new_seq.len() ==> (table[j]@[i - 1]
                <= #[trigger] table[j]@[i] <= table[j]@[i - 1] + 1),
        forall|j: int, i: int|
            1 <= j <= old_seq.len() && 1 <= i <= new_seq.len() ==> (#[trigger] table[j]@[i]
                == if old_seq[j - 1] == new_seq[i - 1] {
                table[j - 1]@[i - 1] + 1
            } else if table[j]@[i - 1] >= table[j - 1]@[i] {
                table[j]@[i - 1] as int
            } else {
                table[j - 1]@[i] as int
            }),
{
    assert forall|j: int, i: int| 0 <= j <= old_seq.len() && 0 <= i <= new_seq.len() implies {
        &&& (j == 0 || i == 0 ==> #[trigger] table[j]@[i] == 0)
        &&& (j >= 1 ==> table[j - 1]@[i] <= table[j]@[i] <= table[j - 1]@[i] + 1)
        &&& (i >= 1 ==> table[j]@[i - 1] <= table[j]@[i] <= table[j]@[i - 1] + 1)
        &&& (j >= 1 && i >= 1 ==> table[j]@[i] == if old_seq[j - 1] == new_seq[i - 1] {
            table[j - 1]@[i - 1] + 1
        } else if table[j]@[i - 1] >= table[j - 1]@[i] {
            table[j]@[i - 1] as int
        } else {
            table[j - 1]@[i] as int
        })
    } by {
        lemma_lcs_len_of_prefixes(old_seq, new_seq, j, i);
        lemma_lcs_len_step(old_seq.take(j), new_seq.take(i));
        if j >= 1 {
            assert(old_seq.take(j).drop_last() =~= old_seq.take(j - 1));
        }
        if i >= 1 {
            assert(new_seq.take(i).drop_last() =~= new_seq.take(i - 1));
        }
    }
}

/// Allocates a table of zeros with one more row than `old_lines` has lines and
/// one more column than `new_lines` has lines. Both counts must leave room
/// for that one more.
pub fn init_table(old_lines: &Vec<String>, new_lines: &Vec<String>) -> (table: Table)
    requires
        old_lines.len() < usize::MAX,
        new_lines.len() < usize::MAX,
    ensures
        has_shape(table@, (old_lines.len() + 1) as nat, (new_lines.len() + 1) as nat),
        forall|j: int, i: int|
            0 <= j <= old_lines.len() && 0 <= i <= new_lines.len() ==> #[trigger] table@[j]@[i] == 0,
{
    let rows: usize = old_lines.len() + 1;
    let cols: usize = new_lines.len() + 1;
    let mut table: Table = Vec::with_capacity(rows);
    for j in 0..rows
        invariant
            table@.len() == j,
            forall|r: int| 0 <= r < j ==> (#[trigger] table@[r])@.len() == cols,
            forall|r: int, c: int| 0 <= r < j && 0 <= c < cols ==> #[trigger] table@[r]@[c] == 0,
    {
        let mut row: Vec<usize> = Vec::with_capacity(cols);
        for i in 0..cols
            invariant
                row@.len() == i,
                forall|c: int| 0 <= c < i ==> #[trigger] row@[c] == 0,
        {
            row.push(0usize);
        }
        table.push(row);
    }
    table
}

/// Fills `table` with the lengths of the longest common subsequences of all
/// pairs of prefixes, row by row. What the table held before is overwritten;
/// only its shape has to fit the two sequences.
pub fn fill_table(table: &mut Table, old_lines: &Vec<String>, new_lines: &Vec<String>)
    requires
        has_shape(old(table)@, (old_lines.len() + 1) as nat, (new_lines.len() + 1) as nat),
    ensures
        is_similarity_table(final(table)@, old_lines.deep_view(), new_lines.deep_view()),
{
    let ghost a = old_lines.deep_view();
    let ghost b = new_lines.deep_view();
    let m: usize = old_lines.len();
    let n: usize = new_lines.len();
    assert(m < usize::MAX && n < usize::MAX) by {
        assert(table.len() == m + 1);
        assert(table@[0].len() == n + 1);
    }
    let mut j: usize = 0;
    while j <= m
        invariant
            m < usize::MAX,
            n < usize::MAX,
            m == old_lines.len(),
            n == new_lines.len(),
            a == old_lines.deep_view(),
            b == new_lines.deep_view(),
            0 <= j <= m + 1,
            has_shape(table@, (m + 1) as nat, (n + 1) as nat),
            rows_filled(table@, a, b, j as nat),
        decreases m + 1 - j,
    {
        let mut i: usize = 0;
        while i <= n
            invariant
                n < usize::MAX,
                m == old_lines.len(),
                n == new_lines.len(),
                a == old_lines.deep_view(),
                b == new_lines.deep_view(),
                0 <= j <= m,
                0 <= i <= n + 1,
                has_shape(table@, (m + 1) as nat, (n + 1) as nat),
                rows_filled(table@, a, b, j as nat),
                forall|c: int| 0 <= c < i ==> #[trigger] table@[j as int]@[c] == lcs_len(a.take(j as int), b.take(c)),
            decreases n + 1 - i,
        {
            let cell: usize = if i == 0 || j == 0 {
                0
            } else if old_lines[j - 1] == new_lines[i - 1] {
                proof {
                    lemma_lcs_len_bounded(a.take(j - 1), b.take(i - 1));
                }
                table[j - 1][i - 1] + 1
            } else {
                let left: usize = table[j][i - 1];
                let up: usize = table[j - 1][i];
                if left >= up {
                    left
                } else {
                    up
                }
            };
            proof {
                lemma_lcs_len_of_prefixes(a, b, j as int, i as int);
            }
            table[j][i] = cell;
            i += 1;
        }
        j += 1;
    }
}

} // verus!
