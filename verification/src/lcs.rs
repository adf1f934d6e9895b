//! The mathematical model of the longest common subsequence.

use vstd::prelude::*;

verus! {

/// `sub` can be obtained from `full` by removing elements without reordering
/// the ones that stay.
pub open spec fn is_subsequence<A>(sub: Seq<A>, full: Seq<A>) -> bool
    decreases full.len(),
{
    if sub.len() == 0 {
        true
    } else if full.len() == 0 {
        false
    } else {
        ||| (sub.last() == full.last() && is_subsequence(sub.drop_last(), full.drop_last()))
        ||| is_subsequence(sub, full.drop_last())
    }
}

/// `picks` names, in rising order, one position of `full` for each element of
/// `sub`, at which that element stands.
pub open spec fn picks_out<A>(picks: Seq<int>, sub: Seq<A>, full: Seq<A>) -> bool {
    &&& picks.len() == sub.len()
    &&& forall|k: int|
        0 <= k < picks.len() ==> 0 <= #[trigger] picks[k] < full.len() && full[picks[k]] == sub[k]
    &&& forall|k: int, l: int| 0 <= k < l < picks.len() ==> picks[k] < picks[l]
}

/// `c` is a subsequence of both `a` and `b`.
pub open spec fn is_common_subsequence<A>(c: Seq<A>, a: Seq<A>, b: Seq<A>) -> bool {
    is_subsequence(c, a) && is_subsequence(c, b)
}

/// Length of the longest common subsequence of `a` and `b`.
///
/// No common subsequence is longer (`lemma_lcs_len_is_upper_bound`), and the
/// elements that the edit script leaves unchanged are one of this length
/// (`lemma_script_common`).
pub open spec fn lcs_len<A>(a: Seq<A>, b: Seq<A>) -> nat
    decreases a.len() + b.len(),
{
    if a.len() == 0 || b.len() == 0 {
        0
    } else if a.last() == b.last() {
        lcs_len(a.drop_last(), b.drop_last()) + 1
    } else {
        let skip_new = lcs_len(a, b.drop_last());
        let skip_old = lcs_len(a.drop_last(), b);
        if skip_new >= skip_old {
            skip_new
        } else {
            skip_old
        }
    }
}

/// The longest common subsequence is no longer than either input.
pub proof fn lemma_lcs_len_bounded<A>(a: Seq<A>, b: Seq<A>)
    ensures
        lcs_len(a, b) <= a.len(),
        lcs_len(a, b) <= b.len(),
    decreases a.len() + b.len(),
{
    if a.len() == 0 || b.len() == 0 {
    } else if a.last() == b.last() {
        lemma_lcs_len_bounded(a.drop_last(), b.drop_last());
    } else {
        lemma_lcs_len_bounded(a, b.drop_last());
        lemma_lcs_len_bounded(a.drop_last(), b);
    }
}

/// Dropping the last element of either input lowers the length of the longest
/// common subsequence by at most one, and never raises it.
pub proof fn lemma_lcs_len_step<A>(a: Seq<A>, b: Seq<A>)
    ensures
        a.len() > 0 ==> lcs_len(a.drop_last(), b) <= lcs_len(a, b) <= lcs_len(a.drop_last(), b) + 1,
        b.len() > 0 ==> lcs_len(a, b.drop_last()) <= lcs_len(a, b) <= lcs_len(a, b.drop_last()) + 1,
    decreases a.len() + b.len(),
{
    if a.len() > 0 && b.len() > 0 {
        lemma_lcs_len_step(a.drop_last(), b);
        lemma_lcs_len_step(a, b.drop_last());
        lemma_lcs_len_step(a.drop_last(), b.drop_last());
    }
}

/// The recurrence of `lcs_len`, read on prefixes by their lengths.
pub proof fn lemma_lcs_len_of_prefixes<A>(a: Seq<A>, b: Seq<A>, j: int, i: int)
    requires
        0 <= j <= a.len(),
        0 <= i <= b.len(),
    ensures
        lcs_len(a.take(j), b.take(i)) == if i == 0 || j == 0 {
            0
        } else if a[j - 1] == b[i - 1] {
            lcs_len(a.take(j - 1), b.take(i - 1)) + 1
        } else if lcs_len(a.take(j), b.take(i - 1)) >= lcs_len(a.take(j - 1), b.take(i)) {
            lcs_len(a.take(j), b.take(i - 1))
        } else {
            lcs_len(a.take(j - 1), b.take(i))
        },
{
    if i > 0 && j > 0 {
        assert(a.take(j).drop_last() =~= a.take(j - 1));
        assert(b.take(i).drop_last() =~= b.take(i - 1));
    }
}

/// A subsequence stays one when the same element is appended to both sides.
pub proof fn lemma_subsequence_push_both<A>(sub: Seq<A>, full: Seq<A>, x: A)
    requires
        is_subsequence(sub, full),
    ensures
        is_subsequence(sub.push(x), full.push(x)),
{
    assert(sub.push(x).drop_last() =~= sub);
    assert(full.push(x).drop_last() =~= full);
}

/// A subsequence stays one when the full sequence grows.
pub proof fn lemma_subsequence_push_full<A>(sub: Seq<A>, full: Seq<A>, x: A)
    requires
        is_subsequence(sub, full),
    ensures
        is_subsequence(sub, full.push(x)),
{
    assert(full.push(x).drop_last() =~= full);
}

/// Dropping the last element of both sides keeps a subsequence.
pub proof fn lemma_subsequence_drop_last<A>(sub: Seq<A>, full: Seq<A>)
    requires
        is_subsequence(sub, full),
        sub.len() > 0,
    ensures
        full.len() > 0,
        is_subsequence(sub.drop_last(), full.drop_last()),
    decreases full.len(),
{
    if !(sub.last() == full.last() && is_subsequence(sub.drop_last(), full.drop_last())) {
        lemma_subsequence_drop_last(sub, full.drop_last());
    }
}

/// The elements of a subsequence stand at rising positions of the full
/// sequence.
pub proof fn lemma_subsequence_has_positions<A>(sub: Seq<A>, full: Seq<A>) -> (picks: Seq<int>)
    requires
        is_subsequence(sub, full),
    ensures
        picks_out(picks, sub, full),
    decreases full.len(),
{
    if sub.len() == 0 {
        Seq::empty()
    } else if sub.last() == full.last() && is_subsequence(sub.drop_last(), full.drop_last()) {
        let init = lemma_subsequence_has_positions(sub.drop_last(), full.drop_last());
        init.push(full.len() - 1)
    } else {
        lemma_subsequence_has_positions(sub, full.drop_last())
    }
}

/// Elements that stand at rising positions of a sequence form a subsequence of
/// it.
pub proof fn lemma_positions_give_subsequence<A>(picks: Seq<int>, sub: Seq<A>, full: Seq<A>)
    requires
        picks_out(picks, sub, full),
    ensures
        is_subsequence(sub, full),
    decreases full.len(),
{
    if sub.len() > 0 {
        if picks.last() == full.len() - 1 {
            lemma_positions_give_subsequence(picks.drop_last(), sub.drop_last(), full.drop_last());
        } else {
            lemma_positions_give_subsequence(picks, sub, full.drop_last());
        }
    }
}

/// No common subsequence of `a` and `b` is longer than `lcs_len(a, b)`.
pub proof fn lemma_lcs_len_is_upper_bound<A>(c: Seq<A>, a: Seq<A>, b: Seq<A>)
    requires
        is_common_subsequence(c, a, b),
    ensures
        c.len() <= lcs_len(a, b),
    decreases a.len() + b.len(),
{
    if c.len() > 0 {
        lemma_subsequence_drop_last(c, a);
        lemma_subsequence_drop_last(c, b);
        if a.last() == b.last() {
            lemma_lcs_len_is_upper_bound(c.drop_last(), a.drop_last(), b.drop_last());
        } else if c.last() == a.last() {
            lemma_lcs_len_is_upper_bound(c, a, b.drop_last());
        } else {
            lemma_lcs_len_is_upper_bound(c, a.drop_last(), b);
        }
    }
}

} // verus!
