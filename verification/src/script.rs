//! The mathematical model of an edit script and the laws it obeys.

use vstd::prelude::*;
use crate::lcs::{
    is_common_subsequence, lcs_len, lemma_lcs_len_bounded, lemma_lcs_len_is_upper_bound,
    lemma_subsequence_push_both, lemma_subsequence_push_full,
};

verus! {

/// One step of an edit script over elements of type `A`.
pub enum Entry<A> {
    /// The element stands in both sequences.
    Unchanged(A),
    /// The element stands in the new sequence only.
    Added(A),
    /// The element stands in the old sequence only.
    Deleted(A),
}

impl<A> Entry<A> {
    /// The element that the entry wraps.
    pub open spec fn item(self) -> A {
        match self {
            Entry::Unchanged(x) => x,
            Entry::Added(x) => x,
            Entry::Deleted(x) => x,
        }
    }

    /// The entry consumes an element of the old sequence.
    pub open spec fn in_old(self) -> bool {
        !(self is Added)
    }

    /// The entry consumes an element of the new sequence.
    pub open spec fn in_new(self) -> bool {
        !(self is Deleted)
    }

    /// The entry consumes an element of both sequences.
    pub open spec fn in_both(self) -> bool {
        self is Unchanged
    }
}

/// The elements of the unchanged and deleted entries of `script`, in order.
pub open spec fn old_side<A>(script: Seq<Entry<A>>) -> Seq<A> {
    script.filter(|e: Entry<A>| e.in_old()).map_values(|e: Entry<A>| e.item())
}

/// The elements of the unchanged and added entries of `script`, in order.
pub open spec fn new_side<A>(script: Seq<Entry<A>>) -> Seq<A> {
    script.filter(|e: Entry<A>| e.in_new()).map_values(|e: Entry<A>| e.item())
}

/// The elements of the unchanged entries of `script`, in order.
pub open spec fn common<A>(script: Seq<Entry<A>>) -> Seq<A> {
    script.filter(|e: Entry<A>| e.in_both()).map_values(|e: Entry<A>| e.item())
}

/// `script` turns `old_seq` into `new_seq`.
pub open spec fn transforms<A>(script: Seq<Entry<A>>, old_seq: Seq<A>, new_seq: Seq<A>) -> bool {
    old_side(script) == old_seq && new_side(script) == new_seq
}

/// The entry that ends the edit script of two sequences that are not both
/// empty.
///
/// Equal last elements give an unchanged entry. Otherwise the last old element
/// is deleted if keeping the last new element allows a strictly longer common
/// subsequence, and the last new element is added if not: on a tie the
/// addition comes last.
pub open spec fn last_entry<A>(old_seq: Seq<A>, new_seq: Seq<A>) -> Entry<A>
    recommends
        old_seq.len() + new_seq.len() > 0,
{
    if old_seq.len() == 0 {
        Entry::Added(new_seq.last())
    } else if new_seq.len() == 0 {
        Entry::Deleted(old_seq.last())
    } else if old_seq.last() == new_seq.last() {
        Entry::Unchanged(old_seq.last())
    } else if lcs_len(old_seq.drop_last(), new_seq) > lcs_len(old_seq, new_seq.drop_last()) {
        Entry::Deleted(old_seq.last())
    } else {
        Entry::Added(new_seq.last())
    }
}

/// The edit script from `old_seq` to `new_seq`: the script of what is left of
/// both once the last entry has consumed its element, followed by that entry.
pub open spec fn edit_script<A>(old_seq: Seq<A>, new_seq: Seq<A>) -> Seq<Entry<A>>
    decreases old_seq.len() + new_seq.len(),
{
    if old_seq.len() == 0 && new_seq.len() == 0 {
        Seq::empty()
    } else {
        let e = last_entry(old_seq, new_seq);
        edit_script(rest_old(old_seq, e), rest_new(new_seq, e)).push(e)
    }
}

/// What is left of the old sequence once `e` has consumed its element.
pub open spec fn rest_old<A>(old_seq: Seq<A>, e: Entry<A>) -> Seq<A> {
    if e.in_old() {
        old_seq.drop_last()
    } else {
        old_seq
    }
}

/// What is left of the new sequence once `e` has consumed its element.
pub open spec fn rest_new<A>(new_seq: Seq<A>, e: Entry<A>) -> Seq<A> {
    if e.in_new() {
        new_seq.drop_last()
    } else {
        new_seq
    }
}

/// How the three projections of a script grow when an entry is appended.
pub proof fn lemma_sides_push<A>(script: Seq<Entry<A>>, e: Entry<A>)
    ensures
        old_side(script.push(e)) == if e.in_old() {
            old_side(script).push(e.item())
        } else {
            old_side(script)
        },
        new_side(script.push(e)) == if e.in_new() {
            new_side(script).push(e.item())
        } else {
            new_side(script)
        },
        common(script.push(e)) == if e.in_both() {
            common(script).push(e.item())
        } else {
            common(script)
        },
{
    let item = |e: Entry<A>| e.item();
    let p_old = |e: Entry<A>| e.in_old();
    let p_new = |e: Entry<A>| e.in_new();
    let p_both = |e: Entry<A>| e.in_both();
    script.lemma_filter_push(e, p_old);
    script.lemma_filter_push(e, p_new);
    script.lemma_filter_push(e, p_both);
    script.filter(p_old).lemma_push_map_commute(item, e);
    script.filter(p_new).lemma_push_map_commute(item, e);
    script.filter(p_both).lemma_push_map_commute(item, e);
}

/// The projections of the empty script are empty.
pub proof fn lemma_sides_empty<A>()
    ensures
        old_side(Seq::<Entry<A>>::empty()) == Seq::<A>::empty(),
        new_side(Seq::<Entry<A>>::empty()) == Seq::<A>::empty(),
        common(Seq::<Entry<A>>::empty()) == Seq::<A>::empty(),
{
    let s = Seq::<Entry<A>>::empty();
    s.lemma_filter_len(|e: Entry<A>| e.in_old());
    s.lemma_filter_len(|e: Entry<A>| e.in_new());
    s.lemma_filter_len(|e: Entry<A>| e.in_both());
}

/// The unchanged and deleted entries of the edit script spell the old
/// sequence, and its unchanged and added entries spell the new one.
pub proof fn lemma_script_transforms<A>(old_seq: Seq<A>, new_seq: Seq<A>)
    ensures
        transforms(edit_script(old_seq, new_seq), old_seq, new_seq),
    decreases old_seq.len() + new_seq.len(),
{
    if old_seq.len() == 0 && new_seq.len() == 0 {
        lemma_sides_empty::<A>();
        assert(old_seq =~= Seq::empty());
        assert(new_seq =~= Seq::empty());
    } else {
        let e = last_entry(old_seq, new_seq);
        let a = rest_old(old_seq, e);
        let b = rest_new(new_seq, e);
        lemma_script_transforms(a, b);
        lemma_sides_push(edit_script(a, b), e);
        assert(e.in_old() ==> a.push(e.item()) =~= old_seq);
        assert(e.in_new() ==> b.push(e.item()) =~= new_seq);
    }
}

/// In any script the unchanged elements form a subsequence of each side.
pub proof fn lemma_common_is_subsequence<A>(script: Seq<Entry<A>>)
    ensures
        is_common_subsequence(common(script), old_side(script), new_side(script)),
    decreases script.len(),
{
    if script.len() == 0 {
        lemma_sides_empty::<A>();
    } else {
        let init = script.drop_last();
        let e = script.last();
        assert(init.push(e) =~= script);
        lemma_common_is_subsequence(init);
        lemma_sides_push(init, e);
        match e {
            Entry::Unchanged(x) => {
                lemma_subsequence_push_both(common(init), old_side(init), x);
                lemma_subsequence_push_both(common(init), new_side(init), x);
            },
            Entry::Added(x) => {
                lemma_subsequence_push_full(common(init), new_side(init), x);
            },
            Entry::Deleted(x) => {
                lemma_subsequence_push_full(common(init), old_side(init), x);
            },
        }
    }
}

/// Every entry of a script consumes an element of the old sequence or of the
/// new one, and only the unchanged entries consume one of each.
pub proof fn lemma_len_by_sides<A>(script: Seq<Entry<A>>)
    ensures
        script.len() + common(script).len() == old_side(script).len() + new_side(script).len(),
    decreases script.len(),
{
    if script.len() == 0 {
        lemma_sides_empty::<A>();
    } else {
        let init = script.drop_last();
        assert(init.push(script.last()) =~= script);
        lemma_len_by_sides(init);
        lemma_sides_push(init, script.last());
    }
}

/// The unchanged elements of the edit script are a longest common subsequence
/// of the two sequences.
pub proof fn lemma_script_common<A>(old_seq: Seq<A>, new_seq: Seq<A>)
    ensures
        is_common_subsequence(common(edit_script(old_seq, new_seq)), old_seq, new_seq),
        common(edit_script(old_seq, new_seq)).len() == lcs_len(old_seq, new_seq),
    decreases old_seq.len() + new_seq.len(),
{
    let script = edit_script(old_seq, new_seq);
    lemma_script_transforms(old_seq, new_seq);
    lemma_common_is_subsequence(script);
    if old_seq.len() == 0 && new_seq.len() == 0 {
        lemma_sides_empty::<A>();
    } else {
        let e = last_entry(old_seq, new_seq);
        let a = rest_old(old_seq, e);
        let b = rest_new(new_seq, e);
        lemma_script_common(a, b);
        lemma_sides_push(edit_script(a, b), e);
    }
}

/// The edit script has one entry for each element of either sequence, less
/// one for each element of their longest common subsequence. It is therefore
/// no shorter than the longer sequence and no longer than both together.
pub proof fn lemma_script_len<A>(old_seq: Seq<A>, new_seq: Seq<A>)
    ensures
        edit_script(old_seq, new_seq).len() == old_seq.len() + new_seq.len() - lcs_len(old_seq, new_seq),
        edit_script(old_seq, new_seq).len() >= old_seq.len(),
        edit_script(old_seq, new_seq).len() >= new_seq.len(),
        edit_script(old_seq, new_seq).len() <= old_seq.len() + new_seq.len(),
{
    lemma_script_transforms(old_seq, new_seq);
    lemma_script_common(old_seq, new_seq);
    lemma_len_by_sides(edit_script(old_seq, new_seq));
    lemma_lcs_len_bounded(old_seq, new_seq);
}

/// No script that turns the old sequence into the new one is shorter than the
/// edit script.
pub proof fn lemma_script_minimal<A>(other: Seq<Entry<A>>, old_seq: Seq<A>, new_seq: Seq<A>)
    requires
        transforms(other, old_seq, new_seq),
    ensures
        edit_script(old_seq, new_seq).len() <= other.len(),
{
    lemma_common_is_subsequence(other);
    lemma_lcs_len_is_upper_bound(common(other), old_seq, new_seq);
    lemma_len_by_sides(other);
    lemma_script_len(old_seq, new_seq);
}

/// The edit script from a sequence to itself keeps every element unchanged,
/// in order.
pub proof fn lemma_script_identity<A>(s: Seq<A>)
    ensures
        edit_script(s, s) == s.map_values(|x: A| Entry::Unchanged(x)),
    decreases s.len(),
{
    let keep = |x: A| Entry::Unchanged(x);
    if s.len() > 0 {
        lemma_script_identity(s.drop_last());
        s.drop_last().lemma_push_map_commute(keep, s.last());
    }
}

/// The edit script from the empty sequence adds every element of the new
/// sequence, in order.
pub proof fn lemma_script_from_empty<A>(new_seq: Seq<A>)
    ensures
        edit_script(Seq::empty(), new_seq) == new_seq.map_values(|x: A| Entry::Added(x)),
    decreases new_seq.len(),
{
    let add = |x: A| Entry::Added(x);
    if new_seq.len() > 0 {
        lemma_script_from_empty(new_seq.drop_last());
        new_seq.drop_last().lemma_push_map_commute(add, new_seq.last());
    }
}

/// The edit script to the empty sequence deletes every element of the old
/// sequence, in order.
pub proof fn lemma_script_to_empty<A>(old_seq: Seq<A>)
    ensures
        edit_script(old_seq, Seq::empty()) == old_seq.map_values(|x: A| Entry::Deleted(x)),
    decreases old_seq.len(),
{
    let delete = |x: A| Entry::Deleted(x);
    if old_seq.len() > 0 {
        lemma_script_to_empty(old_seq.drop_last());
        old_seq.drop_last().lemma_push_map_commute(delete, old_seq.last());
    }
}

/// Where the last elements differ and dropping either one leaves common
/// subsequences of equal length, the edit script ends with the addition of
/// the last new element, after the script from the whole old sequence to the
/// rest of the new one.
pub proof fn lemma_tie_ends_with_added<A>(old_seq: Seq<A>, new_seq: Seq<A>)
    requires
        old_seq.len() > 0,
        new_seq.len() > 0,
        old_seq.last() != new_seq.last(),
        lcs_len(old_seq.drop_last(), new_seq) == lcs_len(old_seq, new_seq.drop_last()),
    ensures
        edit_script(old_seq, new_seq) == edit_script(old_seq, new_seq.drop_last()).push(
            Entry::Added(new_seq.last()),
        ),
{
}

} // verus!
