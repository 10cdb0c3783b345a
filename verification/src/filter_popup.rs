//! Per-column value filters, opened from a table header.
//!
//! These filter what is *shown* from data already captured. They are a
//! different mechanism from the command line's `--vlan`/`--appid`/... flags,
//! which drop frames before they are ever counted. The distinction is
//! deliberate: the window exists for interactive drill-down into a running or
//! loaded capture, where discarding data early would defeat the point.
use crate::order;
use crate::report::DisplayFilter;
use crate::sets;
use crate::sets::TextSet;
use crate::text;
use std::collections::HashMap;
use vstd::prelude::*;

verus! {

/// An open header dropdown.
pub struct FilterPopup {
    pub col: usize,
    /// Every value seen in that column, with its current checked state.
    pub choices: Vec<(String, bool)>,
}

/// The choices, with their values as character sequences.
pub open spec fn choices_view(v: Seq<(String, bool)>) -> Seq<(Seq<char>, bool)> {
    Seq::new(v.len(), |i: int| (v[i].0@, v[i].1))
}

/// The values seen in a column.
pub open spec fn values_of(seen: Map<usize, TextSet>, col: usize) -> Seq<Seq<char>> {
    if seen.contains_key(col) {
        seen[col]@
    } else {
        Seq::empty()
    }
}

/// Whether a value of a column is shown. With no filter set, everything is.
pub open spec fn is_visible(f: Map<usize, Seq<Seq<char>>>, col: usize, v: Seq<char>) -> bool {
    f.contains_key(col) ==> f[col].contains(v)
}

/// Values, each checked where it is shown.
pub open spec fn choices_of(
    values: Seq<Seq<char>>,
    f: Map<usize, Seq<Seq<char>>>,
    col: usize,
) -> Seq<(Seq<char>, bool)> {
    Seq::new(values.len(), |i: int| (values[i], is_visible(f, col, values[i])))
}

/// Whether every choice is checked.
pub open spec fn all_on(choices: Seq<(Seq<char>, bool)>) -> bool {
    forall|i: int| 0 <= i < choices.len() ==> (#[trigger] choices[i]).1
}

/// The checked values.
pub open spec fn checked(choices: Seq<(Seq<char>, bool)>) -> Set<Seq<char>> {
    Set::new(|v: Seq<char>| exists|i: int| 0 <= i < choices.len() && #[trigger] choices[i] == (v, true))
}

/// Whether a filter is what applying choices to a column makes of another.
pub open spec fn is_applied(
    after: Map<usize, Seq<Seq<char>>>,
    before: Map<usize, Seq<Seq<char>>>,
    col: usize,
    choices: Seq<(Seq<char>, bool)>,
) -> bool {
    if all_on(choices) {
        after == before.remove(col)
    } else {
        &&& after.contains_key(col)
        &&& after[col].to_set() == checked(choices)
        &&& after.remove(col) == before.remove(col)
    }
}

impl FilterPopup {
    /// Open the dropdown for `col`, pre-checking whatever is currently shown.
    pub fn open(col: usize, seen: &HashMap<usize, TextSet>, filter: &DisplayFilter) -> (r:
        FilterPopup)
        ensures
            r.col == col,
            choices_view(r.choices@) == choices_of(values_of(seen@, col), filter@, col),
    {
        let mut choices: Vec<(String, bool)> = Vec::new();
        let ghost values = values_of(seen@, col);
        let ghost all = choices_of(values, filter@, col);
        if let Some(set) = seen.get(&col) {
            let items: &Vec<String> = set.items();
            let mut i: usize = 0;
            assert(choices_view(choices@) =~= all.take(0));
            while i < items.len()
                invariant
                    i <= items@.len(),
                    text::texts(items@) == values,
                    all == choices_of(values, filter@, col),
                    choices_view(choices@) == all.take(i as int),
                decreases items@.len() - i,
            {
                let value: String = items[i].clone();
                assert(value@ == values[i as int]);
                let on: bool = match filter.allowed(col) {
                    Some(allowed) => allowed.contains(value.as_str()),
                    None => true,
                };
                let ghost before = choices_view(choices@);
                choices.push((value, on));
                assert(choices_view(choices@) =~= before.push(all[i as int]));
                assert(choices_view(choices@) =~= all.take(i + 1));
                i += 1;
            }
            assert(all.take(i as int) =~= all);
        } else {
            assert(choices_view(choices@) =~= all);
        }
        FilterPopup { col, choices }
    }

    pub fn all_checked(&self) -> (r: bool)
        ensures
            r == all_on(choices_view(self.choices@)),
    {
        let ghost all = choices_view(self.choices@);
        let mut i: usize = 0;
        while i < self.choices.len()
            invariant
                i <= self.choices@.len(),
                all == choices_view(self.choices@),
                forall|j: int| 0 <= j < i ==> (#[trigger] all[j]).1,
            decreases self.choices@.len() - i,
        {
            if !self.choices[i].1 {
                assert(!all[i as int].1);
                return false;
            }
            i += 1;
        }
        true
    }

    pub fn set_all(&mut self, on: bool)
        ensures
            final(self).col == old(self).col,
            choices_view(final(self).choices@) == choices_view(old(self).choices@).map_values(
                |c: (Seq<char>, bool)| (c.0, on),
            ),
    {
        let ghost before = choices_view(self.choices@);
        let mut i: usize = 0;
        while i < self.choices.len()
            invariant
                i <= self.choices@.len() == before.len(),
                self.col == old(self).col,
                forall|j: int| 0 <= j < before.len() ==> (#[trigger] self.choices@[j]).0@ == before[j].0,
                forall|j: int| 0 <= j < i ==> (#[trigger] self.choices@[j]).1 == on,
            decreases self.choices@.len() - i,
        {
            self.choices[i].1 = on;
            i += 1;
        }
        assert(choices_view(self.choices@) =~= before.map_values(
            |c: (Seq<char>, bool)| (c.0, on),
        ));
    }

    /// The selection to apply, or `None` meaning "no constraint".
    ///
    /// Everything checked collapses to `None` rather than an all-inclusive
    /// set, so the header does not keep advertising a filter that filters
    /// nothing.
    pub fn selection(&self) -> (r: Option<TextSet>)
        ensures
            match r {
                Some(set) => !all_on(choices_view(self.choices@)) && set.members() == checked(
                    choices_view(self.choices@),
                ),
                None => all_on(choices_view(self.choices@)),
            },
    {
        if self.all_checked() {
            return None;
        }
        let ghost all = choices_view(self.choices@);
        let mut out: TextSet = TextSet::new();
        let mut i: usize = 0;
        assert(out.members() =~= checked(all.take(0)));
        while i < self.choices.len()
            invariant
                i <= self.choices@.len(),
                all == choices_view(self.choices@),
                out.members() == checked(all.take(i as int)),
            decreases self.choices@.len() - i,
        {
            proof {
                lemma_checked_next(all, i as int);
            }
            if self.choices[i].1 {
                out.insert(self.choices[i].0.clone());
            }
            i += 1;
        }
        assert(all.take(i as int) =~= all);
        Some(out)
    }

    /// Apply the selection to a display filter.
    pub fn apply(&self, filter: &mut DisplayFilter)
        ensures
            is_applied(
                final(filter)@,
                old(filter)@,
                self.col,
                choices_view(self.choices@),
            ),
    {
        let selection: Option<TextSet> = self.selection();
        let ghost before = filter@;
        filter.set(self.col, selection);
        assert(before.insert(self.col, filter@[self.col]).remove(self.col) =~= before.remove(
            self.col,
        ));
    }
}

proof fn lemma_checked_next(all: Seq<(Seq<char>, bool)>, i: int)
    requires
        0 <= i < all.len(),
    ensures
        checked(all.take(i + 1)) == if all[i].1 {
            checked(all.take(i)).insert(all[i].0)
        } else {
            checked(all.take(i))
        },
{
    let a = all.take(i + 1);
    let b = all.take(i);
    let after = if all[i].1 {
        checked(b).insert(all[i].0)
    } else {
        checked(b)
    };
    assert forall|v: Seq<char>| checked(a).contains(v) <==> after.contains(v) by {
        assert(a[i] == all[i]);
        if checked(a).contains(v) {
            let k = choose|k: int| 0 <= k < a.len() && #[trigger] a[k] == (v, true);
            if k < i {
                assert(b[k] == a[k]);
            }
        }
        if checked(b).contains(v) {
            let k = choose|k: int| 0 <= k < b.len() && #[trigger] b[k] == (v, true);
            assert(a[k] == b[k]);
        }
        if all[i].1 && v == all[i].0 {
            assert(a[i] == (v, true));
        }
    }
    assert(checked(a) =~= after);
}

// ---- Laws --------------------------------------------------------------------------------

/// Opened again, a dropdown shows what was chosen in it.
pub proof fn law_reopening_shows_the_choices(
    values: Seq<Seq<char>>,
    choices: Seq<(Seq<char>, bool)>,
    before: Map<usize, Seq<Seq<char>>>,
    after: Map<usize, Seq<Seq<char>>>,
    col: usize,
)
    requires
        choices.len() == values.len(),
        forall|i: int| 0 <= i < values.len() ==> (#[trigger] choices[i]).0 == values[i],
        sets::ordered(values),
        is_applied(after, before, col, choices),
    ensures
        choices_of(values, after, col) == choices,
{
    assert forall|i: int| 0 <= i < values.len() implies choices_of(values, after, col)[i]
        == choices[i] by {
        assert(choices[i].0 == values[i]);
        if !all_on(choices) {
            assert(after[col].contains(values[i]) <==> after[col].to_set().contains(values[i]));
            if checked(choices).contains(values[i]) {
                let k = choose|k: int|
                    0 <= k < choices.len() && #[trigger] choices[k] == (values[i], true);
                assert(choices[k].0 == values[k]);
                order::lemma_text_rank_same(values[k], values[i]);
                assert(k == i);
            }
            if choices[i].1 {
                assert(choices[i] == (values[i], true));
            }
        }
    }
    assert(choices_of(values, after, col) =~= choices);
}

/// A filter that filters nothing is not kept: with everything checked, the
/// column is no longer filtered.
pub proof fn law_a_full_selection_clears_the_filter(
    choices: Seq<(Seq<char>, bool)>,
    before: Map<usize, Seq<Seq<char>>>,
    after: Map<usize, Seq<Seq<char>>>,
    col: usize,
)
    requires
        is_applied(after, before, col, choices),
        all_on(choices),
    ensures
        !after.contains_key(col),
{
}

/// Applying a dropdown leaves every other column's filter alone.
pub proof fn law_other_columns_keep_their_filter(
    choices: Seq<(Seq<char>, bool)>,
    before: Map<usize, Seq<Seq<char>>>,
    after: Map<usize, Seq<Seq<char>>>,
    col: usize,
    other: usize,
)
    requires
        is_applied(after, before, col, choices),
        other != col,
    ensures
        after.contains_key(other) == before.contains_key(other),
        after.contains_key(other) ==> after[other] == before[other],
{
    assert(after.remove(col).contains_key(other) == after.contains_key(other));
    assert(before.remove(col).contains_key(other) == before.contains_key(other));
    assert(after.contains_key(other) ==> after.remove(col)[other] == after[other]);
    assert(before.contains_key(other) ==> before.remove(col)[other] == before[other]);
}

} // verus!
