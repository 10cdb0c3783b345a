//! Ordered sets: of text, and the listing of a set of numbers.
use crate::order;
use crate::order::{rank_text, Rank};
use crate::text;
use std::collections::BTreeSet;
use vstd::prelude::*;

verus! {

// ---- Sets of text -------------------------------------------------------------

/// Whether a list is in strictly ascending text order.
pub open spec fn ordered(l: Seq<Seq<char>>) -> bool {
    forall|i: int, j: int|
        #![trigger l[i], l[j]]
        0 <= i < j < l.len() ==> order::text_rank(l[i], l[j]) == Rank::Before
}

/// A set of strings, kept in ascending order.
///
/// Its view is that ordered list; [`TextSet::members`] is the set itself.
#[derive(PartialEq, Eq, Debug)]
pub struct TextSet {
    items: Vec<String>,
}

impl View for TextSet {
    type V = Seq<Seq<char>>;

    closed spec fn view(&self) -> Seq<Seq<char>> {
        text::texts(self.items@)
    }
}

impl Default for TextSet {
    fn default() -> (r: TextSet)
        ensures
            r@ == Seq::<Seq<char>>::empty(),
    {
        TextSet::new()
    }
}

impl Clone for TextSet {
    fn clone(&self) -> (r: TextSet)
        ensures
            r@ == self@,
    {
        proof {
            use_type_invariant(self);
        }
        let mut items: Vec<String> = Vec::new();
        let mut i: usize = 0;
        while i < self.items.len()
            invariant
                i <= self.items@.len(),
                text::texts(items@) == self@.take(i as int),
            decreases self.items@.len() - i,
        {
            items.push(self.items[i].clone());
            proof {
                text::lemma_texts_push(
                    items@.drop_last(),
                    items@.last(),
                );
                assert(items@ =~= items@.drop_last().push(items@.last()));
                assert(self@.take(i + 1) =~= self@.take(i as int).push(self@[i as int]));
            }
            i += 1;
        }
        assert(self@.take(i as int) =~= self@);
        TextSet { items }
    }
}

impl TextSet {
    #[verifier::type_invariant]
    closed spec fn inv(self) -> bool {
        ordered(text::texts(self.items@))
    }

    /// The set of strings.
    pub open spec fn members(self) -> Set<Seq<char>> {
        self@.to_set()
    }

    pub fn new() -> (r: TextSet)
        ensures
            r@ == Seq::<Seq<char>>::empty(),
    {
        let r = TextSet { items: Vec::new() };
        assert(r@ =~= Seq::<Seq<char>>::empty());
        r
    }

    pub fn len(&self) -> (r: usize)
        ensures
            r == self@.len(),
    {
        self.items.len()
    }

    pub fn is_empty(&self) -> (r: bool)
        ensures
            r == (self@.len() == 0),
    {
        self.items.len() == 0
    }

    /// The strings in ascending order.
    pub fn items(&self) -> (r: &Vec<String>)
        ensures
            text::texts(r@) == self@,
            ordered(self@),
    {
        proof {
            use_type_invariant(self);
        }
        &self.items
    }

    /// The position of the first string that does not stand before `s`.
    fn seek(&self, s: &str) -> (r: usize)
        ensures
            r <= self@.len(),
            forall|j: int| 0 <= j < r ==> order::text_rank(#[trigger] self@[j], s@) == Rank::Before,
            r < self@.len() ==> order::text_rank(self@[r as int], s@) != Rank::Before,
    {
        let mut i: usize = 0;
        while i < self.items.len()
            invariant
                i <= self@.len() == self.items@.len(),
                forall|j: int|
                    0 <= j < i ==> order::text_rank(#[trigger] self@[j], s@) == Rank::Before,
            decreases self@.len() - i,
        {
            if rank_text(self.items[i].as_str(), s) != Rank::Before {
                return i;
            }
            i += 1;
        }
        i
    }

    pub fn contains(&self, s: &str) -> (r: bool)
        ensures
            r == self@.contains(s@),
    {
        proof {
            use_type_invariant(self);
        }
        let i: usize = self.seek(s);
        proof {
            lemma_found_at(self@, s@, i as int);
        }
        i < self.items.len() && rank_text(self.items[i].as_str(), s) == Rank::Same
    }

    /// Add a string; adding one that is already there changes nothing.
    pub fn insert(&mut self, s: String)
        ensures
            final(self).members() == old(self).members().insert(s@),
    {
        proof {
            use_type_invariant(&*self);
        }
        let i: usize = self.seek(s.as_str());
        let ghost before = self@;
        let ghost added = s@;
        proof {
            lemma_found_at(before, added, i as int);
        }
        if i < self.items.len() && rank_text(self.items[i].as_str(), s.as_str()) == Rank::Same {
            assert(before.to_set().insert(added) =~= before.to_set());
            return;
        }
        let mut items: Vec<String> = Vec::new();
        std::mem::swap(&mut self.items, &mut items);
        let ghost list = items@;
        items.insert(i, s);
        proof {
            assert(text::texts(items@) =~= before.insert(i as int, added));
            lemma_inserted(before, added, i as int);
        }
        self.items = items;
    }

    /// Add every string of another set.
    pub fn extend(&mut self, other: &TextSet)
        ensures
            final(self).members() == old(self).members().union(other.members()),
    {
        let items: &Vec<String> = other.items();
        let mut i: usize = 0;
        assert(self.members() =~= old(self).members().union(text::texts(items@).take(0).to_set()));
        while i < items.len()
            invariant
                i <= items@.len(),
                text::texts(items@) == other@,
                self.members() == old(self).members().union(
                    text::texts(items@).take(i as int).to_set(),
                ),
            decreases items@.len() - i,
        {
            self.insert(items[i].clone());
            proof {
                let all = text::texts(items@);
                lemma_to_set_of_push(all.take(i as int), all[i as int]);
                assert(all.take(i + 1) =~= all.take(i as int).push(all[i as int]));
                assert(self.members() =~= old(self).members().union(all.take(i + 1).to_set()));
            }
            i += 1;
        }
        assert(text::texts(items@).take(i as int) =~= other@);
    }

    /// Whether two sets hold the same strings.
    pub fn same(&self, other: &TextSet) -> (r: bool)
        ensures
            r == (self@ == other@),
    {
        if self.items.len() != other.items.len() {
            return false;
        }
        let mut i: usize = 0;
        while i < self.items.len()
            invariant
                i <= self@.len() == other@.len(),
                self@.len() == self.items@.len(),
                other@.len() == other.items@.len(),
                forall|j: int| 0 <= j < i ==> self@[j] == other@[j],
            decreases self@.len() - i,
        {
            if self.items[i] != other.items[i] {
                assert(self@[i as int] != other@[i as int]);
                return false;
            }
            i += 1;
        }
        assert(self@ =~= other@);
        true
    }
}

/// Where the search ends decides membership.
proof fn lemma_found_at(l: Seq<Seq<char>>, s: Seq<char>, i: int)
    requires
        ordered(l),
        0 <= i <= l.len(),
        forall|j: int| 0 <= j < i ==> order::text_rank(#[trigger] l[j], s) == Rank::Before,
        i < l.len() ==> order::text_rank(l[i], s) != Rank::Before,
    ensures
        l.contains(s) <==> i < l.len() && order::text_rank(l[i], s) == Rank::Same,
        i < l.len() && order::text_rank(l[i], s) != Rank::Same ==> order::text_rank(s, l[i])
            == Rank::Before,
{
    if i < l.len() {
        order::lemma_text_rank_same(l[i], s);
        order::lemma_seq_rank_flips(order::codes(l[i]), order::codes(s));
    }
    if l.contains(s) {
        let k = l.index_of(s);
        order::lemma_text_rank_same(s, s);
        if k > i {
            order::lemma_seq_rank_flips(order::codes(l[i]), order::codes(s));
            assert(order::text_rank(l[i], l[k]) == Rank::Before);
        }
    }
}

proof fn lemma_to_set_of_push(l: Seq<Seq<char>>, s: Seq<char>)
    ensures
        l.push(s).to_set() == l.to_set().insert(s),
{
    let pushed = l.push(s);
    assert forall|x: Seq<char>| pushed.to_set().contains(x) <==> l.to_set().insert(s).contains(
        x,
    ) by {
        if l.contains(x) {
            let k = l.index_of(x);
            assert(pushed[k] == x);
        }
        assert(pushed[l.len() as int] == s);
    }
    assert(pushed.to_set() =~= l.to_set().insert(s));
}

/// The first `n + 1` texts are the first `n` and the next one.
pub proof fn lemma_take_next(l: Seq<Seq<char>>, n: int)
    requires
        0 <= n < l.len(),
    ensures
        l.take(n + 1).to_set() == l.take(n).to_set().insert(l[n]),
{
    lemma_to_set_of_push(l.take(n), l[n]);
    assert(l.take(n + 1) =~= l.take(n).push(l[n]));
}

/// Inserting between its neighbours keeps the order and adds one member.
proof fn lemma_inserted(l: Seq<Seq<char>>, s: Seq<char>, i: int)
    requires
        ordered(l),
        0 <= i <= l.len(),
        forall|j: int| 0 <= j < i ==> order::text_rank(#[trigger] l[j], s) == Rank::Before,
        i < l.len() ==> order::text_rank(s, l[i]) == Rank::Before,
    ensures
        ordered(l.insert(i, s)),
        l.insert(i, s).to_set() == l.to_set().insert(s),
{
    let m = l.insert(i, s);
    assert forall|a: int, b: int|
        #![trigger m[a], m[b]]
        0 <= a < b < m.len() implies order::text_rank(m[a], m[b]) == Rank::Before by {
        if a < i && b == i {
            assert(m[a] == l[a]);
        } else if a == i && b > i {
            if b - 1 > i {
                assert(order::text_rank(l[i], l[b - 1]) == Rank::Before);
                order::lemma_seq_rank_transitive(
                    order::codes(s),
                    order::codes(l[i]),
                    order::codes(l[b - 1]),
                );
            }
            assert(m[b] == l[b - 1]);
        } else {
            let x = if a < i {
                a
            } else {
                a - 1
            };
            let y = if b < i {
                b
            } else {
                b - 1
            };
            assert(m[a] == l[x] && m[b] == l[y]);
        }
    }
    assert forall|x: Seq<char>| m.to_set().contains(x) <==> l.to_set().insert(s).contains(x) by {
        if l.contains(x) {
            let k = l.index_of(x);
            if k < i {
                assert(m[k] == x);
            } else {
                assert(m[k + 1] == x);
            }
        }
        assert(m[i] == s);
        if m.contains(x) && x != s {
            let k = m.index_of(x);
            if k < i {
                assert(l[k] == x);
            } else {
                assert(l[k - 1] == x);
            }
        }
    }
    assert(m.to_set() =~= l.to_set().insert(s));
}

/// An ordered list is determined by its members: a set is listed in one way
/// only.
pub proof fn law_a_set_has_one_listing(a: Seq<Seq<char>>, b: Seq<Seq<char>>)
    requires
        ordered(a),
        ordered(b),
        a.to_set() == b.to_set(),
    ensures
        a == b,
    decreases a.len(),
{
    if a.len() == 0 {
        if b.len() > 0 {
            assert(b.to_set().contains(b[0]));
            assert(a.contains(b[0]));
        }
        assert(a =~= b);
    } else {
        assert(a.to_set().contains(a.last()));
        assert(b.contains(a.last()));
        assert(b.to_set().contains(b.last()));
        assert(a.contains(b.last()));
        let i = b.index_of(a.last());
        let j = a.index_of(b.last());
        if i < b.len() - 1 {
            assert(order::text_rank(b[i], b[b.len() - 1]) == Rank::Before);
            if j < a.len() - 1 {
                assert(order::text_rank(a[j], a[a.len() - 1]) == Rank::Before);
                order::lemma_seq_rank_flips(
                    order::codes(a.last()),
                    order::codes(b.last()),
                );
            } else {
                order::lemma_text_rank_same(a.last(), b.last());
            }
        }
        assert(a.last() == b.last());
        let a1 = a.drop_last();
        let b1 = b.drop_last();
        assert forall|x: Seq<char>| a1.to_set().contains(x) <==> b1.to_set().contains(x) by {
            if a1.contains(x) {
                let k = a1.index_of(x);
                assert(a[k] == x);
                assert(a.to_set().contains(x));
                assert(b.contains(x));
                let m = b.index_of(x);
                assert(order::text_rank(a[k], a[a.len() - 1]) == Rank::Before);
                order::lemma_text_rank_same(x, a.last());
                assert(m < b.len() - 1);
                assert(b1[m] == x);
            }
            if b1.contains(x) {
                let k = b1.index_of(x);
                assert(b[k] == x);
                assert(b.to_set().contains(x));
                assert(a.contains(x));
                let m = a.index_of(x);
                assert(order::text_rank(b[k], b[b.len() - 1]) == Rank::Before);
                order::lemma_text_rank_same(x, b.last());
                assert(m < a.len() - 1);
                assert(a1[m] == x);
            }
        }
        assert(a1.to_set() =~= b1.to_set());
        law_a_set_has_one_listing(a1, b1);
        assert(a =~= a1.push(a.last()));
        assert(b =~= b1.push(b.last()));
    }
}

// ---- Sets of numbers ------------------------------------------------------------

/// The members of `s` below `limit`, in ascending order.
pub open spec fn below(s: Set<u16>, limit: nat) -> Seq<u16>
    decreases limit,
{
    if limit == 0 {
        Seq::empty()
    } else {
        let rest = below(s, (limit - 1) as nat);
        if s.contains((limit - 1) as u16) {
            rest.push((limit - 1) as u16)
        } else {
            rest
        }
    }
}

/// The members of `s` in ascending order.
pub open spec fn ascending(s: Set<u16>) -> Seq<u16> {
    below(s, 65536)
}

/// Any strictly ascending listing of a set is its listing.
proof fn lemma_listing(l: Seq<u16>, s: Set<u16>, limit: nat, n: int)
    requires
        limit <= 65536,
        0 <= n <= l.len(),
        forall|i: int, j: int| 0 <= i < j < l.len() ==> l[i] < l[j],
        l.to_set() == s,
        forall|i: int| 0 <= i < n ==> l[i] < limit,
        forall|i: int| n <= i < l.len() ==> l[i] >= limit,
    ensures
        below(s, limit) == l.take(n),
    decreases limit,
{
    if limit == 0 {
        assert(n == 0) by {
            if n > 0 {
                assert(l[0] < limit);
            }
        }
        assert(l.take(n) =~= Seq::<u16>::empty());
    } else {
        let top = (limit - 1) as u16;
        if s.contains(top) {
            assert(l.to_set().contains(top));
            let k = l.index_of(top);
            assert(l[k] == top);
            assert(k < n);
            if k < n - 1 {
                assert(l[k] < l[n - 1]);
            }
            lemma_listing(l, s, (limit - 1) as nat, n - 1);
            assert(l.take(n) =~= l.take(n - 1).push(top));
        } else {
            assert forall|i: int| 0 <= i < n implies l[i] < limit - 1 by {
                if l[i] == top {
                    assert(l.to_set().contains(l[i]));
                }
            }
            lemma_listing(l, s, (limit - 1) as nat, n);
        }
    }
}

fn walk(s: &BTreeSet<u16>) -> (r: Vec<u16>)
    ensures
        r@.to_set() == s@,
        forall|i: int, j: int| 0 <= i < j < r@.len() ==> r@[i] < r@[j],
{
    let mut out: Vec<u16> = Vec::new();
    let ghost listed = vstd::std_specs::iter::IteratorSpec::remaining(&s.iter());
    for x in it: s.iter()
        invariant
            it.seq() == listed,
            out@ == listed.unref().take(it.index()),
    {
        out.push(*x);
        assert(out@ =~= listed.unref().take(it.index() + 1));
    }
    assert(out@ =~= listed.unref());
    assert(vstd::laws_cmp::obeys_cmp::<&u16>());
    assert forall|i: int, j: int| 0 <= i < j < out@.len() implies out@[i] < out@[j] by {
        assert(vstd::std_specs::btree::increasing_seq(listed));
        assert(vstd::std_specs::cmp::OrdSpec::cmp_spec(&listed[i], &listed[j]) is Less);
    }
    out
}

/// The members of a set of numbers, in ascending order.
pub fn listed(s: &BTreeSet<u16>) -> (r: Vec<u16>)
    ensures
        r@ == ascending(s@),
{
    let r: Vec<u16> = walk(s);
    proof {
        lemma_listing(r@, s@, 65536, r@.len() as int);
        assert(r@.take(r@.len() as int) =~= r@);
    }
    r
}

} // verus!
