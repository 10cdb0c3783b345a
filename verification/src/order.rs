//! Lexicographic order on text and on lists of numbers.
use vstd::prelude::*;

verus! {

/// How one value stands to another in an order.
#[derive(Clone, Copy, PartialEq, Eq, Structural, Debug)]
pub enum Rank {
    Before,
    Same,
    After,
}

/// The rank seen from the other side.
pub open spec fn flipped(r: Rank) -> Rank {
    match r {
        Rank::Before => Rank::After,
        Rank::Same => Rank::Same,
        Rank::After => Rank::Before,
    }
}

/// How `a` stands to `b` by size.
pub open spec fn int_rank(a: int, b: int) -> Rank {
    if a < b {
        Rank::Before
    } else if a == b {
        Rank::Same
    } else {
        Rank::After
    }
}

/// How `a` stands to `b` in lexicographic order.
pub open spec fn seq_rank(a: Seq<int>, b: Seq<int>) -> Rank
    decreases a.len(),
{
    if a.len() == 0 && b.len() == 0 {
        Rank::Same
    } else if a.len() == 0 {
        Rank::Before
    } else if b.len() == 0 {
        Rank::After
    } else if a[0] != b[0] {
        int_rank(a[0], b[0])
    } else {
        seq_rank(a.skip(1), b.skip(1))
    }
}

/// The code points of a text.
pub open spec fn codes(s: Seq<char>) -> Seq<int> {
    Seq::new(s.len(), |i: int| s[i] as int)
}

/// How `a` stands to `b` in the order of strings.
pub open spec fn text_rank(a: Seq<char>, b: Seq<char>) -> Rank {
    seq_rank(codes(a), codes(b))
}

/// The first rank, or the second where the first leaves a tie.
pub open spec fn tie_break(first: Rank, second: Rank) -> Rank {
    if first != Rank::Same {
        first
    } else {
        second
    }
}

/// Only equal sequences rank the same.
pub proof fn lemma_seq_rank_same(a: Seq<int>, b: Seq<int>)
    ensures
        seq_rank(a, b) == Rank::Same <==> a == b,
    decreases a.len(),
{
    if a.len() > 0 && b.len() > 0 && a[0] == b[0] {
        lemma_seq_rank_same(a.skip(1), b.skip(1));
        assert(a =~= seq![a[0]] + a.skip(1));
        assert(b =~= seq![b[0]] + b.skip(1));
    } else if a.len() == 0 && b.len() == 0 {
        assert(a =~= b);
    }
}

pub proof fn lemma_seq_rank_flips(a: Seq<int>, b: Seq<int>)
    ensures
        seq_rank(b, a) == flipped(seq_rank(a, b)),
    decreases a.len(),
{
    if a.len() > 0 && b.len() > 0 && a[0] == b[0] {
        lemma_seq_rank_flips(a.skip(1), b.skip(1));
    }
}

pub proof fn lemma_seq_rank_transitive(a: Seq<int>, b: Seq<int>, c: Seq<int>)
    requires
        seq_rank(a, b) == Rank::Before,
        seq_rank(b, c) != Rank::After,
    ensures
        seq_rank(a, c) == Rank::Before,
    decreases a.len(),
{
    if a.len() > 0 && b.len() > 0 && c.len() > 0 && a[0] == b[0] && b[0] == c[0] {
        lemma_seq_rank_transitive(a.skip(1), b.skip(1), c.skip(1));
    }
}

/// Only equal texts rank the same.
pub proof fn lemma_text_rank_same(a: Seq<char>, b: Seq<char>)
    ensures
        text_rank(a, b) == Rank::Same <==> a == b,
{
    lemma_seq_rank_same(codes(a), codes(b));
    if codes(a) == codes(b) {
        assert forall|i: int| 0 <= i < a.len() implies a[i] == b[i] by {
            assert(codes(a)[i] == codes(b)[i]);
        }
        assert(a =~= b);
    }
}

proof fn lemma_seq_rank_skips(a: Seq<int>, b: Seq<int>, n: int)
    requires
        0 <= n <= a.len(),
        n <= b.len(),
        forall|i: int| 0 <= i < n ==> a[i] == b[i],
    ensures
        seq_rank(a, b) == seq_rank(a.skip(n), b.skip(n)),
    decreases n,
{
    if n == 0 {
        assert(a.skip(0) =~= a);
        assert(b.skip(0) =~= b);
    } else {
        lemma_seq_rank_skips(a.skip(1), b.skip(1), n - 1);
        assert(a.skip(1).skip(n - 1) =~= a.skip(n));
        assert(b.skip(1).skip(n - 1) =~= b.skip(n));
    }
}

/// How `a` stands to `b` in the order of strings.
pub fn rank_text(a: &str, b: &str) -> (r: Rank)
    ensures
        r == text_rank(a@, b@),
{
    let x: Vec<char> = crate::text::chars_of(a);
    let y: Vec<char> = crate::text::chars_of(b);
    let mut i: usize = 0;
    while i < x.len() && i < y.len() && x[i] == y[i]
        invariant
            i <= x@.len(),
            i <= y@.len(),
            forall|j: int| 0 <= j < i ==> x@[j] == y@[j],
        decreases x@.len() - i,
    {
        i += 1;
    }
    proof {
        lemma_seq_rank_skips(codes(x@), codes(y@), i as int);
    }
    if i < x.len() && i < y.len() {
        if x[i] < y[i] {
            Rank::Before
        } else {
            Rank::After
        }
    } else if i < y.len() {
        Rank::Before
    } else if i < x.len() {
        Rank::After
    } else {
        Rank::Same
    }
}

/// How one list of numbers stands to another.
pub fn rank_numbers(x: &[u16], y: &[u16]) -> (r: Rank)
    ensures
        r == seq_rank(numbers(x@), numbers(y@)),
{
    let mut i: usize = 0;
    while i < x.len() && i < y.len() && x[i] == y[i]
        invariant
            i <= x@.len(),
            i <= y@.len(),
            forall|j: int| 0 <= j < i ==> x@[j] == y@[j],
        decreases x@.len() - i,
    {
        i += 1;
    }
    proof {
        lemma_seq_rank_skips(numbers(x@), numbers(y@), i as int);
    }
    if i < x.len() && i < y.len() {
        if x[i] < y[i] {
            Rank::Before
        } else {
            Rank::After
        }
    } else if i < y.len() {
        Rank::Before
    } else if i < x.len() {
        Rank::After
    } else {
        Rank::Same
    }
}

/// A list of sixteen-bit numbers as integers.
pub open spec fn numbers(s: Seq<u16>) -> Seq<int> {
    Seq::new(s.len(), |i: int| s[i] as int)
}

/// How one number stands to another.
pub fn rank_number(a: u64, b: u64) -> (r: Rank)
    ensures
        r == seq_rank(seq![a as int], seq![b as int]),
{
    proof {
        reveal_with_fuel(seq_rank, 2);
        assert(seq![a as int].skip(1) =~= Seq::<int>::empty());
        assert(seq![b as int].skip(1) =~= Seq::<int>::empty());
    }
    if a < b {
        Rank::Before
    } else if a == b {
        Rank::Same
    } else {
        Rank::After
    }
}

} // verus!
