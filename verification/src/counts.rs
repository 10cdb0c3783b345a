//! Counters per table row: which traffic was seen, and how much of it.
//!
//! Rows are kept in the order in which they were first seen.
use crate::parse;
use crate::parse::{AppInfo, Frame, Protocol, Redundancy, VlanTags};
use vstd::prelude::*;

verus! {

// ---- Keys and counters ----------------------------------------------------------

/// Everything that distinguishes one table row from another within a protocol.
///
/// Two frames of the same protocol that differ in any of these get separate
/// rows, each accumulating its own byte count.
#[derive(PartialEq, Eq, Hash, Debug)]
pub struct StatKey {
    pub vlans: VlanTags,
    pub redundancy: Redundancy,
    pub app: AppInfo,
}

/// The content of a [`StatKey`].
#[verifier::ext_equal]
pub ghost struct StatKeyView {
    pub vlans: Seq<(u16, u8)>,
    pub redundancy: Redundancy,
    pub app: parse::AppInfoView,
}

impl View for StatKey {
    type V = StatKeyView;

    open spec fn view(&self) -> StatKeyView {
        StatKeyView { vlans: self.vlans@, redundancy: self.redundancy, app: self.app@ }
    }
}

/// The key under which a frame is counted.
pub open spec fn key_of(f: parse::FrameView) -> StatKeyView {
    StatKeyView { vlans: f.vlans, redundancy: f.redundancy, app: f.app }
}

impl Clone for StatKey {
    fn clone(&self) -> (r: StatKey)
        ensures
            r@ == self@,
    {
        StatKey { vlans: self.vlans, redundancy: self.redundancy, app: self.app.clone() }
    }
}

impl StatKey {
    /// The key under which a frame is counted.
    pub fn of(f: &Frame) -> (r: StatKey)
        ensures
            r@ == key_of(f@),
    {
        StatKey { vlans: f.vlans, redundancy: f.redundancy, app: f.app.clone() }
    }

    /// Whether two keys name the same row.
    pub fn same(&self, other: &StatKey) -> (r: bool)
        ensures
            r == (self@ == other@),
    {
        self.redundancy == other.redundancy && self.vlans.same(&other.vlans) && self.app.same(
            &other.app,
        )
    }
}

/// Packets and bytes.
#[derive(Clone, Copy, Debug, PartialEq, Eq, Structural)]
pub struct Counter {
    pub packets: u64,
    pub bytes: u64,
}

/// No traffic.
pub open spec fn zero() -> Counter {
    Counter { packets: 0, bytes: 0 }
}

/// Whether two counts can be added.
pub open spec fn addable(a: Counter, b: Counter) -> bool {
    a.packets + b.packets <= u64::MAX && a.bytes + b.bytes <= u64::MAX
}

/// The sum of two counts.
pub open spec fn plus(a: Counter, b: Counter) -> Counter {
    Counter { packets: (a.packets + b.packets) as u64, bytes: (a.bytes + b.bytes) as u64 }
}

/// One packet of the given size.
pub open spec fn packet(size: u64) -> Counter {
    Counter { packets: 1, bytes: size }
}

impl Default for Counter {
    fn default() -> (r: Counter)
        ensures
            r == zero(),
    {
        Counter { packets: 0, bytes: 0 }
    }
}

impl Counter {
    /// Count one packet.
    pub fn add(&mut self, bytes: u64)
        requires
            addable(*old(self), packet(bytes)),
        ensures
            *final(self) == plus(*old(self), packet(bytes)),
    {
        self.packets += 1;
        self.bytes += bytes;
    }

    /// Count what another counter counted.
    pub fn merge(&mut self, other: Counter)
        requires
            addable(*old(self), other),
        ensures
            *final(self) == plus(*old(self), other),
    {
        self.packets += other.packets;
        self.bytes += other.bytes;
    }
}

// ---- Rows of one protocol: model --------------------------------------------------

/// Whether no key has two rows.
pub open spec fn distinct(es: Seq<(StatKeyView, Counter)>) -> bool {
    forall|i: int, j: int|
        #![trigger es[i], es[j]]
        0 <= i < j < es.len() ==> es[i].0 != es[j].0
}

/// Whether row `i` is the row of a key.
pub open spec fn row_at(es: Seq<(StatKeyView, Counter)>, k: StatKeyView, i: int) -> bool {
    0 <= i < es.len() && es[i].0 == k
}

/// Whether a key has a row.
pub open spec fn has_row(es: Seq<(StatKeyView, Counter)>, k: StatKeyView) -> bool {
    exists|i: int| row_at(es, k, i)
}

/// The position of a key's row.
pub open spec fn row_of(es: Seq<(StatKeyView, Counter)>, k: StatKeyView) -> int {
    choose|i: int| row_at(es, k, i)
}

/// What was counted under a key.
pub open spec fn tally(es: Seq<(StatKeyView, Counter)>, k: StatKeyView) -> Counter {
    if has_row(es, k) {
        es[row_of(es, k)].1
    } else {
        zero()
    }
}

/// The rows after counting `c` under `k`: added to the key's row, or a new
/// last row.
pub open spec fn added(
    es: Seq<(StatKeyView, Counter)>,
    k: StatKeyView,
    c: Counter,
) -> Seq<(StatKeyView, Counter)> {
    if has_row(es, k) {
        es.update(row_of(es, k), (k, plus(tally(es, k), c)))
    } else {
        es.push((k, c))
    }
}

/// All packets counted in the rows.
pub open spec fn packets_in(es: Seq<(StatKeyView, Counter)>) -> nat
    decreases es.len(),
{
    if es.len() == 0 {
        0
    } else {
        packets_in(es.drop_last()) + es.last().1.packets as nat
    }
}

/// All bytes counted in the rows.
pub open spec fn bytes_in(es: Seq<(StatKeyView, Counter)>) -> nat
    decreases es.len(),
{
    if es.len() == 0 {
        0
    } else {
        bytes_in(es.drop_last()) + es.last().1.bytes as nat
    }
}

/// With distinct keys, the row of a key is the only one carrying it.
pub proof fn lemma_row_of(es: Seq<(StatKeyView, Counter)>, k: StatKeyView, i: int)
    requires
        distinct(es),
        row_at(es, k, i),
    ensures
        has_row(es, k),
        row_of(es, k) == i,
{
    let j = row_of(es, k);
    assert(row_at(es, k, j));
    if i < j {
        assert(es[i].0 != es[j].0);
    } else if j < i {
        assert(es[j].0 != es[i].0);
    }
}

/// Replacing a row changes the totals by what it counted more or less.
proof fn lemma_totals_update(es: Seq<(StatKeyView, Counter)>, i: int, e: (StatKeyView, Counter))
    requires
        0 <= i < es.len(),
    ensures
        packets_in(es.update(i, e)) + es[i].1.packets == packets_in(es) + e.1.packets,
        bytes_in(es.update(i, e)) + es[i].1.bytes == bytes_in(es) + e.1.bytes,
    decreases es.len(),
{
    let u = es.update(i, e);
    if i == es.len() - 1 {
        assert(u.drop_last() =~= es.drop_last());
    } else {
        lemma_totals_update(es.drop_last(), i, e);
        assert(u.drop_last() =~= es.drop_last().update(i, e));
    }
}

/// No row counts more than all rows together.
pub proof fn lemma_row_within_total(es: Seq<(StatKeyView, Counter)>, i: int)
    requires
        0 <= i < es.len(),
    ensures
        es[i].1.packets <= packets_in(es),
        es[i].1.bytes <= bytes_in(es),
    decreases es.len(),
{
    if i < es.len() - 1 {
        lemma_row_within_total(es.drop_last(), i);
    }
}

/// No key counts more than all keys together.
pub proof fn lemma_tally_within_total(es: Seq<(StatKeyView, Counter)>, k: StatKeyView)
    ensures
        tally(es, k).packets <= packets_in(es),
        tally(es, k).bytes <= bytes_in(es),
{
    if has_row(es, k) {
        assert(row_at(es, k, row_of(es, k)));
        lemma_row_within_total(es, row_of(es, k));
    }
}

/// Counting keeps keys distinct, adds to the totals, and changes the tally of
/// one key only.
pub proof fn lemma_added(es: Seq<(StatKeyView, Counter)>, k: StatKeyView, c: Counter)
    requires
        distinct(es),
        addable(tally(es, k), c),
    ensures
        distinct(added(es, k, c)),
        added(es, k, c).len() > 0,
        packets_in(added(es, k, c)) == packets_in(es) + c.packets,
        bytes_in(added(es, k, c)) == bytes_in(es) + c.bytes,
        forall|q: StatKeyView| #[trigger]
            tally(added(es, k, c), q) == (if q == k {
                plus(tally(es, k), c)
            } else {
                tally(es, q)
            }),
{
    let a = added(es, k, c);
    if has_row(es, k) {
        let i = row_of(es, k);
        assert(row_at(es, k, i));
        lemma_totals_update(es, i, (k, plus(tally(es, k), c)));
    } else {
        assert(a.drop_last() =~= es);
        assert forall|i: int| 0 <= i < es.len() implies (#[trigger] es[i]).0 != k by {
            if es[i].0 == k {
                assert(row_at(es, k, i));
            }
        }
    }
    assert(distinct(a));
    assert forall|q: StatKeyView| #[trigger]
        tally(a, q) == (if q == k {
            plus(tally(es, k), c)
        } else {
            tally(es, q)
        }) by {
        if q == k {
            let i = if has_row(es, k) {
                row_of(es, k)
            } else {
                es.len() as int
            };
            if has_row(es, k) {
                assert(row_at(es, k, i));
            }
            assert(row_at(a, k, i));
            lemma_row_of(a, k, i);
        } else if has_row(es, q) {
            let i = row_of(es, q);
            assert(row_at(es, q, i));
            assert(row_at(a, q, i)) by {
                if has_row(es, k) {
                    assert(row_at(es, k, row_of(es, k)));
                }
            }
            lemma_row_of(a, q, i);
        } else if has_row(a, q) {
            let i = row_of(a, q);
            assert(row_at(a, q, i));
            if has_row(es, k) {
                assert(row_at(es, k, row_of(es, k)));
            }
            assert(row_at(es, q, i));
        }
    }
}

// ---- Rows of one protocol ------------------------------------------------------------

/// The rows of one protocol, one for each key.
#[derive(Debug)]
pub struct KeyMap {
    entries: Vec<(StatKey, Counter)>,
}

/// The content of a list of rows.
pub open spec fn entries_view(v: Seq<(StatKey, Counter)>) -> Seq<(StatKeyView, Counter)> {
    Seq::new(v.len(), |i: int| (v[i].0@, v[i].1))
}

impl View for KeyMap {
    type V = Seq<(StatKeyView, Counter)>;

    closed spec fn view(&self) -> Seq<(StatKeyView, Counter)> {
        entries_view(self.entries@)
    }
}

impl Default for KeyMap {
    fn default() -> (r: KeyMap)
        ensures
            r@ == Seq::<(StatKeyView, Counter)>::empty(),
    {
        KeyMap::new()
    }
}

impl Clone for KeyMap {
    fn clone(&self) -> (r: KeyMap)
        ensures
            r@ == self@,
    {
        proof {
            use_type_invariant(self);
        }
        let mut entries: Vec<(StatKey, Counter)> = Vec::new();
        let mut i: usize = 0;
        while i < self.entries.len()
            invariant
                i <= self.entries@.len(),
                entries_view(entries@) == self@.take(i as int),
            decreases self.entries@.len() - i,
        {
            let ghost before = entries_view(entries@);
            entries.push((self.entries[i].0.clone(), self.entries[i].1));
            assert(entries_view(entries@) =~= before.push(self@[i as int]));
            assert(self@.take(i + 1) =~= before.push(self@[i as int]));
            i += 1;
        }
        assert(self@.take(i as int) =~= self@);
        KeyMap { entries }
    }
}

impl KeyMap {
    #[verifier::type_invariant]
    closed spec fn inv(self) -> bool {
        distinct(entries_view(self.entries@))
    }

    pub fn new() -> (r: KeyMap)
        ensures
            r@ == Seq::<(StatKeyView, Counter)>::empty(),
    {
        let r = KeyMap { entries: Vec::new() };
        assert(r@ =~= Seq::<(StatKeyView, Counter)>::empty());
        r
    }

    pub fn len(&self) -> (r: usize)
        ensures
            r == self@.len(),
    {
        self.entries.len()
    }

    pub fn is_empty(&self) -> (r: bool)
        ensures
            r == (self@.len() == 0),
    {
        self.entries.len() == 0
    }

    /// The rows, in the order in which their keys were first seen.
    pub fn entries(&self) -> (r: &Vec<(StatKey, Counter)>)
        ensures
            entries_view(r@) == self@,
            distinct(self@),
    {
        proof {
            use_type_invariant(self);
        }
        &self.entries
    }

    fn find(&self, key: &StatKey) -> (r: Option<usize>)
        ensures
            match r {
                Some(i) => row_at(self@, key@, i as int),
                None => !has_row(self@, key@),
            },
    {
        let mut i: usize = 0;
        while i < self.entries.len()
            invariant
                i <= self.entries@.len(),
                forall|j: int| 0 <= j < i ==> !#[trigger] row_at(self@, key@, j),
            decreases self.entries@.len() - i,
        {
            if self.entries[i].0.same(key) {
                return Some(i);
            }
            i += 1;
        }
        None
    }

    /// What was counted under a key.
    pub fn get(&self, key: &StatKey) -> (r: Option<Counter>)
        ensures
            match r {
                Some(c) => has_row(self@, key@) && c == tally(self@, key@),
                None => !has_row(self@, key@),
            },
    {
        proof {
            use_type_invariant(self);
        }
        match self.find(key) {
            Some(i) => {
                proof {
                    lemma_row_of(self@, key@, i as int);
                }
                Some(self.entries[i].1)
            },
            None => None,
        }
    }

    /// Count `c` under a key.
    pub fn add(&mut self, key: StatKey, c: Counter)
        requires
            addable(tally(old(self)@, key@), c),
        ensures
            final(self)@ == added(old(self)@, key@, c),
    {
        proof {
            use_type_invariant(&*self);
            lemma_added(self@, key@, c);
        }
        let ghost before = self@;
        let ghost k = key@;
        match self.find(&key) {
            Some(i) => {
                proof {
                    lemma_row_of(before, k, i as int);
                }
                let mut entries: Vec<(StatKey, Counter)> = Vec::new();
                std::mem::swap(&mut self.entries, &mut entries);
                entries[i].1.merge(c);
                assert(entries_view(entries@) =~= added(before, k, c));
                self.entries = entries;
            },
            None => {
                let mut entries: Vec<(StatKey, Counter)> = Vec::new();
                std::mem::swap(&mut self.entries, &mut entries);
                entries.push((key, c));
                assert(entries_view(entries@) =~= added(before, k, c));
                self.entries = entries;
            },
        }
    }

    /// All packets and bytes counted, where both sums fit.
    pub fn total(&self) -> (r: Option<Counter>)
        ensures
            match r {
                Some(c) => c.packets == packets_in(self@) && c.bytes == bytes_in(self@),
                None => packets_in(self@) > u64::MAX || bytes_in(self@) > u64::MAX,
            },
    {
        let mut sum: Counter = Counter::default();
        let mut i: usize = 0;
        while i < self.entries.len()
            invariant
                i <= self.entries@.len(),
                sum.packets == packets_in(self@.take(i as int)),
                sum.bytes == bytes_in(self@.take(i as int)),
            decreases self.entries@.len() - i,
        {
            let c: Counter = self.entries[i].1;
            proof {
                assert(self@.take(i + 1).drop_last() =~= self@.take(i as int));
                assert(self@.take(i + 1).last().1 == c);
            }
            if c.packets > u64::MAX - sum.packets || c.bytes > u64::MAX - sum.bytes {
                proof {
                    lemma_prefix_within_total(self@, i + 1);
                }
                return None;
            }
            sum.merge(c);
            i += 1;
        }
        assert(self@.take(i as int) =~= self@);
        Some(sum)
    }
}

/// Some of the rows count no more than all of them.
pub proof fn lemma_prefix_within_total(es: Seq<(StatKeyView, Counter)>, n: int)
    requires
        0 <= n <= es.len(),
    ensures
        packets_in(es.take(n)) <= packets_in(es),
        bytes_in(es.take(n)) <= bytes_in(es),
    decreases es.len() - n,
{
    if n < es.len() {
        lemma_prefix_within_total(es, n + 1);
        assert(es.take(n + 1).drop_last() =~= es.take(n));
    } else {
        assert(es.take(n) =~= es);
    }
}

// ---- Rows of all protocols: model ----------------------------------------------------

/// Whether no protocol stands twice.
pub open spec fn protocols_distinct(ps: Seq<(Protocol, Seq<(StatKeyView, Counter)>)>) -> bool {
    forall|i: int, j: int|
        #![trigger ps[i], ps[j]]
        0 <= i < j < ps.len() ==> ps[i].0 != ps[j].0
}

/// Whether neither a protocol nor a key within one stands twice.
pub open spec fn valid_stats(ps: Seq<(Protocol, Seq<(StatKeyView, Counter)>)>) -> bool {
    &&& protocols_distinct(ps)
    &&& forall|i: int| 0 <= i < ps.len() ==> distinct((#[trigger] ps[i]).1)
}

/// Whether a protocol stands at `i`.
pub open spec fn protocol_at(
    ps: Seq<(Protocol, Seq<(StatKeyView, Counter)>)>,
    p: Protocol,
    i: int,
) -> bool {
    0 <= i < ps.len() && ps[i].0 == p
}

/// Whether a protocol has been noted.
pub open spec fn has_protocol(
    ps: Seq<(Protocol, Seq<(StatKeyView, Counter)>)>,
    p: Protocol,
) -> bool {
    exists|i: int| protocol_at(ps, p, i)
}

/// The position of a protocol.
pub open spec fn protocol_of(
    ps: Seq<(Protocol, Seq<(StatKeyView, Counter)>)>,
    p: Protocol,
) -> int {
    choose|i: int| protocol_at(ps, p, i)
}

/// The rows of a protocol; none when it has not been noted.
pub open spec fn rows_of(
    ps: Seq<(Protocol, Seq<(StatKeyView, Counter)>)>,
    p: Protocol,
) -> Seq<(StatKeyView, Counter)> {
    if has_protocol(ps, p) {
        ps[protocol_of(ps, p)].1
    } else {
        Seq::empty()
    }
}

/// The statistics with the rows of one protocol replaced.
pub open spec fn with_rows(
    ps: Seq<(Protocol, Seq<(StatKeyView, Counter)>)>,
    p: Protocol,
    es: Seq<(StatKeyView, Counter)>,
) -> Seq<(Protocol, Seq<(StatKeyView, Counter)>)> {
    if has_protocol(ps, p) {
        ps.update(protocol_of(ps, p), (p, es))
    } else {
        ps.push((p, es))
    }
}

/// What was counted for a protocol under a key.
pub open spec fn tally_of(
    ps: Seq<(Protocol, Seq<(StatKeyView, Counter)>)>,
    p: Protocol,
    k: StatKeyView,
) -> Counter {
    tally(rows_of(ps, p), k)
}

/// The statistics after counting `c` for a protocol under a key.
pub open spec fn counted(
    ps: Seq<(Protocol, Seq<(StatKeyView, Counter)>)>,
    p: Protocol,
    k: StatKeyView,
    c: Counter,
) -> Seq<(Protocol, Seq<(StatKeyView, Counter)>)> {
    with_rows(ps, p, added(rows_of(ps, p), k, c))
}

/// The statistics after merging rows into one protocol, which is noted even
/// when there are none.
pub open spec fn merged_rows(
    ps: Seq<(Protocol, Seq<(StatKeyView, Counter)>)>,
    p: Protocol,
    es: Seq<(StatKeyView, Counter)>,
) -> Seq<(Protocol, Seq<(StatKeyView, Counter)>)>
    decreases es.len(),
{
    if es.len() == 0 {
        with_rows(ps, p, rows_of(ps, p))
    } else {
        counted(merged_rows(ps, p, es.drop_last()), p, es.last().0, es.last().1)
    }
}

/// The statistics after merging others into them.
pub open spec fn merged(
    ps: Seq<(Protocol, Seq<(StatKeyView, Counter)>)>,
    more: Seq<(Protocol, Seq<(StatKeyView, Counter)>)>,
) -> Seq<(Protocol, Seq<(StatKeyView, Counter)>)>
    decreases more.len(),
{
    if more.len() == 0 {
        ps
    } else {
        merged_rows(merged(ps, more.drop_last()), more.last().0, more.last().1)
    }
}

/// Whether rows can be merged into those of a protocol without any counter
/// running over.
pub open spec fn rows_addable(
    ps: Seq<(Protocol, Seq<(StatKeyView, Counter)>)>,
    p: Protocol,
    es: Seq<(StatKeyView, Counter)>,
) -> bool {
    forall|k: StatKeyView| addable(#[trigger] tally_of(ps, p, k), tally(es, k))
}

/// Whether statistics can be merged into others without any counter running
/// over.
pub open spec fn all_addable(
    ps: Seq<(Protocol, Seq<(StatKeyView, Counter)>)>,
    more: Seq<(Protocol, Seq<(StatKeyView, Counter)>)>,
) -> bool {
    forall|p: Protocol, k: StatKeyView|
        addable(#[trigger] tally_of(ps, p, k), tally_of(more, p, k))
}

/// All packets counted.
pub open spec fn packets_over(ps: Seq<(Protocol, Seq<(StatKeyView, Counter)>)>) -> nat
    decreases ps.len(),
{
    if ps.len() == 0 {
        0
    } else {
        packets_over(ps.drop_last()) + packets_in(ps.last().1)
    }
}

/// All bytes counted.
pub open spec fn bytes_over(ps: Seq<(Protocol, Seq<(StatKeyView, Counter)>)>) -> nat
    decreases ps.len(),
{
    if ps.len() == 0 {
        0
    } else {
        bytes_over(ps.drop_last()) + bytes_in(ps.last().1)
    }
}

/// A protocol stands in one place only.
pub proof fn lemma_protocol_of(
    ps: Seq<(Protocol, Seq<(StatKeyView, Counter)>)>,
    p: Protocol,
    i: int,
)
    requires
        protocols_distinct(ps),
        protocol_at(ps, p, i),
    ensures
        has_protocol(ps, p),
        protocol_of(ps, p) == i,
        rows_of(ps, p) == ps[i].1,
{
    let j = protocol_of(ps, p);
    assert(protocol_at(ps, p, j));
    if i < j {
        assert(ps[i].0 != ps[j].0);
    } else if j < i {
        assert(ps[j].0 != ps[i].0);
    }
}

/// The rows of a protocol are distinct.
pub proof fn lemma_rows_distinct(ps: Seq<(Protocol, Seq<(StatKeyView, Counter)>)>, p: Protocol)
    requires
        valid_stats(ps),
    ensures
        distinct(rows_of(ps, p)),
{
    if has_protocol(ps, p) {
        assert(protocol_at(ps, p, protocol_of(ps, p)));
    }
}

proof fn lemma_over_update(
    ps: Seq<(Protocol, Seq<(StatKeyView, Counter)>)>,
    i: int,
    e: (Protocol, Seq<(StatKeyView, Counter)>),
)
    requires
        0 <= i < ps.len(),
    ensures
        packets_over(ps.update(i, e)) + packets_in(ps[i].1) == packets_over(ps) + packets_in(e.1),
        bytes_over(ps.update(i, e)) + bytes_in(ps[i].1) == bytes_over(ps) + bytes_in(e.1),
    decreases ps.len(),
{
    let u = ps.update(i, e);
    if i == ps.len() - 1 {
        assert(u.drop_last() =~= ps.drop_last());
    } else {
        lemma_over_update(ps.drop_last(), i, e);
        assert(u.drop_last() =~= ps.drop_last().update(i, e));
    }
}

/// No protocol counts more than all protocols together.
pub proof fn lemma_rows_within_over(ps: Seq<(Protocol, Seq<(StatKeyView, Counter)>)>, p: Protocol)
    ensures
        packets_in(rows_of(ps, p)) <= packets_over(ps),
        bytes_in(rows_of(ps, p)) <= bytes_over(ps),
{
    if has_protocol(ps, p) {
        let i = protocol_of(ps, p);
        assert(protocol_at(ps, p, i));
        lemma_over_update(ps, i, (p, Seq::empty()));
    }
}

/// Replacing one protocol's rows touches no other.
pub proof fn lemma_with_rows(
    ps: Seq<(Protocol, Seq<(StatKeyView, Counter)>)>,
    p: Protocol,
    es: Seq<(StatKeyView, Counter)>,
)
    requires
        valid_stats(ps),
        distinct(es),
    ensures
        valid_stats(with_rows(ps, p, es)),
        has_protocol(with_rows(ps, p, es), p),
        forall|q: Protocol| #[trigger]
            rows_of(with_rows(ps, p, es), q) == (if q == p {
                es
            } else {
                rows_of(ps, q)
            }),
        packets_over(with_rows(ps, p, es)) + packets_in(rows_of(ps, p)) == packets_over(ps)
            + packets_in(es),
        bytes_over(with_rows(ps, p, es)) + bytes_in(rows_of(ps, p)) == bytes_over(ps) + bytes_in(
            es,
        ),
{
    let w = with_rows(ps, p, es);
    if has_protocol(ps, p) {
        let i = protocol_of(ps, p);
        assert(protocol_at(ps, p, i));
        lemma_over_update(ps, i, (p, es));
    } else {
        assert(w.drop_last() =~= ps);
        assert forall|i: int| 0 <= i < ps.len() implies (#[trigger] ps[i]).0 != p by {
            if ps[i].0 == p {
                assert(protocol_at(ps, p, i));
            }
        }
    }
    assert(protocols_distinct(w));
    let at = if has_protocol(ps, p) {
        protocol_of(ps, p)
    } else {
        ps.len() as int
    };
    assert(protocol_at(w, p, at));
    assert forall|q: Protocol| #[trigger]
        rows_of(w, q) == (if q == p {
            es
        } else {
            rows_of(ps, q)
        }) by {
        if q == p {
            lemma_protocol_of(w, p, at);
        } else if has_protocol(ps, q) {
            let i = protocol_of(ps, q);
            assert(protocol_at(ps, q, i));
            assert(protocol_at(w, q, i));
            lemma_protocol_of(w, q, i);
        } else if has_protocol(w, q) {
            let i = protocol_of(w, q);
            assert(protocol_at(w, q, i));
            assert(protocol_at(ps, q, i));
        }
    }
}

/// Counting adds to the totals and changes one tally only.
pub proof fn lemma_counted(
    ps: Seq<(Protocol, Seq<(StatKeyView, Counter)>)>,
    p: Protocol,
    k: StatKeyView,
    c: Counter,
)
    requires
        valid_stats(ps),
        addable(tally_of(ps, p, k), c),
    ensures
        valid_stats(counted(ps, p, k, c)),
        packets_over(counted(ps, p, k, c)) == packets_over(ps) + c.packets,
        bytes_over(counted(ps, p, k, c)) == bytes_over(ps) + c.bytes,
        rows_of(counted(ps, p, k, c), p) == added(rows_of(ps, p), k, c),
        forall|q: Protocol, j: StatKeyView| #[trigger]
            tally_of(counted(ps, p, k, c), q, j) == (if q == p && j == k {
                plus(tally_of(ps, p, k), c)
            } else {
                tally_of(ps, q, j)
            }),
{
    lemma_rows_distinct(ps, p);
    lemma_added(rows_of(ps, p), k, c);
    lemma_with_rows(ps, p, added(rows_of(ps, p), k, c));
}

/// A tally is no more than the totals, so a count that fits beside them fits
/// beside it.
pub proof fn lemma_tally_of_within(
    ps: Seq<(Protocol, Seq<(StatKeyView, Counter)>)>,
    p: Protocol,
    k: StatKeyView,
)
    ensures
        tally_of(ps, p, k).packets <= packets_over(ps),
        tally_of(ps, p, k).bytes <= bytes_over(ps),
{
    lemma_rows_within_over(ps, p);
    lemma_tally_within_total(rows_of(ps, p), k);
}

/// Merging rows adds their counts to one protocol.
pub proof fn lemma_merged_rows(
    ps: Seq<(Protocol, Seq<(StatKeyView, Counter)>)>,
    p: Protocol,
    es: Seq<(StatKeyView, Counter)>,
)
    requires
        valid_stats(ps),
        distinct(es),
        rows_addable(ps, p, es),
    ensures
        valid_stats(merged_rows(ps, p, es)),
        packets_over(merged_rows(ps, p, es)) == packets_over(ps) + packets_in(es),
        bytes_over(merged_rows(ps, p, es)) == bytes_over(ps) + bytes_in(es),
        forall|q: Protocol, j: StatKeyView| #[trigger]
            tally_of(merged_rows(ps, p, es), q, j) == (if q == p {
                plus(tally_of(ps, q, j), tally(es, j))
            } else {
                tally_of(ps, q, j)
            }),
    decreases es.len(),
{
    lemma_rows_distinct(ps, p);
    if es.len() == 0 {
        lemma_with_rows(ps, p, rows_of(ps, p));
        assert forall|j: StatKeyView| #[trigger] tally(es, j) == zero() by {
            if has_row(es, j) {
                assert(row_at(es, j, row_of(es, j)));
            }
        }
    } else {
        let front = es.drop_last();
        let (k, c) = es.last();
        let before = merged_rows(ps, p, front);
        assert forall|j: StatKeyView| #[trigger]
            tally(es, j) == (if j == k {
                c
            } else {
                tally(front, j)
            }) && tally(front, k) == zero() by {
            assert(row_at(es, k, es.len() - 1));
            lemma_row_of(es, k, es.len() - 1);
            if has_row(front, k) {
                let i = row_of(front, k);
                assert(row_at(front, k, i));
                assert(es[i].0 != es[es.len() - 1].0);
            }
            if j != k {
                if has_row(front, j) {
                    let i = row_of(front, j);
                    assert(row_at(front, j, i));
                    assert(row_at(es, j, i));
                    lemma_row_of(es, j, i);
                } else if has_row(es, j) {
                    let i = row_of(es, j);
                    assert(row_at(es, j, i));
                    assert(row_at(front, j, i));
                }
            }
        }
        assert(rows_addable(ps, p, front)) by {
            assert forall|j: StatKeyView|
                addable(#[trigger] tally_of(ps, p, j), tally(front, j)) by {
                assert(tally(es, j) == (if j == k {
                    c
                } else {
                    tally(front, j)
                }));
            }
        }
        lemma_merged_rows(ps, p, front);
        assert(tally(es, k) == c && tally(front, k) == zero());
        assert(tally_of(before, p, k) == plus(tally_of(ps, p, k), tally(front, k)));
        lemma_counted(before, p, k, c);
        assert forall|q: Protocol, j: StatKeyView| #[trigger]
            tally_of(merged_rows(ps, p, es), q, j) == (if q == p {
                plus(tally_of(ps, q, j), tally(es, j))
            } else {
                tally_of(ps, q, j)
            }) by {
            assert(tally(es, j) == (if j == k {
                c
            } else {
                tally(front, j)
            }));
            assert(tally_of(before, q, j) == (if q == p {
                plus(tally_of(ps, q, j), tally(front, j))
            } else {
                tally_of(ps, q, j)
            }));
        }
    }
}

/// Of rows that can be merged the first ones can, and the next row then fits.
proof fn lemma_prefix_addable(
    ps: Seq<(Protocol, Seq<(StatKeyView, Counter)>)>,
    p: Protocol,
    es: Seq<(StatKeyView, Counter)>,
    n: int,
)
    requires
        distinct(es),
        rows_addable(ps, p, es),
        0 <= n < es.len(),
    ensures
        rows_addable(ps, p, es.take(n)),
        tally(es.take(n), es[n].0) == zero(),
        addable(tally_of(ps, p, es[n].0), es[n].1),
{
    let front = es.take(n);
    assert forall|k: StatKeyView| addable(#[trigger] tally_of(ps, p, k), tally(front, k)) by {
        assert(addable(tally_of(ps, p, k), tally(es, k)));
        if has_row(front, k) {
            let i = row_of(front, k);
            assert(row_at(front, k, i));
            assert(row_at(es, k, i));
            lemma_row_of(es, k, i);
        }
    }
    assert(row_at(es, es[n].0, n));
    lemma_row_of(es, es[n].0, n);
    if has_row(front, es[n].0) {
        let i = row_of(front, es[n].0);
        assert(row_at(front, es[n].0, i));
        assert(es[i].0 != es[n].0);
    }
}

/// Statistics that fit together as a whole fit row by row.
pub proof fn lemma_all_addable(
    ps: Seq<(Protocol, Seq<(StatKeyView, Counter)>)>,
    more: Seq<(Protocol, Seq<(StatKeyView, Counter)>)>,
)
    requires
        packets_over(ps) + packets_over(more) <= u64::MAX,
        bytes_over(ps) + bytes_over(more) <= u64::MAX,
    ensures
        all_addable(ps, more),
{
    assert forall|p: Protocol, k: StatKeyView|
        addable(#[trigger] tally_of(ps, p, k), tally_of(more, p, k)) by {
        lemma_tally_of_within(ps, p, k);
        lemma_tally_of_within(more, p, k);
    }
}

/// Leaving out the last protocol leaves the tallies of the others.
proof fn lemma_front_tallies(more: Seq<(Protocol, Seq<(StatKeyView, Counter)>)>)
    requires
        valid_stats(more),
        more.len() > 0,
    ensures
        valid_stats(more.drop_last()),
        rows_of(more, more.last().0) == more.last().1,
        distinct(more.last().1),
        forall|q: Protocol, j: StatKeyView| #[trigger]
            tally_of(more.drop_last(), q, j) == (if q == more.last().0 {
                zero()
            } else {
                tally_of(more, q, j)
            }),
{
    let front = more.drop_last();
    let (p, es) = more.last();
    assert forall|i: int| 0 <= i < front.len() implies distinct((#[trigger] front[i]).1) by {
        assert(distinct(more[i].1));
    }
    assert(distinct(more[more.len() - 1].1));
    assert(protocol_at(more, p, more.len() - 1));
    lemma_protocol_of(more, p, more.len() - 1);
    assert forall|q: Protocol, j: StatKeyView| #[trigger]
        tally_of(front, q, j) == (if q == p {
            zero()
        } else {
            tally_of(more, q, j)
        }) by {
        if q == p {
            if has_protocol(front, p) {
                let i = protocol_of(front, p);
                assert(protocol_at(front, p, i));
                assert(more[i].0 != more[more.len() - 1].0);
            }
            assert(rows_of(front, q) =~= Seq::empty());
            if has_row(rows_of(front, q), j) {
                assert(row_at(rows_of(front, q), j, row_of(rows_of(front, q), j)));
            }
        } else if has_protocol(front, q) {
            let i = protocol_of(front, q);
            assert(protocol_at(front, q, i));
            assert(protocol_at(more, q, i));
            lemma_protocol_of(more, q, i);
        } else if has_protocol(more, q) {
            let i = protocol_of(more, q);
            assert(protocol_at(more, q, i));
            assert(protocol_at(front, q, i));
        }
    }
}

/// The first protocols count what all count for them, and nothing for the
/// others.
proof fn lemma_prefix_tallies(more: Seq<(Protocol, Seq<(StatKeyView, Counter)>)>, n: int)
    requires
        valid_stats(more),
        0 <= n <= more.len(),
    ensures
        valid_stats(more.take(n)),
        forall|q: Protocol, j: StatKeyView|
            (#[trigger] tally_of(more.take(n), q, j)) == tally_of(more, q, j) || tally_of(
                more.take(n),
                q,
                j,
            ) == zero(),
    decreases more.len() - n,
{
    if n < more.len() {
        let next = more.take(n + 1);
        lemma_prefix_tallies(more, n + 1);
        lemma_front_tallies(next);
        assert(next.drop_last() =~= more.take(n));
        assert forall|q: Protocol, j: StatKeyView|
            (#[trigger] tally_of(more.take(n), q, j)) == tally_of(more, q, j) || tally_of(
                more.take(n),
                q,
                j,
            ) == zero() by {
            assert(tally_of(next, q, j) == tally_of(more, q, j) || tally_of(next, q, j) == zero());
        }
    } else {
        assert(more.take(n) =~= more);
    }
}

/// The rows that a protocol brings fit beside what was merged before them.
proof fn lemma_front_addable(
    ps: Seq<(Protocol, Seq<(StatKeyView, Counter)>)>,
    more: Seq<(Protocol, Seq<(StatKeyView, Counter)>)>,
)
    requires
        valid_stats(ps),
        valid_stats(more),
        more.len() > 0,
        all_addable(ps, more),
    ensures
        all_addable(ps, more.drop_last()),
        rows_addable(merged(ps, more.drop_last()), more.last().0, more.last().1),
    decreases more.len() - 1, 1nat,
{
    let front = more.drop_last();
    let (p, es) = more.last();
    lemma_front_tallies(more);
    assert forall|q: Protocol, j: StatKeyView|
        addable(#[trigger] tally_of(ps, q, j), tally_of(front, q, j)) by {
        assert(addable(tally_of(ps, q, j), tally_of(more, q, j)));
    }
    lemma_merged(ps, front);
    let before = merged(ps, front);
    assert forall|j: StatKeyView| addable(#[trigger] tally_of(before, p, j), tally(es, j)) by {
        assert(tally_of(before, p, j) == plus(tally_of(ps, p, j), tally_of(front, p, j)));
        assert(addable(tally_of(ps, p, j), tally_of(more, p, j)));
    }
}

/// Merging statistics adds their tallies and their totals.
pub proof fn lemma_merged(
    ps: Seq<(Protocol, Seq<(StatKeyView, Counter)>)>,
    more: Seq<(Protocol, Seq<(StatKeyView, Counter)>)>,
)
    requires
        valid_stats(ps),
        valid_stats(more),
        all_addable(ps, more),
    ensures
        valid_stats(merged(ps, more)),
        packets_over(merged(ps, more)) == packets_over(ps) + packets_over(more),
        bytes_over(merged(ps, more)) == bytes_over(ps) + bytes_over(more),
        forall|q: Protocol, j: StatKeyView| #[trigger]
            tally_of(merged(ps, more), q, j) == plus(tally_of(ps, q, j), tally_of(more, q, j)),
    decreases more.len(), 0nat,
{
    if more.len() == 0 {
        assert forall|q: Protocol, j: StatKeyView| #[trigger]
            tally_of(more, q, j) == zero() by {
            if has_protocol(more, q) {
                assert(protocol_at(more, q, protocol_of(more, q)));
            }
            if has_row(rows_of(more, q), j) {
                assert(row_at(rows_of(more, q), j, row_of(rows_of(more, q), j)));
            }
        }
    } else {
        let front = more.drop_last();
        let (p, es) = more.last();
        lemma_front_tallies(more);
        lemma_front_addable(ps, more);
        lemma_merged(ps, front);
        let before = merged(ps, front);
        lemma_merged_rows(before, p, es);
        assert forall|q: Protocol, j: StatKeyView| #[trigger]
            tally_of(merged(ps, more), q, j) == plus(tally_of(ps, q, j), tally_of(more, q, j)) by {
            assert(tally_of(before, q, j) == plus(tally_of(ps, q, j), tally_of(front, q, j)));
            assert(tally_of(front, q, j) == (if q == p {
                zero()
            } else {
                tally_of(more, q, j)
            }));
            assert(addable(tally_of(ps, q, j), tally_of(more, q, j)));
        }
    }
}

// ---- Rows of all protocols ------------------------------------------------------------

/// The rows of every protocol seen.
#[derive(Debug)]
pub struct StatsMap {
    protocols: Vec<(Protocol, KeyMap)>,
}

/// The content of a list of protocols with their rows.
pub open spec fn protocols_view(
    v: Seq<(Protocol, KeyMap)>,
) -> Seq<(Protocol, Seq<(StatKeyView, Counter)>)> {
    Seq::new(v.len(), |i: int| (v[i].0, v[i].1@))
}

impl View for StatsMap {
    type V = Seq<(Protocol, Seq<(StatKeyView, Counter)>)>;

    closed spec fn view(&self) -> Seq<(Protocol, Seq<(StatKeyView, Counter)>)> {
        protocols_view(self.protocols@)
    }
}

impl Default for StatsMap {
    fn default() -> (r: StatsMap)
        ensures
            r@ == Seq::<(Protocol, Seq<(StatKeyView, Counter)>)>::empty(),
    {
        StatsMap::new()
    }
}

impl Clone for StatsMap {
    fn clone(&self) -> (r: StatsMap)
        ensures
            r@ == self@,
    {
        proof {
            use_type_invariant(self);
        }
        let mut protocols: Vec<(Protocol, KeyMap)> = Vec::new();
        let mut i: usize = 0;
        while i < self.protocols.len()
            invariant
                i <= self.protocols@.len(),
                protocols_view(protocols@) == self@.take(i as int),
            decreases self.protocols@.len() - i,
        {
            let ghost before = protocols_view(protocols@);
            protocols.push((self.protocols[i].0, self.protocols[i].1.clone()));
            assert(protocols_view(protocols@) =~= before.push(self@[i as int]));
            assert(self@.take(i + 1) =~= before.push(self@[i as int]));
            i += 1;
        }
        assert(self@.take(i as int) =~= self@);
        StatsMap { protocols }
    }
}

impl StatsMap {
    #[verifier::type_invariant]
    closed spec fn inv(self) -> bool {
        valid_stats(protocols_view(self.protocols@))
    }

    pub fn new() -> (r: StatsMap)
        ensures
            r@ == Seq::<(Protocol, Seq<(StatKeyView, Counter)>)>::empty(),
    {
        let r = StatsMap { protocols: Vec::new() };
        assert(r@ =~= Seq::<(Protocol, Seq<(StatKeyView, Counter)>)>::empty());
        r
    }

    /// Whether no protocol has been noted.
    pub fn is_empty(&self) -> (r: bool)
        ensures
            r == (self@.len() == 0),
    {
        self.protocols.len() == 0
    }

    /// The protocols with their rows, in the order in which they were first
    /// seen.
    pub fn protocols(&self) -> (r: &Vec<(Protocol, KeyMap)>)
        ensures
            protocols_view(r@) == self@,
            valid_stats(self@),
    {
        proof {
            use_type_invariant(self);
        }
        &self.protocols
    }

    fn find(&self, p: Protocol) -> (r: Option<usize>)
        ensures
            match r {
                Some(i) => protocol_at(self@, p, i as int),
                None => !has_protocol(self@, p),
            },
    {
        let mut i: usize = 0;
        while i < self.protocols.len()
            invariant
                i <= self.protocols@.len(),
                forall|j: int| 0 <= j < i ==> !#[trigger] protocol_at(self@, p, j),
            decreases self.protocols@.len() - i,
        {
            if self.protocols[i].0 == p {
                return Some(i);
            }
            i += 1;
        }
        None
    }

    /// The rows of a protocol, when it has been noted.
    pub fn get(&self, p: Protocol) -> (r: Option<&KeyMap>)
        ensures
            match r {
                Some(rows) => has_protocol(self@, p) && rows@ == rows_of(self@, p),
                None => !has_protocol(self@, p),
            },
    {
        proof {
            use_type_invariant(self);
        }
        match self.find(p) {
            Some(i) => {
                proof {
                    lemma_protocol_of(self@, p, i as int);
                }
                Some(&self.protocols[i].1)
            },
            None => None,
        }
    }

    /// Count `c` for a protocol under a key.
    pub fn add(&mut self, p: Protocol, key: StatKey, c: Counter)
        requires
            addable(tally_of(old(self)@, p, key@), c),
        ensures
            final(self)@ == counted(old(self)@, p, key@, c),
            valid_stats(final(self)@),
            forall|q: Protocol, j: StatKeyView| #[trigger]
                tally_of(final(self)@, q, j) == (if q == p && j == key@ {
                    plus(tally_of(old(self)@, p, key@), c)
                } else {
                    tally_of(old(self)@, q, j)
                }),
            packets_over(final(self)@) == packets_over(old(self)@) + c.packets,
            bytes_over(final(self)@) == bytes_over(old(self)@) + c.bytes,
    {
        proof {
            use_type_invariant(&*self);
            lemma_counted(self@, p, key@, c);
        }
        let ghost before = self@;
        let ghost k = key@;
        let mut protocols: Vec<(Protocol, KeyMap)> = Vec::new();
        match self.find(p) {
            Some(i) => {
                proof {
                    lemma_protocol_of(before, p, i as int);
                }
                std::mem::swap(&mut self.protocols, &mut protocols);
                protocols[i].1.add(key, c);
                assert(protocols_view(protocols@) =~= counted(before, p, k, c));
                self.protocols = protocols;
            },
            None => {
                let mut rows: KeyMap = KeyMap::new();
                rows.add(key, c);
                std::mem::swap(&mut self.protocols, &mut protocols);
                protocols.push((p, rows));
                assert(protocols_view(protocols@) =~= counted(before, p, k, c));
                self.protocols = protocols;
            },
        }
    }

    /// Note a protocol, without any rows if it is new.
    fn note(&mut self, p: Protocol)
        ensures
            final(self)@ == with_rows(old(self)@, p, rows_of(old(self)@, p)),
    {
        proof {
            use_type_invariant(&*self);
            lemma_rows_distinct(self@, p);
            lemma_with_rows(self@, p, rows_of(self@, p));
        }
        let ghost before = self@;
        match self.find(p) {
            Some(i) => {
                proof {
                    lemma_protocol_of(before, p, i as int);
                    assert(self@ =~= with_rows(before, p, rows_of(before, p)));
                }
            },
            None => {
                let mut protocols: Vec<(Protocol, KeyMap)> = Vec::new();
                std::mem::swap(&mut self.protocols, &mut protocols);
                protocols.push((p, KeyMap::new()));
                assert(protocols_view(protocols@) =~= with_rows(before, p, rows_of(before, p)));
                self.protocols = protocols;
            },
        }
    }

    fn merge_rows(&mut self, p: Protocol, rows: &KeyMap)
        requires
            rows_addable(old(self)@, p, rows@),
        ensures
            final(self)@ == merged_rows(old(self)@, p, rows@),
    {
        proof {
            use_type_invariant(&*self);
        }
        let entries: &Vec<(StatKey, Counter)> = rows.entries();
        let ghost before = self@;
        self.note(p);
        let mut i: usize = 0;
        assert(merged_rows(before, p, rows@.take(0)) == self@);
        while i < entries.len()
            invariant
                i <= entries@.len(),
                valid_stats(before),
                distinct(rows@),
                entries_view(entries@) == rows@,
                rows_addable(before, p, rows@),
                self@ == merged_rows(before, p, rows@.take(i as int)),
            decreases entries@.len() - i,
        {
            proof {
                let front = rows@.take(i as int);
                let next = rows@.take(i + 1);
                assert(next.drop_last() =~= front);
                assert(next.last() == (entries@[i as int].0@, entries@[i as int].1));
                let k = entries@[i as int].0@;
                lemma_prefix_addable(before, p, rows@, i as int);
                lemma_merged_rows(before, p, front);
                assert(tally_of(self@, p, k) == plus(tally_of(before, p, k), tally(front, k)));
            }
            self.add(p, entries[i].0.clone(), entries[i].1);
            i += 1;
        }
        assert(rows@.take(i as int) =~= rows@);
    }

    /// Count what other statistics counted.
    pub fn merge(&mut self, more: &StatsMap)
        requires
            all_addable(old(self)@, more@),
        ensures
            final(self)@ == merged(old(self)@, more@),
            valid_stats(final(self)@),
            forall|p: Protocol, k: StatKeyView| #[trigger]
                tally_of(final(self)@, p, k) == plus(
                    tally_of(old(self)@, p, k),
                    tally_of(more@, p, k),
                ),
            packets_over(final(self)@) == packets_over(old(self)@) + packets_over(more@),
            bytes_over(final(self)@) == bytes_over(old(self)@) + bytes_over(more@),
    {
        proof {
            use_type_invariant(&*self);
        }
        let protocols: &Vec<(Protocol, KeyMap)> = more.protocols();
        let ghost before = self@;
        let mut i: usize = 0;
        while i < protocols.len()
            invariant
                i <= protocols@.len(),
                valid_stats(before),
                valid_stats(more@),
                protocols_view(protocols@) == more@,
                all_addable(before, more@),
                self@ == merged(before, more@.take(i as int)),
            decreases protocols@.len() - i,
        {
            proof {
                let front = more@.take(i as int);
                let next = more@.take(i + 1);
                assert(next.drop_last() =~= front);
                assert(next.last() == (protocols@[i as int].0, protocols@[i as int].1@));
                lemma_prefix_tallies(more@, i + 1);
                assert(all_addable(before, next)) by {
                    assert forall|q: Protocol, j: StatKeyView|
                        addable(#[trigger] tally_of(before, q, j), tally_of(next, q, j)) by {
                        assert(addable(tally_of(before, q, j), tally_of(more@, q, j)));
                        assert(tally_of(next, q, j) == tally_of(more@, q, j) || tally_of(next, q, j)
                            == zero());
                    }
                }
                lemma_front_addable(before, next);
            }
            self.merge_rows(protocols[i].0, &protocols[i].1);
            i += 1;
        }
        assert(more@.take(i as int) =~= more@);
        proof {
            lemma_merged(before, more@);
        }
    }

    /// All packets and bytes counted, where both sums fit.
    pub fn total(&self) -> (r: Option<Counter>)
        ensures
            match r {
                Some(c) => c.packets == packets_over(self@) && c.bytes == bytes_over(self@),
                None => packets_over(self@) > u64::MAX || bytes_over(self@) > u64::MAX,
            },
    {
        let mut sum: Counter = Counter::default();
        let mut i: usize = 0;
        while i < self.protocols.len()
            invariant
                i <= self.protocols@.len(),
                sum.packets == packets_over(self@.take(i as int)),
                sum.bytes == bytes_over(self@.take(i as int)),
            decreases self.protocols@.len() - i,
        {
            proof {
                assert(self@.take(i + 1).drop_last() =~= self@.take(i as int));
                assert(self@.take(i + 1).last().1 == self.protocols@[i as int].1@);
                lemma_prefix_within_over(self@, i + 1);
            }
            match self.protocols[i].1.total() {
                Some(c) => {
                    if c.packets > u64::MAX - sum.packets || c.bytes > u64::MAX - sum.bytes {
                        return None;
                    }
                    sum.merge(c);
                },
                None => {
                    return None;
                },
            }
            i += 1;
        }
        assert(self@.take(i as int) =~= self@);
        Some(sum)
    }
}

/// Some of the protocols count no more than all of them.
pub proof fn lemma_prefix_within_over(ps: Seq<(Protocol, Seq<(StatKeyView, Counter)>)>, n: int)
    requires
        0 <= n <= ps.len(),
    ensures
        packets_over(ps.take(n)) <= packets_over(ps),
        bytes_over(ps.take(n)) <= bytes_over(ps),
    decreases ps.len() - n,
{
    if n < ps.len() {
        lemma_prefix_within_over(ps, n + 1);
        assert(ps.take(n + 1).drop_last() =~= ps.take(n));
    } else {
        assert(ps.take(n) =~= ps);
    }
}

} // verus!
