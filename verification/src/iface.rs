//! Network interface enumeration.
use crate::order;
use crate::order::{rank_text, Rank};
use crate::text;
use crate::text::{
    chars_of, find, parse_unsigned, same_any_case, same_str, split, string_of, trim, upper_ascii,
};
use vstd::prelude::*;

verus! {

/// One capturable interface.
#[derive(Clone, Debug, PartialEq, Eq)]
pub struct Interface {
    /// The name to hand to the capture backend.
    pub id: String,
    /// What to show a human. On Windows this is the adapter description,
    /// because the raw NPF device path is an unreadable GUID.
    pub label: String,
    /// Negotiated link speed in Mb/s, where the OS reports one.
    pub speed_mbps: Option<u32>,
}

/// An interface, with its texts as character sequences.
#[verifier::ext_equal]
pub ghost struct InterfaceView {
    pub id: Seq<char>,
    pub label: Seq<char>,
    pub speed_mbps: Option<u32>,
}

impl View for Interface {
    type V = InterfaceView;

    open spec fn view(&self) -> InterfaceView {
        InterfaceView { id: self.id@, label: self.label@, speed_mbps: self.speed_mbps }
    }
}

/// The views of a list of interfaces.
pub open spec fn views(list: Seq<Interface>) -> Seq<InterfaceView> {
    Seq::new(list.len(), |i: int| list[i]@)
}

broadcast proof fn lemma_views_push(list: Seq<Interface>, i: Interface)
    ensures
        #[trigger] views(list.push(i)) == views(list).push(i@),
{
    assert(views(list.push(i)) =~= views(list).push(i@));
}

// ---- Names ---------------------------------------------------------------------------------

/// An interface by name: its label, and its id behind it where they differ.
pub open spec fn shown(i: InterfaceView) -> Seq<char> {
    if i.label == i.id {
        i.id
    } else {
        i.label + " ("@ + i.id + ")"@
    }
}

impl Interface {
    /// The interface by name: its label, and its id behind it where they
    /// differ.
    pub fn to_string(&self) -> (r: String)
        ensures
            r@ == shown(self@),
    {
        if same_str(self.label.as_str(), self.id.as_str()) {
            self.id.clone()
        } else {
            let mut out: String = self.label.clone();
            out.append(" (");
            out.append(self.id.as_str());
            out.append(")");
            out
        }
    }
}

/// A way in which input can name an interface.
#[derive(Clone, Copy, PartialEq, Eq, Structural, Debug)]
pub enum Naming {
    Id,
    Label,
    Shown,
    LabelAnyCase,
}

/// Whether input names an interface in the given way.
pub open spec fn names(input: Seq<char>, i: InterfaceView, how: Naming) -> bool {
    match how {
        Naming::Id => i.id == input,
        Naming::Label => i.label == input,
        Naming::Shown => shown(i) == input,
        Naming::LabelAnyCase => text::ascii_upper(i.label) == text::ascii_upper(input),
    }
}

/// The first interface that input names in the given way.
pub open spec fn first_named(input: Seq<char>, list: Seq<InterfaceView>, how: Naming) -> Option<
    int,
>
    decreases list.len(),
{
    if list.len() == 0 {
        None
    } else {
        match first_named(input, list.drop_last(), how) {
            Some(i) => Some(i),
            None => if names(input, list.last(), how) {
                Some(list.len() - 1)
            } else {
                None
            },
        }
    }
}

/// The interface that input names: by id before label before full name, and
/// last by label in any case.
pub open spec fn resolved(input: Seq<char>, list: Seq<InterfaceView>) -> Option<int> {
    match first_named(input, list, Naming::Id) {
        Some(i) => Some(i),
        None => match first_named(input, list, Naming::Label) {
            Some(i) => Some(i),
            None => match first_named(input, list, Naming::Shown) {
                Some(i) => Some(i),
                None => first_named(input, list, Naming::LabelAnyCase),
            },
        },
    }
}

fn is_named(input: &str, i: &Interface, how: Naming) -> (r: bool)
    ensures
        r == names(input@, i@, how),
{
    match how {
        Naming::Id => same_str(i.id.as_str(), input),
        Naming::Label => same_str(i.label.as_str(), input),
        Naming::Shown => same_str(i.to_string().as_str(), input),
        Naming::LabelAnyCase => same_any_case(i.label.as_str(), input),
    }
}

proof fn lemma_first_named_stays(input: Seq<char>, list: Seq<InterfaceView>, how: Naming, n: int)
    requires
        0 <= n <= list.len(),
        first_named(input, list.take(n), how) is Some,
    ensures
        first_named(input, list, how) == first_named(input, list.take(n), how),
    decreases list.len() - n,
{
    if n < list.len() {
        assert(list.take(n + 1).drop_last() =~= list.take(n));
        lemma_first_named_stays(input, list, how, n + 1);
    } else {
        assert(list.take(n) =~= list);
    }
}

fn find_named(input: &str, list: &[Interface], how: Naming) -> (r: Option<usize>)
    ensures
        match r {
            Some(i) => i < list@.len() && first_named(input@, views(list@), how) == Some(i as int),
            None => first_named(input@, views(list@), how) is None,
        },
{
    let mut i: usize = 0;
    let ghost all = views(list@);
    while i < list.len()
        invariant
            i <= list@.len(),
            all == views(list@),
            first_named(input@, all.take(i as int), how) is None,
        decreases list@.len() - i,
    {
        assert(all.take(i + 1).drop_last() =~= all.take(i as int));
        if is_named(input, &list[i], how) {
            proof {
                lemma_first_named_stays(input@, all, how, i + 1);
            }
            return Some(i);
        }
        i += 1;
    }
    assert(all.take(i as int) =~= all);
    None
}

/// Match user input against either the friendly label or the backend id.
pub fn resolve<'a>(input: &str, list: &'a [Interface]) -> (r: Option<&'a Interface>)
    ensures
        match resolved(input@, views(list@)) {
            Some(i) => 0 <= i < list@.len() && r == Some(&list@[i]),
            None => r is None,
        },
{
    if let Some(i) = find_named(input, list, Naming::Id) {
        return Some(&list[i]);
    }
    if let Some(i) = find_named(input, list, Naming::Label) {
        return Some(&list[i]);
    }
    if let Some(i) = find_named(input, list, Naming::Shown) {
        return Some(&list[i]);
    }
    match find_named(input, list, Naming::LabelAnyCase) {
        Some(i) => Some(&list[i]),
        None => None,
    }
}

proof fn lemma_first_named(input: Seq<char>, list: Seq<InterfaceView>, how: Naming)
    ensures
        match first_named(input, list, how) {
            Some(k) => 0 <= k < list.len() && names(input, list[k], how) && forall|i: int|
                0 <= i < k ==> !names(input, #[trigger] list[i], how),
            None => forall|i: int| 0 <= i < list.len() ==> !names(input, #[trigger] list[i], how),
        },
    decreases list.len(),
{
    if list.len() > 0 {
        let front = list.drop_last();
        lemma_first_named(input, front, how);
        assert(forall|i: int| 0 <= i < front.len() ==> front[i] == list[i]);
    }
}

/// Input resolves exactly when it names an interface in some way, and then to
/// one that it names.
pub proof fn law_what_is_named_resolves(input: Seq<char>, list: Seq<InterfaceView>)
    ensures
        resolved(input, list) is None <==> forall|i: int, how: Naming|
            0 <= i < list.len() ==> !#[trigger] names(input, list[i], how),
        resolved(input, list) matches Some(k) ==> 0 <= k < list.len() && exists|how: Naming|
            names(input, list[k], how),
{
    lemma_first_named(input, list, Naming::Id);
    lemma_first_named(input, list, Naming::Label);
    lemma_first_named(input, list, Naming::Shown);
    lemma_first_named(input, list, Naming::LabelAnyCase);
    if resolved(input, list) is None {
        assert forall|i: int, how: Naming| 0 <= i < list.len() implies !#[trigger] names(
            input,
            list[i],
            how,
        ) by {
            assert(how == Naming::Id || how == Naming::Label || how == Naming::Shown || how
                == Naming::LabelAnyCase);
        }
    }
}

/// An interface's id resolves to the interface, where ids are distinct: no
/// label can stand in its way.
pub proof fn law_an_id_resolves_to_its_interface(list: Seq<InterfaceView>, i: int)
    requires
        0 <= i < list.len(),
        forall|j: int| 0 <= j < list.len() && j != i ==> (#[trigger] list[j]).id != list[i].id,
    ensures
        resolved(list[i].id, list) == Some(i),
{
    lemma_first_named(list[i].id, list, Naming::Id);
    assert(names(list[i].id, list[i], Naming::Id));
}

// ---- dumpcap's listing ----------------------------------------------------------------------

/// Where a text first holds another.
#[verifier::opaque]
pub open spec fn first_place(s: Seq<char>, t: Seq<char>) -> Option<int> {
    if text::holds(s, t) {
        Some(
            choose|at: int|
                text::stands_at(s, t, at) && forall|k: int| 0 <= k < at ==> !text::stands_at(s, t, k),
        )
    } else {
        None
    }
}

/// What follows the number of a listing line; the whole line where it has none.
pub open spec fn behind_number(line: Seq<char>) -> Seq<char> {
    match first_place(line, "."@) {
        Some(at) => text::trimmed(line.skip(at + 1)),
        None => line,
    }
}

/// An interface as named in a listing: a device, or a device with its friendly
/// name in brackets.
pub open spec fn listed_name(rest: Seq<char>) -> InterfaceView {
    match first_place(rest, " ("@) {
        Some(at) if rest.last() == ')' => InterfaceView {
            id: rest.take(at),
            label: rest.subrange(at + 2, rest.len() - 1),
            speed_mbps: None,
        },
        _ => InterfaceView { id: rest, label: rest, speed_mbps: None },
    }
}

/// The interface on a listing line.
pub open spec fn listing_line(line: Seq<char>) -> Option<InterfaceView> {
    let rest = behind_number(text::trimmed(line));
    if rest.len() == 0 {
        None
    } else {
        Some(listed_name(rest))
    }
}

/// The interfaces on the lines of a listing.
pub open spec fn listing(lines: Seq<Seq<char>>) -> Seq<InterfaceView>
    decreases lines.len(),
{
    if lines.len() == 0 {
        Seq::empty()
    } else {
        match listing_line(lines.last()) {
            Some(i) => listing(lines.drop_last()).push(i),
            None => listing(lines.drop_last()),
        }
    }
}

fn first_of(s: &str, t: &str) -> (r: Option<usize>)
    ensures
        match first_place(s@, t@) {
            Some(at) => r == Some(at as usize) && 0 <= at <= usize::MAX && text::stands_at(
                s@,
                t@,
                at,
            ),
            None => r is None,
        },
{
    let r: Option<usize> = find(s, t);
    proof {
        reveal(first_place);
        if let Some(at) = r {
            assert(text::stands_at(s@, t@, at as int));
            let other = first_place(s@, t@)->0;
            assert(other == at as int);
        }
    }
    r
}

fn skip_number(line: String) -> (r: String)
    ensures
        r@ == behind_number(line@),
{
    match first_of(line.as_str(), ".") {
        Some(at) => {
            let cs: Vec<char> = chars_of(line.as_str());
            let n: usize = cs.len();
            proof {
                reveal_strlit(".");
            }
            let tail: String = string_of(cs.as_slice(), at + 1, n);
            assert(tail@ =~= line@.skip(at + 1));
            trim(tail.as_str())
        },
        None => line,
    }
}

fn split_name(rest: String) -> (r: Interface)
    requires
        rest@.len() > 0,
    ensures
        r@ == listed_name(rest@),
{
    let cs: Vec<char> = chars_of(rest.as_str());
    let n: usize = cs.len();
    if let Some(at) = first_of(rest.as_str(), " (") {
        proof {
            reveal_strlit(" (");
            assert(rest@.subrange(at as int, at + 2)[1] == '(');
        }
        if cs[n - 1] == ')' {
            let id: String = string_of(cs.as_slice(), 0, at);
            let label: String = string_of(cs.as_slice(), at + 2, n - 1);
            assert(id@ =~= rest@.take(at as int));
            return Interface { id, label, speed_mbps: None };
        }
    }
    Interface { id: rest.clone(), label: rest, speed_mbps: None }
}

/// Parse one `dumpcap -D` line: `1. \Device\NPF_{GUID} (Ethernet 2)`.
pub fn parse_dumpcap_line(line: &str) -> (r: Option<Interface>)
    ensures
        match listing_line(line@) {
            Some(i) => r is Some && r->0@ == i,
            None => r is None,
        },
{
    let rest: String = skip_number(trim(line));
    if rest.as_str().is_empty() {
        None
    } else {
        Some(split_name(rest))
    }
}

/// The interfaces in the output of `dumpcap -D`.
pub fn parse_dumpcap_listing(out: &str) -> (r: Vec<Interface>)
    ensures
        views(r@) == listing(text::fields(out@, '\n')),
{
    broadcast use lemma_views_push;

    let lines: Vec<String> = split(out, '\n');
    let ghost all = text::texts(lines@);
    let mut list: Vec<Interface> = Vec::new();
    let mut i: usize = 0;
    assert(views(list@) =~= listing(all.take(0)));
    while i < lines.len()
        invariant
            i <= lines@.len(),
            all == text::texts(lines@),
            views(list@) == listing(all.take(i as int)),
        decreases lines@.len() - i,
    {
        assert(all.take(i + 1).drop_last() =~= all.take(i as int));
        assert(all.take(i + 1).last() == lines@[i as int]@);
        if let Some(iface) = parse_dumpcap_line(lines[i].as_str()) {
            list.push(iface);
        }
        i += 1;
    }
    assert(all.take(i as int) =~= all);
    list
}

proof fn lemma_trimmed_whole(s: Seq<char>)
    requires
        s.len() > 0,
        !text::is_space(s[0]),
        !text::is_space(s.last()),
    ensures
        text::trimmed(s) == s,
{
}

proof fn lemma_first_place(s: Seq<char>, t: Seq<char>, at: int)
    requires
        text::stands_at(s, t, at),
        forall|k: int| 0 <= k < at ==> !text::stands_at(s, t, k),
    ensures
        first_place(s, t) == Some(at),
{
    reveal(first_place);
}

proof fn lemma_digits(n: nat)
    ensures
        text::dec(n).len() > 0,
        forall|i: int| 0 <= i < text::dec(n).len() ==> '0' <= #[trigger] text::dec(n)[i] <= '9',
    decreases n,
{
    if n >= 10 {
        lemma_digits(n / 10);
    }
}

proof fn lemma_number_skipped(d: Seq<char>, rest: Seq<char>)
    requires
        forall|i: int| 0 <= i < d.len() ==> '0' <= #[trigger] d[i] <= '9',
        rest.len() > 0,
        !text::is_space(rest[0]),
        !text::is_space(rest.last()),
    ensures
        behind_number(d + ". "@ + rest) == rest,
{
    reveal_strlit(".");
    reveal_strlit(". ");
    let dn = d.len() as int;
    let line = d + ". "@ + rest;
    assert(line.subrange(dn, dn + 1) =~= "."@);
    assert forall|k: int| 0 <= k < d.len() implies !text::stands_at(line, "."@, k) by {
        assert(line.subrange(k, k + 1)[0] == d[k]);
    }
    lemma_first_place(line, "."@, dn);
    let tail = line.skip(dn + 1);
    assert(tail =~= seq![' '] + rest);
    assert(tail.skip(1) =~= rest);
    assert(text::trimmed_start(rest) == rest);
    assert(text::trimmed_start(tail) == rest);
    lemma_trimmed_whole(rest);
}

proof fn lemma_name_split(id: Seq<char>, label: Seq<char>)
    requires
        id.len() > 0,
        !text::is_space(id.last()),
        !text::holds(id, " ("@),
    ensures
        listed_name(id + " ("@ + label + ")"@) == (InterfaceView { id, label, speed_mbps: None }),
{
    reveal_strlit(" (");
    reveal_strlit(")");
    let idn = id.len() as int;
    let rest = id + " ("@ + label + ")"@;
    assert(rest.subrange(idn, idn + 2) =~= " ("@);
    assert forall|k: int| 0 <= k < id.len() implies !text::stands_at(rest, " ("@, k) by {
        if text::stands_at(rest, " ("@, k) {
            assert(rest.subrange(k, k + 2)[0] == ' ');
            assert(rest.subrange(k, k + 2)[1] == '(');
            if k + 2 <= id.len() {
                assert(id.subrange(k, k + 2) =~= " ("@);
                assert(text::stands_at(id, " ("@, k));
            }
        }
    }
    lemma_first_place(rest, " ("@, idn);
    assert(rest.take(idn) =~= id);
    assert(rest.subrange(idn + 2, rest.len() - 1) =~= label);
}

/// A listing line that names a device and its friendly name gives back both.
/// The device's own name may hold no bracket behind a space, and may neither
/// begin nor end in white space.
pub proof fn law_a_listing_line_reads_back(n: nat, id: Seq<char>, label: Seq<char>)
    requires
        id.len() > 0,
        !text::is_space(id[0]),
        !text::is_space(id.last()),
        !text::holds(id, " ("@),
    ensures
        listing_line(text::dec(n) + ". "@ + (id + " ("@ + label + ")"@)) == Some(
            InterfaceView { id, label, speed_mbps: None },
        ),
{
    lemma_digits(n);
    let d = text::dec(n);
    let rest = id + " ("@ + label + ")"@;
    let line = d + ". "@ + rest;
    assert(rest[0] == id[0]) by {
        reveal_strlit(" (");
    }
    assert(rest.last() == ')') by {
        reveal_strlit(")");
    }
    assert(line[0] == d[0] && line.last() == rest.last());
    lemma_trimmed_whole(line);
    lemma_number_skipped(d, rest);
    lemma_name_split(id, label);
}

/// A line of a listing without a label names an interface by its id alone.
pub proof fn law_a_listing_line_without_label(n: nat, id: Seq<char>)
    requires
        id.len() > 0,
        !text::is_space(id[0]),
        !text::is_space(id.last()),
        !text::holds(id, " ("@) || id.last() != ')',
    ensures
        listing_line(text::dec(n) + ". "@ + id) == Some(
            InterfaceView { id, label: id, speed_mbps: None },
        ),
{
    lemma_digits(n);
    let d = text::dec(n);
    let line = d + ". "@ + id;
    assert(line[0] == d[0] && line.last() == id.last());
    lemma_trimmed_whole(line);
    lemma_number_skipped(d, id);
    assert(!text::holds(id, " ("@) ==> first_place(id, " ("@) is None) by {
        reveal(first_place);
    }
}

// ---- Linux ---------------------------------------------------------------------------------

/// The link speed in the text that the system reports. It is there only for
/// interfaces with a negotiated link, and reads as -1 otherwise.
pub open spec fn reported_speed(s: Seq<char>) -> Option<u32> {
    match text::unsigned_up_to(text::trimmed(s), 10, i64::MAX as nat) {
        Some(v) if v > 0 => Some((v % 0x1_0000_0000) as u32),
        _ => None,
    }
}

/// An interface as the system names it, with its speed where that can be read.
pub open spec fn system_interface(e: (String, Option<String>)) -> InterfaceView {
    InterfaceView {
        id: e.0@,
        label: e.0@,
        speed_mbps: match e.1 {
            Some(s) => reported_speed(s@),
            None => None,
        },
    }
}

/// An interface put into its place in an ordered list, behind those of the
/// same id.
pub open spec fn placed(l: Seq<InterfaceView>, e: InterfaceView) -> Seq<InterfaceView>
    decreases l.len(),
{
    if l.len() == 0 || order::text_rank(l.last().id, e.id) != Rank::After {
        l.push(e)
    } else {
        placed(l.drop_last(), e).push(l.last())
    }
}

/// Interfaces ordered by id.
pub open spec fn by_id(l: Seq<InterfaceView>) -> Seq<InterfaceView>
    decreases l.len(),
{
    if l.len() == 0 {
        Seq::empty()
    } else {
        placed(by_id(l.drop_last()), l.last())
    }
}

/// The system's interfaces in the order in which it names them.
pub open spec fn system_interfaces(es: Seq<(String, Option<String>)>) -> Seq<InterfaceView> {
    Seq::new(es.len(), |i: int| system_interface(es[i]))
}

/// The link speed in the text that the system reports.
pub fn parse_speed(s: &str) -> (r: Option<u32>)
    ensures
        r == reported_speed(s@),
{
    match parse_unsigned(trim(s).as_str(), 10, i64::MAX as u64) {
        Some(v) => if v > 0 {
            assert(v as u32 == v % 0x1_0000_0000) by (bit_vector);
            Some(v as u32)
        } else {
            None
        },
        None => None,
    }
}

proof fn lemma_placed(l: Seq<InterfaceView>, e: InterfaceView, n: int)
    requires
        0 <= n <= l.len(),
        n > 0 ==> order::text_rank(l[n - 1].id, e.id) != Rank::After,
        forall|i: int|
            n <= i < l.len() ==> order::text_rank((#[trigger] l[i]).id, e.id) == Rank::After,
    ensures
        placed(l, e) == l.insert(n, e),
    decreases l.len(),
{
    if n == l.len() {
        assert(l.insert(n, e) =~= l.push(e));
    } else {
        let front = l.drop_last();
        assert(order::text_rank(l[l.len() - 1].id, e.id) == Rank::After);
        lemma_placed(front, e, n);
        assert(l.insert(n, e) =~= front.insert(n, e).push(l.last()));
    }
}

/// The interfaces that the system names, each with the text that holds its
/// speed, ordered by id.
pub fn linux_interfaces(entries: &Vec<(String, Option<String>)>) -> (r: Vec<Interface>)
    ensures
        views(r@) == by_id(system_interfaces(entries@)),
{
    let ghost all = system_interfaces(entries@);
    let mut out: Vec<Interface> = Vec::new();
    let mut i: usize = 0;
    assert(views(out@) =~= by_id(all.take(0)));
    while i < entries.len()
        invariant
            i <= entries@.len(),
            all == system_interfaces(entries@),
            views(out@) == by_id(all.take(i as int)),
        decreases entries@.len() - i,
    {
        let name: &String = &entries[i].0;
        let speed_mbps: Option<u32> = match &entries[i].1 {
            Some(s) => parse_speed(s.as_str()),
            None => None,
        };
        let e: Interface = Interface { id: name.clone(), label: name.clone(), speed_mbps };
        let ghost l = views(out@);
        assert(e@ == all[i as int]);
        let mut n: usize = out.len();
        while n > 0 && rank_text(out[n - 1].id.as_str(), e.id.as_str()) == Rank::After
            invariant
                n <= out@.len(),
                l == views(out@),
                forall|j: int|
                    n <= j < l.len() ==> order::text_rank((#[trigger] l[j]).id, e@.id)
                        == Rank::After,
            decreases n,
        {
            n -= 1;
        }
        proof {
            lemma_placed(l, e@, n as int);
            assert(all.take(i + 1).drop_last() =~= all.take(i as int));
        }
        out.insert(n, e);
        assert(views(out@) =~= l.insert(n as int, all[i as int]));
        i += 1;
    }
    assert(all.take(i as int) =~= all);
    out
}

/// Whether no interface stands before one whose id comes first.
pub open spec fn is_ordered(l: Seq<InterfaceView>) -> bool {
    forall|i: int, j: int|
        #![trigger l[i], l[j]]
        0 <= i < j < l.len() ==> order::text_rank(l[i].id, l[j].id) != Rank::After
}

proof fn lemma_text_transitive(a: Seq<char>, b: Seq<char>, c: Seq<char>)
    requires
        order::text_rank(a, b) != Rank::After,
        order::text_rank(b, c) != Rank::After,
    ensures
        order::text_rank(a, c) != Rank::After,
{
    let (x, y, z) = (order::codes(a), order::codes(b), order::codes(c));
    order::lemma_seq_rank_same(x, y);
    if order::seq_rank(x, y) == Rank::Before {
        order::lemma_seq_rank_transitive(x, y, z);
    }
}

proof fn lemma_placed_ordered(l: Seq<InterfaceView>, e: InterfaceView)
    requires
        is_ordered(l),
    ensures
        is_ordered(placed(l, e)),
        placed(l, e).to_multiset() == l.to_multiset().insert(e),
        placed(l, e).len() == l.len() + 1,
        forall|x: Seq<char>|
            (forall|i: int|
                0 <= i < l.len() ==> order::text_rank((#[trigger] l[i]).id, x) != Rank::After)
                && order::text_rank(e.id, x) != Rank::After ==> forall|i: int|
                0 <= i < placed(l, e).len() ==> order::text_rank(
                    (#[trigger] placed(l, e)[i]).id,
                    x,
                ) != Rank::After,
    decreases l.len(),
{
    broadcast use vstd::seq_lib::group_to_multiset_ensures;

    if l.len() == 0 || order::text_rank(l.last().id, e.id) != Rank::After {
        let p = l.push(e);
        assert forall|i: int, j: int|
            #![trigger p[i], p[j]]
            0 <= i < j < p.len() implies order::text_rank(p[i].id, p[j].id) != Rank::After by {
            if j == l.len() && i < l.len() - 1 {
                assert(order::text_rank(l[i].id, l[l.len() - 1].id) != Rank::After);
                lemma_text_transitive(l[i].id, l.last().id, e.id);
            }
        }
    } else {
        let front = l.drop_last();
        let last = l.last();
        lemma_placed_ordered(front, e);
        order::lemma_seq_rank_flips(order::codes(last.id), order::codes(e.id));
        assert(order::text_rank(e.id, last.id) == Rank::Before);
        let p = placed(front, e);
        assert forall|i: int| 0 <= i < front.len() implies order::text_rank(
            (#[trigger] front[i]).id,
            last.id,
        ) != Rank::After by {
            assert(order::text_rank(l[i].id, l[l.len() - 1].id) != Rank::After);
        }
        assert forall|i: int| 0 <= i < p.len() implies order::text_rank(
            (#[trigger] p[i]).id,
            last.id,
        ) != Rank::After by {}
        assert(l =~= front.push(last));
        let whole = p.push(last);
        assert forall|i: int, j: int|
            #![trigger whole[i], whole[j]]
            0 <= i < j < whole.len() implies order::text_rank(whole[i].id, whole[j].id)
            != Rank::After by {
            if j == p.len() {
                assert(order::text_rank(p[i].id, last.id) != Rank::After);
            }
        }
        assert(l.to_multiset().insert(e) =~= front.to_multiset().insert(e).insert(last));
        assert forall|x: Seq<char>|
            (forall|i: int|
                0 <= i < l.len() ==> order::text_rank((#[trigger] l[i]).id, x) != Rank::After)
                && order::text_rank(e.id, x) != Rank::After implies forall|i: int|
            0 <= i < whole.len() ==> order::text_rank((#[trigger] whole[i]).id, x)
                != Rank::After by {
            assert forall|i: int| 0 <= i < front.len() implies order::text_rank(
                (#[trigger] front[i]).id,
                x,
            ) != Rank::After by {
                assert(order::text_rank(l[i].id, x) != Rank::After);
            }
            assert(order::text_rank(l[l.len() - 1].id, x) != Rank::After);
        }
    }
}

/// Interfaces are listed by id, each as often as the system names it.
pub proof fn law_interfaces_are_sorted(l: Seq<InterfaceView>)
    ensures
        is_ordered(by_id(l)),
        by_id(l).to_multiset() == l.to_multiset(),
        by_id(l).len() == l.len(),
    decreases l.len(),
{
    broadcast use vstd::seq_lib::group_to_multiset_ensures;

    if l.len() > 0 {
        law_interfaces_are_sorted(l.drop_last());
        lemma_placed_ordered(by_id(l.drop_last()), l.last());
        assert(l =~= l.drop_last().push(l.last()));
    } else {
        assert(l =~= Seq::empty());
    }
}

// ---- Windows -------------------------------------------------------------------------------

/// One network adapter as the OS describes it.
pub struct Adapter {
    /// The adapter GUID, uppercased, braces included.
    pub guid: String,
    pub friendly_name: String,
    pub speed_mbps: Option<u32>,
}

/// The link speed in Mb/s for one reported in bits per second.
///
/// `u64::MAX` is reported when a driver does not know, and zero by a
/// disconnected adapter. Beyond 400 Gb/s a speed is far more likely to be a
/// bogus driver value than a real link.
pub open spec fn mbps_of(bits_per_s: u64) -> Option<u32> {
    let mbps = bits_per_s as nat / 1_000_000;
    if bits_per_s != u64::MAX && 1 <= mbps <= 400_000 {
        Some(mbps as u32)
    } else {
        None
    }
}

/// Convert a reported link speed to Mb/s, rejecting the "unknown" values.
pub fn link_speed_mbps(bits_per_s: u64) -> (r: Option<u32>)
    ensures
        r == mbps_of(bits_per_s),
{
    if bits_per_s == 0 || bits_per_s == u64::MAX {
        return None;
    }
    let mbps: u64 = bits_per_s / 1_000_000;
    if mbps < 1 || mbps > 400_000 {
        return None;
    }
    Some(mbps as u32)
}

impl Adapter {
    /// An adapter from what the OS reports of it.
    pub fn new(name: &str, friendly_name: String, bits_per_s: u64) -> (r: Adapter)
        ensures
            r.guid@ == text::ascii_upper(name@),
            r.friendly_name@ == friendly_name@,
            r.speed_mbps == mbps_of(bits_per_s),
    {
        Adapter {
            guid: upper_ascii(name),
            friendly_name,
            speed_mbps: link_speed_mbps(bits_per_s),
        }
    }
}

/// Whether an interface's device path carries an adapter's GUID.
pub open spec fn carries(id: Seq<char>, a: Adapter) -> bool {
    a.guid@.len() > 0 && text::holds(text::ascii_upper(id), a.guid@)
}

/// The speed of an interface, given the adapters: that of the first whose GUID
/// its device path carries, else what it was.
pub open spec fn speed_with(i: InterfaceView, adapters: Seq<Adapter>) -> Option<u32>
    decreases adapters.len(),
{
    if adapters.len() == 0 {
        i.speed_mbps
    } else if carries(i.id, adapters[0]) {
        adapters[0].speed_mbps
    } else {
        speed_with(i, adapters.skip(1))
    }
}

/// An interface with its speed filled in.
pub open spec fn with_speed(i: InterfaceView, adapters: Seq<Adapter>) -> InterfaceView {
    InterfaceView { speed_mbps: speed_with(i, adapters), ..i }
}

/// Interfaces with their speeds filled in.
pub open spec fn with_speeds(list: Seq<InterfaceView>, adapters: Seq<Adapter>) -> Seq<
    InterfaceView,
> {
    Seq::new(list.len(), |i: int| with_speed(list[i], adapters))
}

fn find_speed(iface: &Interface, adapters: &Vec<Adapter>) -> (r: Option<u32>)
    ensures
        r == speed_with(iface@, adapters@),
{
    let id: String = upper_ascii(iface.id.as_str());
    let mut i: usize = 0;
    assert(adapters@.skip(0) =~= adapters@);
    while i < adapters.len()
        invariant
            i <= adapters@.len(),
            id@ == text::ascii_upper(iface@.id),
            speed_with(iface@, adapters@.skip(i as int)) == speed_with(iface@, adapters@),
        decreases adapters@.len() - i,
    {
        let a: &Adapter = &adapters[i];
        assert(adapters@.skip(i as int).skip(1) =~= adapters@.skip(i + 1));
        if !a.guid.as_str().is_empty() && find(id.as_str(), a.guid.as_str()).is_some() {
            return a.speed_mbps;
        }
        i += 1;
    }
    iface.speed_mbps
}

/// Fill in `speed_mbps` for every interface whose device path carries a GUID
/// the OS also reports an adapter for.
pub fn attach_link_speeds(list: &mut Vec<Interface>, adapters: &Vec<Adapter>)
    ensures
        views(final(list)@) == with_speeds(views(old(list)@), adapters@),
{
    let ghost before = views(list@);
    let ghost after = with_speeds(before, adapters@);
    let mut i: usize = 0;
    while i < list.len()
        invariant
            i <= list@.len() == before.len(),
            before == views(old(list)@),
            after == with_speeds(before, adapters@),
            forall|k: int| 0 <= k < i ==> (#[trigger] list@[k])@ == after[k],
            forall|k: int| i <= k < before.len() ==> (#[trigger] list@[k])@ == before[k],
        decreases list@.len() - i,
    {
        let speed_mbps: Option<u32> = find_speed(&list[i], adapters);
        list[i].speed_mbps = speed_mbps;
        i += 1;
    }
    assert(views(list@) =~= after);
}

/// An adapter as a capture interface. Npcap names its devices by GUID, so the
/// path can be reconstructed.
pub open spec fn adapter_interface(a: Adapter) -> InterfaceView {
    InterfaceView {
        id: "\\Device\\NPF_"@ + a.guid@,
        label: if a.friendly_name@.len() == 0 {
            a.guid@
        } else {
            a.friendly_name@
        },
        speed_mbps: a.speed_mbps,
    }
}

/// Adapters as capture interfaces.
pub open spec fn adapter_interfaces(adapters: Seq<Adapter>) -> Seq<InterfaceView> {
    Seq::new(adapters.len(), |i: int| adapter_interface(adapters[i]))
}

/// Adapters as capture interfaces, for when `dumpcap` is unavailable.
pub fn adapters_as_interfaces(adapters: &Vec<Adapter>) -> (r: Vec<Interface>)
    ensures
        views(r@) == adapter_interfaces(adapters@),
{
    let mut out: Vec<Interface> = Vec::new();
    let mut i: usize = 0;
    while i < adapters.len()
        invariant
            i <= adapters@.len(),
            views(out@) == adapter_interfaces(adapters@).take(i as int),
        decreases adapters@.len() - i,
    {
        let a: &Adapter = &adapters[i];
        let mut id: String = "\\Device\\NPF_".to_owned();
        id.append(a.guid.as_str());
        let label: String = if a.friendly_name.as_str().is_empty() {
            a.guid.clone()
        } else {
            a.friendly_name.clone()
        };
        let ghost before = views(out@);
        out.push(Interface { id, label, speed_mbps: a.speed_mbps });
        assert(views(out@) =~= before.push(adapter_interface(adapters@[i as int])));
        assert(views(out@) =~= adapter_interfaces(adapters@).take(i + 1));
        i += 1;
    }
    out
}

/// The interfaces in the output of `dumpcap -D`, where it could be had; where
/// the OS reports adapters, with their speeds, or the adapters themselves when
/// nothing is listed.
pub open spec fn dumpcap_list(
    listed: Option<Seq<char>>,
    adapters: Option<Seq<Adapter>>,
) -> Seq<InterfaceView> {
    let list = match listed {
        Some(out) => listing(text::fields(out, '\n')),
        None => Seq::empty(),
    };
    match adapters {
        Some(a) => if list.len() == 0 {
            adapter_interfaces(a)
        } else {
            with_speeds(list, a)
        },
        None => list,
    }
}

/// The interfaces in the output of `dumpcap -D`.
///
/// The listing carries the friendly adapter names Windows users actually
/// recognise. What it does *not* carry is link speed, which is filled in from
/// the adapters: without it every load percentage would be measured against a
/// guess. Without a listing there is nothing to capture with, but the adapters
/// can still be named, which beats a bare "no interfaces found".
pub fn dumpcap_interfaces(listed: Option<&str>, adapters: Option<&Vec<Adapter>>) -> (r: Vec<
    Interface,
>)
    ensures
        views(r@) == dumpcap_list(
            match listed {
                Some(out) => Some(out@),
                None => None,
            },
            match adapters {
                Some(a) => Some(a@),
                None => None,
            },
        ),
{
    let mut list: Vec<Interface> = match listed {
        Some(out) => parse_dumpcap_listing(out),
        None => Vec::new(),
    };
    assert(listed is None ==> views(list@) =~= Seq::empty());
    match adapters {
        Some(a) => if list.is_empty() {
            adapters_as_interfaces(a)
        } else {
            attach_link_speeds(&mut list, a);
            list
        },
        None => list,
    }
}

// ---- The list ------------------------------------------------------------------------------

/// What the system reports of its interfaces.
pub enum Reported {
    /// Their names, each with the text that holds its speed.
    Names(Vec<(String, Option<String>)>),
    /// The output of `dumpcap -D`, where it could be had, and the adapters,
    /// where the OS names them.
    Listing { output: Option<String>, adapters: Option<Vec<Adapter>> },
}

/// The interfaces in what the system reports.
pub open spec fn interfaces_in(reported: Reported) -> Seq<InterfaceView> {
    match reported {
        Reported::Names(entries) => by_id(system_interfaces(entries@)),
        Reported::Listing { output, adapters } => dumpcap_list(
            match output {
                Some(out) => Some(out@),
                None => None,
            },
            match adapters {
                Some(a) => Some(a@),
                None => None,
            },
        ),
    }
}

/// Every interface the system reports, best-effort.
pub fn list_interfaces(reported: &Reported) -> (r: Vec<Interface>)
    ensures
        views(r@) == interfaces_in(*reported),
{
    match reported {
        Reported::Names(entries) => linux_interfaces(entries),
        Reported::Listing { output, adapters } => {
            let listed: Option<&str> = match output {
                Some(out) => Some(out.as_str()),
                None => None,
            };
            dumpcap_interfaces(listed, adapters.as_ref())
        },
    }
}

} // verus!
