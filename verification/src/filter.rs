//! Pre-count capture filter.
//!
//! Constraints here are applied *before* a frame is counted, so a filtered
//! frame never reaches the table, the running totals or the session summary.
//! This is what makes the CLI's filter flags useful for unattended runs: the
//! memory and the output only ever hold traffic that was asked for.
//!
//! The GUI's column dropdowns are a different mechanism entirely: those
//! filter what is *displayed* from data already captured.
use crate::parse;
use crate::parse::{Frame, Redundancy};
use crate::sets;
use crate::sets::{listed, TextSet};
use crate::text;
use crate::text::{chars_of, decimal, hex_u16, join_strings, parse_unsigned, split_list, string_of};
use std::collections::BTreeSet;
use vstd::prelude::*;

verus! {

broadcast use text::lemma_texts_push;

/// Redundancy tokens accepted by `--redundancy`.
pub const REDUNDANCY_TOKENS: [&'static str; 7] = [
    "hsr",
    "prp",
    "none",
    "hsr-a",
    "hsr-b",
    "prp-a",
    "prp-b",
];

// ---- Model ----------------------------------------------------------------------

/// The content of a [`FrameFilter`]. The text sets are given by their ordered
/// listing.
pub ghost struct FrameFilterView {
    pub vlans: Option<Set<u16>>,
    pub redundancy: Option<Seq<Seq<char>>>,
    pub appids: Option<Set<u16>>,
    pub svids: Option<Seq<Seq<char>>>,
}

/// The tokens a frame's redundancy state satisfies.
///
/// Two tokens for a lettered lane are what lets `hsr` match either lane while
/// `hsr-a` stays specific to one.
pub open spec fn tokens_of(r: Redundancy) -> Seq<Seq<char>> {
    match r {
        Redundancy::Absent => seq!["none"@],
        Redundancy::Hsr(p) => if p == 0xA {
            seq!["hsr"@, "hsr-a"@]
        } else if p == 0xB {
            seq!["hsr"@, "hsr-b"@]
        } else {
            seq!["hsr"@]
        },
        Redundancy::Prp(l) => if l == 0xA {
            seq!["prp"@, "prp-a"@]
        } else if l == 0xB {
            seq!["prp"@, "prp-b"@]
        } else {
            seq!["prp"@]
        },
    }
}

/// Whether any VLAN tag of the frame is wanted.
pub open spec fn vlan_wanted(want: Option<Set<u16>>, tags: Seq<(u16, u8)>) -> bool {
    want matches Some(w) ==> exists|i: int| 0 <= i < tags.len() && w.contains(#[trigger] tags[i].0)
}

/// Whether the frame's redundancy satisfies a wanted token.
pub open spec fn redundancy_wanted(want: Option<Seq<Seq<char>>>, r: Redundancy) -> bool {
    want matches Some(w) ==> exists|i: int|
        0 <= i < tokens_of(r).len() && w.contains(#[trigger] tokens_of(r)[i])
}

/// Whether the frame has a wanted AppID.
pub open spec fn appid_wanted(want: Option<Set<u16>>, appid: Option<u16>) -> bool {
    want matches Some(w) ==> appid is Some && w.contains(appid->0)
}

/// Whether the frame's identifier, in upper case, is wanted.
pub open spec fn id_wanted(want: Option<Seq<Seq<char>>>, upper: Option<Seq<char>>) -> bool {
    want matches Some(w) ==> upper is Some && w.contains(upper->0)
}

/// Whether a filter lets a frame through whose identifier in upper case is
/// `upper`.
pub open spec fn accepts(
    f: FrameFilterView,
    frame: parse::FrameView,
    upper: Option<Seq<char>>,
) -> bool {
    &&& vlan_wanted(f.vlans, frame.vlans)
    &&& redundancy_wanted(f.redundancy, frame.redundancy)
    &&& appid_wanted(f.appids, frame.app.appid)
    &&& id_wanted(f.svids, upper)
}

/// The upper case of an optional identifier.
pub open spec fn upper_id(id: Option<Seq<char>>) -> Option<Seq<char>> {
    match id {
        Some(s) => Some(text::uppercase(s)),
        None => None,
    }
}

/// The upper case of an optional ASCII identifier.
pub open spec fn ascii_upper_id(id: Option<Seq<char>>) -> Option<Seq<char>> {
    match id {
        Some(s) => Some(text::ascii_upper(s)),
        None => None,
    }
}

/// A list of numbers as text.
pub open spec fn number_list(s: Seq<u16>) -> Seq<Seq<char>> {
    Seq::new(s.len(), |i: int| text::dec(s[i] as nat))
}

/// A list of AppIDs as text.
pub open spec fn appid_list(s: Seq<u16>) -> Seq<Seq<char>> {
    Seq::new(s.len(), |i: int| text::hex4(s[i]))
}

/// The parts of a filter's description, one for each constraint.
pub open spec fn summary_parts(f: FrameFilterView) -> Seq<Seq<char>> {
    let none = Seq::<Seq<char>>::empty();
    let vlans = match f.vlans {
        Some(v) => seq!["vlan="@ + text::joined(number_list(sets::ascending(v)), ","@)],
        None => none,
    };
    let redundancy = match f.redundancy {
        Some(v) => seq!["redundancy="@ + text::joined(v, ","@)],
        None => none,
    };
    let appids = match f.appids {
        Some(v) => seq!["appid="@ + text::joined(appid_list(sets::ascending(v)), ","@)],
        None => none,
    };
    let svids = match f.svids {
        Some(v) => seq!["id="@ + text::joined(v, ","@)],
        None => none,
    };
    vlans + redundancy + appids + svids
}

// ---- The filter -------------------------------------------------------------------

/// A predicate over four independent, all-optional constraints.
///
/// Values within one field are OR'd; different fields are AND'd. `None` means
/// the field places no constraint at all.
#[derive(Debug)]
pub struct FrameFilter {
    pub vlans: Option<BTreeSet<u16>>,
    pub redundancy: Option<TextSet>,
    pub appids: Option<BTreeSet<u16>>,
    /// Matches the shared SVID/goID column; `--goid` and `--svid` both feed it.
    pub svids: Option<TextSet>,
}

/// The members of an optional set of numbers.
pub open spec fn opt_set(s: Option<BTreeSet<u16>>) -> Option<Set<u16>> {
    match s {
        Some(s) => Some(s@),
        None => None,
    }
}

/// The listing of an optional set of texts.
pub open spec fn opt_list(s: Option<TextSet>) -> Option<Seq<Seq<char>>> {
    match s {
        Some(s) => Some(s@),
        None => None,
    }
}

impl View for FrameFilter {
    type V = FrameFilterView;

    open spec fn view(&self) -> FrameFilterView {
        FrameFilterView {
            vlans: opt_set(self.vlans),
            redundancy: opt_list(self.redundancy),
            appids: opt_set(self.appids),
            svids: opt_list(self.svids),
        }
    }
}

impl Default for FrameFilter {
    fn default() -> (r: FrameFilter)
        ensures
            r@ == (FrameFilterView { vlans: None, redundancy: None, appids: None, svids: None }),
    {
        FrameFilter { vlans: None, redundancy: None, appids: None, svids: None }
    }
}

fn copy_numbers(s: &Option<BTreeSet<u16>>) -> (r: Option<BTreeSet<u16>>)
    ensures
        opt_set(r) == opt_set(*s),
{
    match s {
        Some(s) => Some(s.clone()),
        None => None,
    }
}

fn copy_texts(s: &Option<TextSet>) -> (r: Option<TextSet>)
    ensures
        opt_list(r) == opt_list(*s),
{
    match s {
        Some(s) => Some(s.clone()),
        None => None,
    }
}

impl Clone for FrameFilter {
    fn clone(&self) -> (r: FrameFilter)
        ensures
            r@ == self@,
    {
        FrameFilter {
            vlans: copy_numbers(&self.vlans),
            redundancy: copy_texts(&self.redundancy),
            appids: copy_numbers(&self.appids),
            svids: copy_texts(&self.svids),
        }
    }
}

impl FrameFilter {
    pub fn is_empty(&self) -> (r: bool)
        ensures
            r == (self.vlans is None && self.redundancy is None && self.appids is None
                && self.svids is None),
    {
        self.vlans.is_none() && self.redundancy.is_none() && self.appids.is_none()
            && self.svids.is_none()
    }

    /// Whether the filter lets a frame through. Identifiers match in any
    /// letter case.
    pub fn matches(&self, frame: &Frame) -> (r: bool)
        ensures
            r == accepts(self@, frame@, upper_id(frame@.app.svid)),
            (frame@.app.svid matches Some(s) ==> text::ascii(s)) ==> r == accepts(
                self@,
                frame@,
                ascii_upper_id(frame@.app.svid),
            ),
    {
        let upper: Option<String> = match &frame.app.svid {
            Some(s) => Some(s.as_str().to_uppercase()),
            None => None,
        };
        self.matches_upper(frame, &upper)
    }

    /// Whether the filter lets a frame through whose identifier in upper case
    /// is `upper`.
    pub fn matches_upper(&self, frame: &Frame, upper: &Option<String>) -> (r: bool)
        ensures
            r == accepts(self@, frame@, parse::opt_text(*upper)),
    {
        if let Some(want) = &self.vlans {
            // Any tag in a stacked (QinQ) frame may satisfy the constraint,
            // not just the outermost one.
            if !any_id(want, frame.vlans.ids()) {
                proof {
                    assert forall|i: int| 0 <= i < frame@.vlans.len() implies !want@.contains(
                        (#[trigger] frame@.vlans[i]).0,
                    ) by {
                        assert(parse::tag_ids(frame@.vlans)[i] == frame@.vlans[i].0);
                    }
                }
                return false;
            }
            proof {
                let ids = parse::tag_ids(frame@.vlans);
                let i = choose|i: int| 0 <= i < ids.len() && want@.contains(#[trigger] ids[i]);
                assert(want@.contains(frame@.vlans[i].0));
            }
        }
        if let Some(want) = &self.redundancy {
            let tokens: Vec<&'static str> = redundancy_tokens(frame.redundancy);
            if !any_token(want, &tokens) {
                proof {
                    assert forall|i: int|
                        0 <= i < tokens_of(frame.redundancy).len() implies !want@.contains(
                        #[trigger] tokens_of(frame.redundancy)[i],
                    ) by {
                        assert(tokens@[i]@ == tokens_of(frame.redundancy)[i]);
                    }
                }
                return false;
            }
        }
        if let Some(want) = &self.appids {
            match frame.app.appid {
                Some(a) => {
                    if !want.contains(&a) {
                        return false;
                    }
                },
                None => {
                    return false;
                },
            }
        }
        if let Some(want) = &self.svids {
            match upper {
                Some(s) => {
                    if !want.contains(s.as_str()) {
                        return false;
                    }
                },
                None => {
                    return false;
                },
            }
        }
        true
    }

    /// One-line description for the panel footer, empty when no filter is set.
    pub fn summary(&self) -> (r: String)
        ensures
            r@ == text::joined(summary_parts(self@), " "@),
    {
        let mut parts: Vec<String> = Vec::new();
        let ghost none = Seq::<Seq<char>>::empty();
        assert(text::texts(parts@) =~= none);
        if let Some(v) = &self.vlans {
            let list: Vec<String> = decimals(&listed(v));
            parts.push(labelled("vlan=", &list));
        }
        if let Some(v) = &self.redundancy {
            parts.push(labelled("redundancy=", v.items()));
        }
        if let Some(v) = &self.appids {
            let list: Vec<String> = hexes(&listed(v));
            parts.push(labelled("appid=", &list));
        }
        if let Some(v) = &self.svids {
            parts.push(labelled("id=", v.items()));
        }
        assert(text::texts(parts@) =~= summary_parts(self@));
        join_strings(&parts, " ")
    }
}

/// A label and the comma-joined items behind it.
fn labelled(label: &str, items: &Vec<String>) -> (r: String)
    ensures
        r@ == label@ + text::joined(text::texts(items@), ","@),
{
    let mut out: String = label.to_owned();
    out.append(join_strings(items, ",").as_str());
    out
}

fn decimals(v: &Vec<u16>) -> (r: Vec<String>)
    ensures
        text::texts(r@) == number_list(v@),
{
    let mut out: Vec<String> = Vec::new();
    let mut i: usize = 0;
    while i < v.len()
        invariant
            i <= v@.len(),
            text::texts(out@) == number_list(v@).take(i as int),
        decreases v@.len() - i,
    {
        out.push(decimal(v[i] as u64));
        assert(number_list(v@).take(i + 1) =~= number_list(v@).take(i as int).push(
            number_list(v@)[i as int],
        ));
        i += 1;
    }
    assert(number_list(v@).take(i as int) =~= number_list(v@));
    out
}

fn hexes(v: &Vec<u16>) -> (r: Vec<String>)
    ensures
        text::texts(r@) == appid_list(v@),
{
    let mut out: Vec<String> = Vec::new();
    let mut i: usize = 0;
    while i < v.len()
        invariant
            i <= v@.len(),
            text::texts(out@) == appid_list(v@).take(i as int),
        decreases v@.len() - i,
    {
        out.push(hex_u16(v[i]));
        assert(appid_list(v@).take(i + 1) =~= appid_list(v@).take(i as int).push(
            appid_list(v@)[i as int],
        ));
        i += 1;
    }
    assert(appid_list(v@).take(i as int) =~= appid_list(v@));
    out
}

fn any_id(want: &BTreeSet<u16>, ids: &[u16]) -> (r: bool)
    ensures
        r == exists|i: int| 0 <= i < ids@.len() && want@.contains(#[trigger] ids@[i]),
{
    let mut i: usize = 0;
    while i < ids.len()
        invariant
            i <= ids@.len(),
            forall|j: int| 0 <= j < i ==> !want@.contains(#[trigger] ids@[j]),
        decreases ids@.len() - i,
    {
        if want.contains(&ids[i]) {
            assert(want@.contains(ids@[i as int]));
            return true;
        }
        i += 1;
    }
    false
}

fn any_token(want: &TextSet, tokens: &Vec<&'static str>) -> (r: bool)
    ensures
        r == exists|i: int| 0 <= i < tokens@.len() && want@.contains((#[trigger] tokens@[i])@),
{
    let mut i: usize = 0;
    while i < tokens.len()
        invariant
            i <= tokens@.len(),
            forall|j: int| 0 <= j < i ==> !want@.contains((#[trigger] tokens@[j])@),
        decreases tokens@.len() - i,
    {
        if want.contains(tokens[i]) {
            assert(want@.contains(tokens@[i as int]@));
            return true;
        }
        i += 1;
    }
    false
}

/// The tokens a frame's redundancy state satisfies.
pub fn redundancy_tokens(r: Redundancy) -> (v: Vec<&'static str>)
    ensures
        v@.len() == tokens_of(r).len(),
        forall|i: int| 0 <= i < v@.len() ==> (#[trigger] v@[i])@ == tokens_of(r)[i],
{
    match r {
        Redundancy::Absent => vec!["none"],
        Redundancy::Hsr(p) => if p == 0xA {
            vec!["hsr", "hsr-a"]
        } else if p == 0xB {
            vec!["hsr", "hsr-b"]
        } else {
            vec!["hsr"]
        },
        Redundancy::Prp(l) => if l == 0xA {
            vec!["prp", "prp-a"]
        } else if l == 0xB {
            vec!["prp", "prp-b"]
        } else {
            vec!["prp"]
        },
    }
}

// ---- Reading the flags ----------------------------------------------------------------

/// The VLAN id written in an item.
pub open spec fn vlan_item(s: Seq<char>) -> Option<nat> {
    text::unsigned_up_to(s, 10, 4095)
}

/// The complaint about an item that is no VLAN id.
pub open spec fn vlan_error(s: Seq<char>) -> Seq<char> {
    "invalid VLAN id '"@ + s + "' (expected 0-4095)"@
}

/// `s` without any number of leading `0x`, where `x` is the given letter.
pub open spec fn unprefixed(s: Seq<char>, x: char) -> Seq<char>
    decreases s.len(),
{
    if s.len() >= 2 && s[0] == '0' && s[1] == x {
        unprefixed(s.skip(2), x)
    } else {
        s
    }
}

/// The AppID written in an item: hex, with or without a prefix.
pub open spec fn appid_item(s: Seq<char>) -> Option<nat> {
    text::unsigned_up_to(unprefixed(unprefixed(s, 'x'), 'X'), 16, 0xFFFF)
}

/// The complaint about an item that is no AppID.
pub open spec fn appid_error(s: Seq<char>) -> Seq<char> {
    "invalid AppID '"@ + s + "' (expected hex, e.g. 0x4041)"@
}

/// Whether a text is one of the redundancy tokens.
pub open spec fn is_token(s: Seq<char>) -> bool {
    exists|i: int| 0 <= i < REDUNDANCY_TOKENS@.len() && (#[trigger] REDUNDANCY_TOKENS@[i])@ == s
}

/// The redundancy tokens as texts.
pub open spec fn token_list() -> Seq<Seq<char>> {
    Seq::new(REDUNDANCY_TOKENS@.len(), |i: int| REDUNDANCY_TOKENS@[i]@)
}

/// The complaint about an item that is no redundancy token.
pub open spec fn redundancy_error(s: Seq<char>) -> Seq<char> {
    "invalid redundancy value '"@ + s + "' (expected one of: "@ + text::joined(token_list(), ", "@)
        + ")"@
}

/// Which items are VLAN ids.
pub open spec fn vlan_ok() -> spec_fn(Seq<char>) -> bool {
    |v: Seq<char>| vlan_item(v) is Some
}

/// The reading of VLAN ids.
pub open spec fn vlan_reader() -> spec_fn(Seq<char>) -> Option<nat> {
    |v: Seq<char>| vlan_item(v)
}

/// Which items are AppIDs.
pub open spec fn appid_ok() -> spec_fn(Seq<char>) -> bool {
    |v: Seq<char>| appid_item(v) is Some
}

/// The reading of AppIDs.
pub open spec fn appid_reader() -> spec_fn(Seq<char>) -> Option<nat> {
    |v: Seq<char>| appid_item(v)
}

/// Which items are redundancy tokens, whatever their letter case.
pub open spec fn token_ok() -> spec_fn(Seq<char>) -> bool {
    |v: Seq<char>| is_token(text::lowercase(v))
}

/// Which ASCII items are redundancy tokens.
pub open spec fn ascii_token_ok() -> spec_fn(Seq<char>) -> bool {
    |v: Seq<char>| is_token(text::ascii_lower(v))
}

pub open spec fn to_lower() -> spec_fn(Seq<char>) -> Seq<char> {
    |v: Seq<char>| text::lowercase(v)
}

pub open spec fn to_ascii_lower() -> spec_fn(Seq<char>) -> Seq<char> {
    |v: Seq<char>| text::ascii_lower(v)
}

pub open spec fn to_upper() -> spec_fn(Seq<char>) -> Seq<char> {
    |v: Seq<char>| text::uppercase(v)
}

pub open spec fn to_ascii_upper() -> spec_fn(Seq<char>) -> Seq<char> {
    |v: Seq<char>| text::ascii_upper(v)
}

/// Whether `i` is the first item that `valid` refuses.
pub open spec fn first_refused(
    items: Seq<Seq<char>>,
    valid: spec_fn(Seq<char>) -> bool,
    i: int,
) -> bool {
    &&& 0 <= i < items.len()
    &&& !valid(items[i])
    &&& forall|j: int| 0 <= j < i ==> valid(#[trigger] items[j])
}

/// Whether `valid` accepts every item.
pub open spec fn none_refused(items: Seq<Seq<char>>, valid: spec_fn(Seq<char>) -> bool) -> bool {
    forall|i: int| 0 <= i < items.len() ==> valid(#[trigger] items[i])
}

/// The numbers that `read` finds in the items.
pub open spec fn numbers_in(
    items: Seq<Seq<char>>,
    read: spec_fn(Seq<char>) -> Option<nat>,
) -> Set<u16> {
    Set::new(
        |v: u16| exists|i: int| 0 <= i < items.len() && read(#[trigger] items[i]) == Some(v as nat),
    )
}

/// One more item adds the number in it.
proof fn lemma_numbers_push(
    items: Seq<Seq<char>>,
    read: spec_fn(Seq<char>) -> Option<nat>,
    n: int,
    v: u16,
)
    requires
        0 <= n < items.len(),
        read(items[n]) == Some(v as nat),
    ensures
        numbers_in(items.take(n + 1), read) == numbers_in(items.take(n), read).insert(v),
{
    let a = items.take(n + 1);
    let b = items.take(n);
    assert forall|x: u16|
        numbers_in(a, read).contains(x) <==> numbers_in(b, read).insert(v).contains(x) by {
        assert(a[n] == items[n]);
        if numbers_in(a, read).contains(x) {
            let i = choose|i: int| 0 <= i < a.len() && read(#[trigger] a[i]) == Some(x as nat);
            if i < n {
                assert(b[i] == a[i]);
            }
        }
        if numbers_in(b, read).contains(x) {
            let i = choose|i: int| 0 <= i < b.len() && read(#[trigger] b[i]) == Some(x as nat);
            assert(a[i] == b[i]);
        }
    }
    assert(numbers_in(a, read) =~= numbers_in(b, read).insert(v));
}

/// Parse a comma-separated `--vlan` value.
pub fn parse_vlans(s: &str) -> (r: Result<BTreeSet<u16>, String>)
    ensures
        match r {
            Ok(set) => none_refused(text::list_items(s@), vlan_ok())
                && set@ == numbers_in(text::list_items(s@), vlan_reader()),
            Err(e) => exists|i: int|
                #[trigger] first_refused(
                    text::list_items(s@),
                    vlan_ok(),
                    i,
                ) && e@ == vlan_error(text::list_items(s@)[i]),
        },
{
    let items: Vec<String> = split_list(s);
    let ghost all = text::list_items(s@);
    let ghost valid = vlan_ok();
    let ghost read = vlan_reader();
    let mut out: BTreeSet<u16> = BTreeSet::new();
    let mut i: usize = 0;
    assert(out@ =~= numbers_in(all.take(0), read));
    while i < items.len()
        invariant
            i <= items@.len(),
            all == text::texts(items@),
            all == text::list_items(s@),
            valid == vlan_ok(),
            read == vlan_reader(),
            forall|j: int| 0 <= j < i ==> valid(#[trigger] all[j]),
            out@ == numbers_in(all.take(i as int), read),
        decreases items@.len() - i,
    {
        assert(items@[i as int]@ == all[i as int]);
        match parse_unsigned(items[i].as_str(), 10, 4095) {
            Some(v) => {
                proof {
                    lemma_numbers_push(all, read, i as int, v as u16);
                }
                out.insert(v as u16);
            },
            None => {
                let mut e: String = "invalid VLAN id '".to_owned();
                e.append(items[i].as_str());
                e.append("' (expected 0-4095)");
                assert(first_refused(all, valid, i as int));
                return Err(e);
            },
        }
        i += 1;
    }
    assert(all.take(i as int) =~= all);
    Ok(out)
}

/// Parse a comma-separated `--appid` value; hex, with or without `0x`.
pub fn parse_appids(s: &str) -> (r: Result<BTreeSet<u16>, String>)
    ensures
        match r {
            Ok(set) => none_refused(text::list_items(s@), appid_ok())
                && set@ == numbers_in(text::list_items(s@), appid_reader()),
            Err(e) => exists|i: int|
                #[trigger] first_refused(
                    text::list_items(s@),
                    appid_ok(),
                    i,
                ) && e@ == appid_error(text::list_items(s@)[i]),
        },
{
    let items: Vec<String> = split_list(s);
    let ghost all = text::list_items(s@);
    let ghost valid = appid_ok();
    let ghost read = appid_reader();
    let mut out: BTreeSet<u16> = BTreeSet::new();
    let mut i: usize = 0;
    assert(out@ =~= numbers_in(all.take(0), read));
    while i < items.len()
        invariant
            i <= items@.len(),
            all == text::texts(items@),
            all == text::list_items(s@),
            valid == appid_ok(),
            read == appid_reader(),
            forall|j: int| 0 <= j < i ==> valid(#[trigger] all[j]),
            out@ == numbers_in(all.take(i as int), read),
        decreases items@.len() - i,
    {
        assert(items@[i as int]@ == all[i as int]);
        let digits: String = strip_hex_prefix(items[i].as_str());
        match parse_unsigned(digits.as_str(), 16, 0xFFFF) {
            Some(v) => {
                proof {
                    lemma_numbers_push(all, read, i as int, v as u16);
                }
                out.insert(v as u16);
            },
            None => {
                let mut e: String = "invalid AppID '".to_owned();
                e.append(items[i].as_str());
                e.append("' (expected hex, e.g. 0x4041)");
                assert(first_refused(all, valid, i as int));
                return Err(e);
            },
        }
        i += 1;
    }
    assert(all.take(i as int) =~= all);
    Ok(out)
}

/// `s` without leading `0x` and then `0X` prefixes.
fn strip_hex_prefix(s: &str) -> (r: String)
    ensures
        r@ == unprefixed(unprefixed(s@, 'x'), 'X'),
{
    let cs: Vec<char> = chars_of(s);
    let a: usize = skip_prefixes(&cs, 0, 'x');
    let b: usize = skip_prefixes(&cs, a, 'X');
    assert(cs@.skip(0) =~= cs@);
    assert(cs@.skip(b as int) =~= cs@.subrange(b as int, cs@.len() as int));
    string_of(cs.as_slice(), b, cs.len())
}

fn skip_prefixes(cs: &Vec<char>, from: usize, x: char) -> (r: usize)
    requires
        from <= cs@.len(),
    ensures
        from <= r <= cs@.len(),
        cs@.skip(r as int) == unprefixed(cs@.skip(from as int), x),
{
    let mut i: usize = from;
    while cs.len() - i >= 2 && cs[i] == '0' && cs[i + 1] == x
        invariant
            from <= i <= cs@.len(),
            unprefixed(cs@.skip(i as int), x) == unprefixed(cs@.skip(from as int), x),
        decreases cs@.len() - i,
    {
        assert(cs@.skip(i as int).skip(2) =~= cs@.skip(i + 2));
        i += 2;
    }
    i
}

/// Check one `--redundancy` item against the tokens, given its lower case.
pub fn redundancy_item(v: &str, lower: String) -> (r: Result<String, String>)
    ensures
        match r {
            Ok(t) => is_token(lower@) && t@ == lower@,
            Err(e) => !is_token(lower@) && e@ == redundancy_error(v@),
        },
{
    let mut tokens: Vec<String> = Vec::new();
    let mut i: usize = 0;
    while i < REDUNDANCY_TOKENS.len()
        invariant
            i <= REDUNDANCY_TOKENS@.len(),
            forall|j: int| 0 <= j < i ==> (#[trigger] REDUNDANCY_TOKENS@[j])@ != lower@,
            text::texts(tokens@) == token_list().take(i as int),
        decreases REDUNDANCY_TOKENS@.len() - i,
    {
        let token: String = REDUNDANCY_TOKENS[i].to_owned();
        if token == lower {
            return Ok(lower);
        }
        tokens.push(token);
        assert(token_list().take(i + 1) =~= token_list().take(i as int).push(
            token_list()[i as int],
        ));
        i += 1;
    }
    assert(token_list().take(i as int) =~= token_list());
    let mut e: String = "invalid redundancy value '".to_owned();
    e.append(v);
    e.append("' (expected one of: ");
    e.append(join_strings(&tokens, ", ").as_str());
    e.append(")");
    Err(e)
}

/// The texts that `change` makes of the items.
pub open spec fn changed(
    items: Seq<Seq<char>>,
    change: spec_fn(Seq<char>) -> Seq<char>,
) -> Seq<Seq<char>> {
    Seq::new(items.len(), |i: int| change(items[i]))
}

/// Parse and validate a comma-separated `--redundancy` value.
pub fn parse_redundancy(s: &str) -> (r: Result<TextSet, String>)
    ensures
        match r {
            Ok(set) => none_refused(
                text::list_items(s@),
                token_ok(),
            ) && set.members() == changed(
                text::list_items(s@),
                to_lower(),
            ).to_set(),
            Err(e) => exists|i: int|
                #[trigger] first_refused(
                    text::list_items(s@),
                    token_ok(),
                    i,
                ) && e@ == redundancy_error(text::list_items(s@)[i]),
        },
        // Of ASCII items, which tokens there are is plain.
        text::ascii(s@) ==> match r {
            Ok(set) => none_refused(
                text::list_items(s@),
                ascii_token_ok(),
            ) && set.members() == changed(
                text::list_items(s@),
                to_ascii_lower(),
            ).to_set(),
            Err(e) => exists|i: int|
                #[trigger] first_refused(
                    text::list_items(s@),
                    ascii_token_ok(),
                    i,
                ) && e@ == redundancy_error(text::list_items(s@)[i]),
        },
{
    let items: Vec<String> = split_list(s);
    let ghost all = text::list_items(s@);
    let ghost valid = token_ok();
    let ghost plainly = ascii_token_ok();
    let ghost lower = to_lower();
    let ghost plain = to_ascii_lower();
    let mut out: TextSet = TextSet::new();
    let mut i: usize = 0;
    proof {
        text::lemma_list_items_ascii(s@);
        assert(out.members() =~= changed(all, lower).take(0).to_set());
        assert(out.members() =~= changed(all, plain).take(0).to_set());
    }
    while i < items.len()
        invariant
            i <= items@.len(),
            all == text::texts(items@),
            all == text::list_items(s@),
            valid == token_ok(),
            plainly == ascii_token_ok(),
            lower == to_lower(),
            plain == to_ascii_lower(),
            text::ascii(s@) ==> forall|j: int| 0 <= j < all.len() ==> text::ascii(#[trigger] all[j]),
            forall|j: int| 0 <= j < i ==> valid(#[trigger] all[j]),
            text::ascii(s@) ==> forall|j: int| 0 <= j < i ==> plainly(#[trigger] all[j]),
            out.members() == changed(all, lower).take(i as int).to_set(),
            text::ascii(s@) ==> out.members() == changed(all, plain).take(i as int).to_set(),
        decreases items@.len() - i,
    {
        assert(items@[i as int]@ == all[i as int]);
        let low: String = items[i].as_str().to_lowercase();
        let ghost low_text = low@;
        match redundancy_item(items[i].as_str(), low) {
            Ok(t) => {
                out.insert(t);
                proof {
                    sets::lemma_take_next(changed(all, lower), i as int);
                    sets::lemma_take_next(changed(all, plain), i as int);
                }
            },
            Err(e) => {
                assert(first_refused(all, valid, i as int));
                assert(text::ascii(s@) ==> first_refused(all, plainly, i as int));
                return Err(e);
            },
        }
        i += 1;
    }
    assert(changed(all, lower).take(i as int) =~= changed(all, lower));
    assert(changed(all, plain).take(i as int) =~= changed(all, plain));
    Ok(out)
}

/// Parse a comma-separated `--goid` / `--svid` value, normalised for matching.
pub fn parse_ids(s: &str) -> (r: TextSet)
    ensures
        r.members() == changed(text::list_items(s@), to_upper()).to_set(),
        text::ascii(s@) ==> r.members() == changed(
            text::list_items(s@),
            to_ascii_upper(),
        ).to_set(),
{
    let items: Vec<String> = split_list(s);
    let ghost all = text::list_items(s@);
    let ghost upper = to_upper();
    let ghost plain = to_ascii_upper();
    let mut out: TextSet = TextSet::new();
    let mut i: usize = 0;
    proof {
        text::lemma_list_items_ascii(s@);
        assert(out.members() =~= changed(all, upper).take(0).to_set());
        assert(out.members() =~= changed(all, plain).take(0).to_set());
    }
    while i < items.len()
        invariant
            i <= items@.len(),
            all == text::texts(items@),
            all == text::list_items(s@),
            upper == to_upper(),
            plain == to_ascii_upper(),
            text::ascii(s@) ==> forall|j: int| 0 <= j < all.len() ==> text::ascii(#[trigger] all[j]),
            out.members() == changed(all, upper).take(i as int).to_set(),
            text::ascii(s@) ==> out.members() == changed(all, plain).take(i as int).to_set(),
        decreases items@.len() - i,
    {
        assert(items@[i as int]@ == all[i as int]);
        out.insert(items[i].as_str().to_uppercase());
        proof {
            sets::lemma_take_next(changed(all, upper), i as int);
            sets::lemma_take_next(changed(all, plain), i as int);
        }
        i += 1;
    }
    assert(changed(all, upper).take(i as int) =~= changed(all, upper));
    assert(changed(all, plain).take(i as int) =~= changed(all, plain));
    out
}

// ---- Laws -----------------------------------------------------------------------------

/// The filter without any constraint.
pub open spec fn no_filter() -> FrameFilterView {
    FrameFilterView { vlans: None, redundancy: None, appids: None, svids: None }
}

/// A filter without constraints accepts every frame.
pub proof fn law_no_filter_accepts_everything(frame: parse::FrameView, upper: Option<Seq<char>>)
    ensures
        accepts(no_filter(), frame, upper),
{
}

/// A filter's description is empty exactly when it has no constraint.
pub proof fn law_only_no_filter_reads_empty(f: FrameFilterView)
    ensures
        text::joined(summary_parts(f), " "@) == Seq::<char>::empty() <==> f == no_filter(),
{
    reveal_strlit("vlan=");
    reveal_strlit("redundancy=");
    reveal_strlit("appid=");
    reveal_strlit("id=");
    let parts = summary_parts(f);
    if f == no_filter() {
        assert(parts =~= Seq::empty());
    } else {
        assert(parts.len() > 0);
        assert(parts.last().len() > 0) by {
            if f.svids is None {
                if f.appids is None {
                    if f.redundancy is None {
                        assert(parts[0].len() >= "vlan="@.len());
                    }
                }
            }
        }
        assert(text::joined(parts, " "@).len() >= parts.last().len());
    }
}

/// Different fields are AND'd: a filter accepts what each of its constraints
/// alone accepts.
pub proof fn law_fields_are_anded(
    f: FrameFilterView,
    frame: parse::FrameView,
    upper: Option<Seq<char>>,
)
    ensures
        accepts(f, frame, upper) <==> {
            &&& accepts((FrameFilterView { vlans: f.vlans, ..no_filter() }), frame, upper)
            &&& accepts((FrameFilterView { redundancy: f.redundancy, ..no_filter() }), frame, upper)
            &&& accepts((FrameFilterView { appids: f.appids, ..no_filter() }), frame, upper)
            &&& accepts((FrameFilterView { svids: f.svids, ..no_filter() }), frame, upper)
        },
{
}

/// Values within the number fields are OR'd.
pub proof fn law_numbers_are_ored(
    a: Set<u16>,
    b: Set<u16>,
    tags: Seq<(u16, u8)>,
    appid: Option<u16>,
)
    ensures
        vlan_wanted(Some(a.union(b)), tags) <==> vlan_wanted(Some(a), tags) || vlan_wanted(
            Some(b),
            tags,
        ),
        appid_wanted(Some(a.union(b)), appid) <==> appid_wanted(Some(a), appid) || appid_wanted(
            Some(b),
            appid,
        ),
{
    if vlan_wanted(Some(a.union(b)), tags) {
        let i = choose|i: int| 0 <= i < tags.len() && a.union(b).contains(#[trigger] tags[i].0);
        assert(a.contains(tags[i].0) || b.contains(tags[i].0));
    }
    if vlan_wanted(Some(a), tags) {
        let i = choose|i: int| 0 <= i < tags.len() && a.contains(#[trigger] tags[i].0);
        assert(a.union(b).contains(tags[i].0));
    }
    if vlan_wanted(Some(b), tags) {
        let i = choose|i: int| 0 <= i < tags.len() && b.contains(#[trigger] tags[i].0);
        assert(a.union(b).contains(tags[i].0));
    }
}

/// Values within the text fields are OR'd, however the sets are listed.
pub proof fn law_texts_are_ored(
    a: Seq<Seq<char>>,
    b: Seq<Seq<char>>,
    both: Seq<Seq<char>>,
    r: Redundancy,
    upper: Option<Seq<char>>,
)
    requires
        both.to_set() == a.to_set().union(b.to_set()),
    ensures
        redundancy_wanted(Some(both), r) <==> redundancy_wanted(Some(a), r) || redundancy_wanted(
            Some(b),
            r,
        ),
        id_wanted(Some(both), upper) <==> id_wanted(Some(a), upper) || id_wanted(Some(b), upper),
{
    assert forall|s: Seq<char>|
        #![trigger both.contains(s)]
        #![trigger a.contains(s)]
        #![trigger b.contains(s)]
        both.contains(s) <==> a.contains(s) || b.contains(s) by {
        assert(both.to_set().contains(s) <==> a.to_set().contains(s) || b.to_set().contains(s));
    }
    let tokens = tokens_of(r);
    if redundancy_wanted(Some(both), r) {
        let i = choose|i: int| 0 <= i < tokens.len() && both.contains(#[trigger] tokens[i]);
        assert(a.contains(tokens[i]) || b.contains(tokens[i]));
    }
    if redundancy_wanted(Some(a), r) {
        let i = choose|i: int| 0 <= i < tokens.len() && a.contains(#[trigger] tokens[i]);
        assert(both.contains(tokens[i]));
    }
    if redundancy_wanted(Some(b), r) {
        let i = choose|i: int| 0 <= i < tokens.len() && b.contains(#[trigger] tokens[i]);
        assert(both.contains(tokens[i]));
    }
}

/// Identifiers that differ in letter case only are accepted alike.
pub proof fn law_identifiers_match_in_any_case(f: FrameFilterView, frame: parse::FrameView, a: Seq<
    char,
>, b: Seq<char>)
    requires
        text::ascii_upper(a) == text::ascii_upper(b),
    ensures
        accepts(f, frame, ascii_upper_id(Some(a))) == accepts(f, frame, ascii_upper_id(Some(b))),
{
}

/// The identifier of a frame read off the wire is ASCII, so that its letter
/// case is plain.
pub proof fn law_wire_identifiers_are_ascii(d: Seq<u8>)
    ensures
        crate::classify::classified(d).app.svid matches Some(s) ==> text::ascii(s),
{
    crate::classify::law_identifiers_are_printable(d);
    if let Some(s) = crate::classify::classified(d).app.svid {
        assert forall|i: int| 0 <= i < s.len() implies (#[trigger] s[i] as nat) < 128 by {
            assert(' ' <= s[i] <= '~');
        }
    }
}

/// A redundancy scheme matches both of its lanes, a lane only itself, and
/// `none` only traffic without redundancy.
pub proof fn law_redundancy_tokens(r: Redundancy)
    ensures
        redundancy_wanted(Some(seq!["hsr"@]), r) <==> r is Hsr,
        redundancy_wanted(Some(seq!["prp"@]), r) <==> r is Prp,
        redundancy_wanted(Some(seq!["none"@]), r) <==> r is Absent,
        redundancy_wanted(Some(seq!["hsr-a"@]), r) <==> r == Redundancy::Hsr(0xA),
        redundancy_wanted(Some(seq!["hsr-b"@]), r) <==> r == Redundancy::Hsr(0xB),
        redundancy_wanted(Some(seq!["prp-a"@]), r) <==> r == Redundancy::Prp(0xA),
        redundancy_wanted(Some(seq!["prp-b"@]), r) <==> r == Redundancy::Prp(0xB),
{
    reveal_strlit("hsr");
    reveal_strlit("prp");
    reveal_strlit("none");
    reveal_strlit("hsr-a");
    reveal_strlit("hsr-b");
    reveal_strlit("prp-a");
    reveal_strlit("prp-b");
    let t = tokens_of(r);
    assert forall|w: Seq<char>|
        #[trigger] redundancy_wanted(Some(seq![w]), r) <==> t[0] == w || (t.len() > 1 && t[1]
            == w) by {
        let want = seq![w];
        assert(want[0] == w);
        if t[0] == w {
            assert(want.contains(t[0]));
        }
        if t.len() > 1 && t[1] == w {
            assert(want.contains(t[1]));
        }
        if redundancy_wanted(Some(want), r) {
            let i = choose|i: int| 0 <= i < t.len() && want.contains(#[trigger] t[i]);
            assert(t[i] == w);
        }
    }
    assert("hsr"@ != "prp"@) by {
        assert("hsr"@[0] != "prp"@[0]);
    }
    assert("hsr-a"@ != "hsr-b"@) by {
        assert("hsr-a"@[4] != "hsr-b"@[4]);
    }
    assert("prp-a"@ != "prp-b"@) by {
        assert("prp-a"@[4] != "prp-b"@[4]);
    }
    assert("hsr-a"@ != "prp-a"@ && "hsr-a"@ != "prp-b"@ && "hsr-b"@ != "prp-a"@ && "hsr-b"@
        != "prp-b"@) by {
        assert("hsr-a"@[0] != "prp-a"@[0] && "hsr-a"@[0] != "prp-b"@[0]);
        assert("hsr-b"@[0] != "prp-a"@[0] && "hsr-b"@[0] != "prp-b"@[0]);
    }
    assert("none"@.len() == 4 && "hsr"@.len() == 3 && "prp"@.len() == 3 && "hsr-a"@.len() == 5
        && "hsr-b"@.len() == 5 && "prp-a"@.len() == 5 && "prp-b"@.len() == 5);
}

} // verus!
