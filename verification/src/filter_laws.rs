//! Which frames a filter lets through, and what its flags ask for.
use crate::classify;
use crate::filter;
use crate::load;
use crate::parse;
use crate::parse::{Protocol, Redundancy};
use crate::text;
use crate::text_laws;
use vstd::prelude::*;

verus! {

/// A filter on AppIDs accepts no frame without one, and of the others those
/// whose AppID it names.
pub proof fn law_an_appid_filter_wants_an_appid(
    f: filter::FrameFilterView,
    frame: parse::FrameView,
    upper: Option<Seq<char>>,
)
    requires
        f.appids is Some,
    ensures
        frame.app.appid is None ==> !filter::accepts(f, frame, upper),
        frame.app.appid is Some && !f.appids->0.contains(frame.app.appid->0) ==> !filter::accepts(
            f,
            frame,
            upper,
        ),
        f.vlans is None && f.redundancy is None && f.svids is None && frame.app.appid is Some
            && f.appids->0.contains(frame.app.appid->0) ==> filter::accepts(f, frame, upper),
{
}

/// Through a filter on AppIDs or identifiers passes nothing but GOOSE, Sampled
/// Values and R-GOOSE: no other frame has either.
pub proof fn law_only_iec61850_frames_pass_by_name(f: filter::FrameFilterView, d: Seq<u8>)
    requires
        f.appids is Some || f.svids is Some,
        load::passes(f, d),
    ensures
        ({
            let p = classify::classified(d).proto;
            p == Protocol::Goose || p == Protocol::SampledValues || p == Protocol::RGoose
        }),
{
    reveal(load::passes);
    let frame = classify::classified(d);
    if frame.app == parse::no_app() {
        assert(frame.app.appid is None && frame.app.svid is None);
    } else {
        classify::law_only_iec61850_frames_have_a_header(d);
    }
}

/// A filter on identifiers accepts no frame without one, and of the others
/// those whose identifier in upper case it names.
pub proof fn law_an_identifier_filter_wants_an_identifier(
    f: filter::FrameFilterView,
    frame: parse::FrameView,
    upper: Option<Seq<char>>,
)
    requires
        f.svids is Some,
    ensures
        upper is None ==> !filter::accepts(f, frame, upper),
        upper is Some && !f.svids->0.contains(upper->0) ==> !filter::accepts(f, frame, upper),
        f.vlans is None && f.redundancy is None && f.appids is None && upper is Some
            && f.svids->0.contains(upper->0) ==> filter::accepts(f, frame, upper),
{
}

/// A filter on VLANs accepts no untagged frame; it accepts a tagged one by any
/// tag of its stack, whatever the priorities, and no other.
pub proof fn law_a_vlan_filter_wants_a_tag(
    f: filter::FrameFilterView,
    frame: parse::FrameView,
    upper: Option<Seq<char>>,
)
    requires
        f.vlans is Some,
    ensures
        frame.vlans.len() == 0 ==> !filter::accepts(f, frame, upper),
        (forall|i: int| 0 <= i < frame.vlans.len() ==> !f.vlans->0.contains(#[trigger] frame.vlans[i].0))
            ==> !filter::accepts(f, frame, upper),
        f.appids is None && f.redundancy is None && f.svids is None ==> forall|i: int|
            0 <= i < frame.vlans.len() && f.vlans->0.contains(#[trigger] frame.vlans[i].0)
                ==> filter::accepts(f, frame, upper),
{
}

/// A filter on redundancy accepts a frame by its scheme, or by its scheme and
/// lane, and frames without redundancy by `none`; it accepts no others.
pub proof fn law_a_redundancy_filter_wants_a_scheme(
    f: filter::FrameFilterView,
    frame: parse::FrameView,
    upper: Option<Seq<char>>,
)
    requires
        f.redundancy is Some,
        f.vlans is None,
        f.appids is None,
        f.svids is None,
    ensures
        ({
            let w = f.redundancy->0;
            filter::accepts(f, frame, upper) <==> match frame.redundancy {
                Redundancy::Absent => w.contains("none"@),
                Redundancy::Hsr(lane) => {
                    ||| w.contains("hsr"@)
                    ||| lane == 10 && w.contains("hsr-a"@)
                    ||| lane == 11 && w.contains("hsr-b"@)
                },
                Redundancy::Prp(lane) => {
                    ||| w.contains("prp"@)
                    ||| lane == 10 && w.contains("prp-a"@)
                    ||| lane == 11 && w.contains("prp-b"@)
                },
            }
        }),
{
    let w = f.redundancy->0;
    let t = filter::tokens_of(frame.redundancy);
    if w.contains(t[0]) {
        assert(filter::redundancy_wanted(f.redundancy, frame.redundancy));
    }
    if t.len() > 1 && w.contains(t[1]) {
        assert(filter::redundancy_wanted(f.redundancy, frame.redundancy));
    }
}

/// Raw frames are judged by what they are, with their identifier in upper case.
pub proof fn law_raw_frames_are_judged_by_what_they_are(f: filter::FrameFilterView, d: Seq<u8>)
    ensures
        ({
            let frame = classify::classified(d);
            load::passes(f, d) <==> match frame.app.svid {
                Some(id) => filter::accepts(f, frame, Some(text::ascii_upper(id))),
                None => filter::accepts(f, frame, None),
            }
        }),
{
    reveal(load::passes);
}

// ---- The flags --------------------------------------------------------------------------------

/// VLAN ids are the decimal numbers up to 4095.
pub proof fn law_vlan_ids_are_decimals(n: nat)
    ensures
        filter::vlan_item(text::dec(n)) == (if n <= 4095 {
            Some(n)
        } else {
            None
        }),
{
    text_laws::law_decimals_read_back(n, 4095);
}

/// AppIDs are the hexadecimal numbers of sixteen bits, with or without `0x` or
/// `0X` in front.
pub proof fn law_appids_are_hexadecimals(n: nat)
    ensures
        ({
            let read = if n <= 0xFFFF {
                Some(n)
            } else {
                None
            };
            &&& filter::appid_item(text::numeral(n, 16)) == read
            &&& filter::appid_item(seq!['0', 'x'] + text::numeral(n, 16)) == read
            &&& filter::appid_item(seq!['0', 'X'] + text::numeral(n, 16)) == read
        }),
{
    let h = text::numeral(n, 16);
    text_laws::law_hexadecimals_read_back(n, 0xFFFF);
    lemma_numeral_has_no_prefix(n);
    let a = seq!['0', 'x'] + h;
    let b = seq!['0', 'X'] + h;
    assert(a.skip(2) =~= h);
    assert(b.skip(2) =~= h);
}

/// A hexadecimal number has no `x` in it.
proof fn lemma_numeral_has_no_prefix(n: nat)
    ensures
        forall|i: int|
            0 <= i < text::numeral(n, 16).len() ==> (#[trigger] text::numeral(n, 16)[i]) != 'x'
                && text::numeral(n, 16)[i] != 'X',
    decreases n,
{
    let s = text::numeral(n, 16);
    if n < 16 {
        lemma_digit_is_no_x(n);
    } else {
        let q = (n / 16) as nat;
        let r = (n % 16) as nat;
        lemma_numeral_has_no_prefix(q);
        lemma_digit_is_no_x(r);
        assert forall|i: int| 0 <= i < s.len() implies (#[trigger] s[i]) != 'x' && s[i]
            != 'X' by {
            if i < s.len() - 1 {
                assert(s[i] == text::numeral(q, 16)[i]);
            }
        }
    }
}

proof fn lemma_digit_is_no_x(d: nat)
    requires
        d < 16,
    ensures
        text::digit(d) != 'x',
        text::digit(d) != 'X',
{
    text_laws::law_hexadecimals_are_digits(0, d);
    assert(text::numeral(d, 16)[0] == text::digit(d));
    assert('x' as int == 120 && 'X' as int == 88);
}

/// A flag asks for every number in its list: one more item adds its number.
pub proof fn law_flags_ask_for_every_item(
    s: Seq<char>,
    item: Seq<char>,
    before: nat,
    after: nat,
    n: u16,
)
    requires
        text_laws::is_item(item),
    ensures
        ({
            let more = text::list_items(s + seq![','] + text_laws::spaced(item, before, after));
            let items = text::list_items(s);
            &&& filter::vlan_item(item) == Some(n as nat) ==> filter::numbers_in(
                more,
                filter::vlan_reader(),
            ) == filter::numbers_in(items, filter::vlan_reader()).insert(n)
            &&& filter::appid_item(item) == Some(n as nat) ==> filter::numbers_in(
                more,
                filter::appid_reader(),
            ) == filter::numbers_in(items, filter::appid_reader()).insert(n)
        }),
{
    text_laws::law_one_more_item(s, item, before, after);
    let items = text::list_items(s);
    lemma_one_more_number(items, item, filter::vlan_reader(), n);
    lemma_one_more_number(items, item, filter::appid_reader(), n);
}

proof fn lemma_one_more_number(
    items: Seq<Seq<char>>,
    item: Seq<char>,
    read: spec_fn(Seq<char>) -> Option<nat>,
    n: u16,
)
    ensures
        read(item) == Some(n as nat) ==> filter::numbers_in(items.push(item), read)
            == filter::numbers_in(items, read).insert(n),
{
    if read(item) == Some(n as nat) {
        let more = items.push(item);
        let a = filter::numbers_in(more, read);
        let b = filter::numbers_in(items, read).insert(n);
        assert forall|v: u16| a.contains(v) <==> b.contains(v) by {
            assert(more[items.len() as int] == item);
            if a.contains(v) {
                let i = choose|i: int|
                    0 <= i < more.len() && read(#[trigger] more[i]) == Some(v as nat);
                if i < items.len() {
                    assert(items[i] == more[i]);
                }
            }
            if filter::numbers_in(items, read).contains(v) {
                let i = choose|i: int|
                    0 <= i < items.len() && read(#[trigger] items[i]) == Some(v as nat);
                assert(more[i] == items[i]);
            }
        }
        assert(a =~= b);
    }
}

/// The redundancy tokens are `none`, `hsr`, `hsr-a`, `hsr-b`, `prp`, `prp-a` and
/// `prp-b`.
pub proof fn law_there_are_seven_tokens(s: Seq<char>)
    ensures
        filter::is_token(s) <==> {
            ||| s == "none"@
            ||| s == "hsr"@
            ||| s == "hsr-a"@
            ||| s == "hsr-b"@
            ||| s == "prp"@
            ||| s == "prp-a"@
            ||| s == "prp-b"@
        },
{
    let t = filter::REDUNDANCY_TOKENS@;
    assert(t.len() == 7);
    assert(forall|i: int| 0 <= i < 7 && #[trigger] t[i]@ == s ==> filter::is_token(s));
    assert(t[0]@ == "hsr"@ && t[1]@ == "prp"@ && t[2]@ == "none"@ && t[3]@ == "hsr-a"@ && t[4]@
        == "hsr-b"@ && t[5]@ == "prp-a"@ && t[6]@ == "prp-b"@);
}

/// Any number of `0x` in front of an AppID do not count.
pub proof fn law_prefixes_are_stripped(s: Seq<char>, x: char)
    ensures
        filter::unprefixed(seq!['0', x] + s, x) == filter::unprefixed(s, x),
        s.len() < 2 || s[0] != '0' || s[1] != x ==> filter::unprefixed(s, x) == s,
{
    assert((seq!['0', x] + s).skip(2) =~= s);
}

/// A list is accepted if every item is, and refused for the first that is not.
pub proof fn law_lists_are_refused_for_their_first_bad_item(
    items: Seq<Seq<char>>,
    item: Seq<char>,
    valid: spec_fn(Seq<char>) -> bool,
    i: int,
)
    ensures
        filter::none_refused(Seq::empty(), valid),
        filter::none_refused(items.push(item), valid) <==> filter::none_refused(items, valid)
            && valid(item),
        filter::first_refused(items.push(item), valid, items.len() as int)
            <==> filter::none_refused(items, valid) && !valid(item),
        i < items.len() ==> (filter::first_refused(items.push(item), valid, i)
            <==> filter::first_refused(items, valid, i)),
{
    let more = items.push(item);
    assert(more[items.len() as int] == item);
    assert forall|j: int| 0 <= j < items.len() implies #[trigger] more[j] == items[j] by {}
    if filter::none_refused(more, valid) {
        assert forall|j: int| 0 <= j < items.len() implies valid(#[trigger] items[j]) by {
            assert(valid(more[j]));
        }
        assert(valid(more[items.len() as int]));
    }
    if filter::first_refused(more, valid, items.len() as int) {
        assert forall|j: int| 0 <= j < items.len() implies valid(#[trigger] items[j]) by {
            assert(valid(more[j]));
        }
    }
    if filter::first_refused(more, valid, i) && i < items.len() {
        assert forall|j: int| 0 <= j < i implies valid(#[trigger] items[j]) by {
            assert(valid(more[j]));
        }
    }
}

/// VLAN ids and AppIDs are accepted as such; tokens in any letter case; and
/// identifiers are asked for in upper case, tokens in lower case.
pub proof fn law_flags_take_their_items(item: Seq<char>, items: Seq<Seq<char>>, i: int)
    requires
        0 <= i < items.len(),
    ensures
        filter::vlan_ok()(item) <==> filter::vlan_item(item) is Some,
        filter::vlan_reader()(item) == filter::vlan_item(item),
        filter::appid_ok()(item) <==> filter::appid_item(item) is Some,
        filter::appid_reader()(item) == filter::appid_item(item),
        filter::token_ok()(item) <==> filter::is_token(text::lowercase(item)),
        filter::ascii_token_ok()(item) <==> filter::is_token(text::ascii_lower(item)),
        filter::changed(items, filter::to_ascii_upper()).len() == items.len(),
        filter::changed(items, filter::to_ascii_upper())[i] == text::ascii_upper(items[i]),
        filter::changed(items, filter::to_upper())[i] == text::uppercase(items[i]),
        filter::changed(items, filter::to_ascii_lower()).len() == items.len(),
        filter::changed(items, filter::to_ascii_lower())[i] == text::ascii_lower(items[i]),
        filter::changed(items, filter::to_lower())[i] == text::lowercase(items[i]),
{
}

/// What is wrong with an item is said of it.
pub proof fn law_complaints_name_the_item(s: Seq<char>)
    ensures
        filter::vlan_error(s) == "invalid VLAN id '"@ + s + "' (expected 0-4095)"@,
        filter::appid_error(s) == "invalid AppID '"@ + s + "' (expected hex, e.g. 0x4041)"@,
        exists|tokens: Seq<char>|
            filter::redundancy_error(s) == "invalid redundancy value '"@ + s
                + "' (expected one of: "@ + #[trigger] (tokens + ")"@),
{
    let tokens = text::joined(filter::token_list(), ", "@);
    let front = "invalid redundancy value '"@ + s + "' (expected one of: "@;
    assert(front + tokens + ")"@ =~= front + (tokens + ")"@));
}

/// A filter on identifiers compares them in capitals, and lets no frame without an
/// identifier through.
pub proof fn law_identifiers_are_compared_in_capitals(
    f: filter::FrameFilterView,
    frame: parse::FrameView,
)
    requires
        f.svids is Some,
        f.vlans is None,
        f.redundancy is None,
        f.appids is None,
    ensures
        filter::accepts(f, frame, filter::upper_id(frame.app.svid)) <==> frame.app.svid is Some
            && f.svids->0.contains(text::uppercase(frame.app.svid->0)),
        filter::accepts(f, frame, filter::ascii_upper_id(frame.app.svid)) <==> frame.app.svid is Some
            && f.svids->0.contains(text::ascii_upper(frame.app.svid->0)),
{
}

/// A filter is taken for the sets that it holds, and a set that it does not hold
/// asks for nothing.
pub proof fn law_a_filter_is_taken_for_its_sets(f: filter::FrameFilter)
    ensures
        f@.vlans is Some <==> f.vlans is Some,
        f.vlans is Some ==> f@.vlans->0 == f.vlans->0@,
        f@.redundancy is Some <==> f.redundancy is Some,
        f.redundancy is Some ==> f@.redundancy->0 == f.redundancy->0@,
        f@.appids is Some <==> f.appids is Some,
        f.appids is Some ==> f@.appids->0 == f.appids->0@,
        f@.svids is Some <==> f.svids is Some,
        f.svids is Some ==> f@.svids->0 == f.svids->0@,
{
}

} // verus!
