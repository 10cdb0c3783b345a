//! Frame classification: raw Ethernet bytes in, protocol and framing metadata
//! out.
//!
//! The module holds the metadata types; [`crate::classify`] holds the reading
//! of the bytes themselves.
pub use crate::classify::parse_frame;
use crate::text;
use crate::text::{decimal, hex_u16, join_strings, push_numeral, same_str};
use vstd::prelude::*;
use vstd::slice::slice_subrange;

verus! {

broadcast use text::lemma_texts_push;

/// Maximum stacked VLAN tags recorded per frame. Two covers 802.1ad QinQ;
/// the extra headroom means unusual stacks are still counted rather than
/// silently truncated into a different-looking row.
pub const MAX_VLAN_TAGS: usize = 4;

/// Placeholder rendered for any column a frame has no value for.
pub const NONE_STR: &'static str = "-";

// ---- VLAN tags --------------------------------------------------------------

/// The stacked 802.1Q/802.1ad tags found on a frame, outermost first.
///
/// Fixed-size and `Copy` so it can sit in a statistics key without allocating
/// per frame. Unused slots are always zero, so two stacks with the same tags
/// are the same value.
#[derive(Clone, Copy, PartialEq, Eq, Hash, Debug)]
pub struct VlanTags {
    len: u8,
    ids: [u16; 4],
    pcps: [u8; 4],
}

/// The VLAN identifiers of a tag stack.
pub open spec fn tag_ids(tags: Seq<(u16, u8)>) -> Seq<u16> {
    Seq::new(tags.len(), |i: int| tags[i].0)
}

/// The class-of-service values of a tag stack.
pub open spec fn tag_pcps(tags: Seq<(u16, u8)>) -> Seq<u8> {
    Seq::new(tags.len(), |i: int| tags[i].1)
}

/// The tags that a stack of at most [`MAX_VLAN_TAGS`] keeps.
pub open spec fn kept_tags(tags: Seq<(u16, u8)>) -> Seq<(u16, u8)> {
    if tags.len() <= MAX_VLAN_TAGS {
        tags
    } else {
        tags.take(MAX_VLAN_TAGS as int)
    }
}

/// The items separated by commas, or a dash when there are none.
pub open spec fn list_or_dash(items: Seq<Seq<char>>) -> Seq<char> {
    if items.len() == 0 {
        NONE_STR@
    } else {
        text::joined(items, ", "@)
    }
}

/// The VLAN column of a tag stack.
pub open spec fn vlan_text(tags: Seq<(u16, u8)>) -> Seq<char> {
    list_or_dash(Seq::new(tags.len(), |i: int| text::dec(tags[i].0 as nat)))
}

/// The CoS column of a tag stack.
pub open spec fn cos_text(tags: Seq<(u16, u8)>) -> Seq<char> {
    list_or_dash(Seq::new(tags.len(), |i: int| text::dec(tags[i].1 as nat)))
}

impl View for VlanTags {
    type V = Seq<(u16, u8)>;

    closed spec fn view(&self) -> Seq<(u16, u8)> {
        Seq::new(self.len as nat, |i: int| (self.ids@[i], self.pcps@[i]))
    }
}

impl Default for VlanTags {
    fn default() -> (r: VlanTags)
        ensures
            r@ == Seq::<(u16, u8)>::empty(),
    {
        let r = VlanTags { len: 0, ids: [0, 0, 0, 0], pcps: [0, 0, 0, 0] };
        assert(r@ =~= Seq::<(u16, u8)>::empty());
        r
    }
}

impl VlanTags {
    #[verifier::type_invariant]
    closed spec fn inv(self) -> bool {
        &&& self.len <= MAX_VLAN_TAGS
        &&& forall|i: int| self.len <= i < MAX_VLAN_TAGS ==> self.ids@[i] == 0 && self.pcps@[i] == 0
    }

    /// Append a tag. Tags past [`MAX_VLAN_TAGS`] are dropped.
    pub fn push(&mut self, id: u16, pcp: u8)
        ensures
            final(self)@ == (if old(self)@.len() < MAX_VLAN_TAGS {
                old(self)@.push((id, pcp))
            } else {
                old(self)@
            }),
    {
        proof {
            use_type_invariant(&*self);
        }
        let i: usize = self.len as usize;
        if i < MAX_VLAN_TAGS {
            let mut ids: [u16; 4] = self.ids;
            let mut pcps: [u8; 4] = self.pcps;
            ids[i] = id;
            pcps[i] = pcp;
            *self = VlanTags { len: self.len + 1, ids, pcps };
            assert(self@ =~= old(self)@.push((id, pcp)));
        }
    }

    /// Build a tag stack directly, outermost first.
    pub fn from_tags(tags: &[(u16, u8)]) -> (r: VlanTags)
        ensures
            r@ == kept_tags(tags@),
    {
        let mut v: VlanTags = VlanTags::default();
        let mut i: usize = 0;
        while i < tags.len()
            invariant
                i <= tags@.len(),
                v@ == kept_tags(tags@.take(i as int)),
            decreases tags@.len() - i,
        {
            let (id, pcp) = tags[i];
            v.push(id, pcp);
            assert(v@ =~= kept_tags(tags@.take(i + 1)));
            i += 1;
        }
        assert(tags@.take(i as int) =~= tags@);
        v
    }

    pub fn is_empty(&self) -> (r: bool)
        ensures
            r == (self@.len() == 0),
    {
        self.len == 0
    }

    /// VLAN IDs, outermost first.
    pub fn ids(&self) -> (r: &[u16])
        ensures
            r@ == tag_ids(self@),
    {
        proof {
            use_type_invariant(&*self);
        }
        let r: &[u16] = slice_subrange(self.ids.as_slice(), 0, self.len as usize);
        assert(r@ =~= tag_ids(self@));
        r
    }

    /// 802.1Q PCP (class of service) values, outermost first.
    pub fn pcps(&self) -> (r: &[u8])
        ensures
            r@ == tag_pcps(self@),
    {
        proof {
            use_type_invariant(&*self);
        }
        let r: &[u8] = slice_subrange(self.pcps.as_slice(), 0, self.len as usize);
        assert(r@ =~= tag_pcps(self@));
        r
    }

    /// Comma-joined VLAN IDs for the VLAN column, or `-`.
    pub fn vlan_label(&self) -> (r: String)
        ensures
            r@ == vlan_text(self@),
    {
        let ids: &[u16] = self.ids();
        let ghost wanted = Seq::new(self@.len(), |i: int| text::dec(self@[i].0 as nat));
        let mut items: Vec<String> = Vec::new();
        let mut i: usize = 0;
        while i < ids.len()
            invariant
                i <= ids@.len(),
                ids@ == tag_ids(self@),
                wanted == Seq::new(self@.len(), |i: int| text::dec(self@[i].0 as nat)),
                text::texts(items@) == wanted.take(i as int),
            decreases ids@.len() - i,
        {
            items.push(decimal(ids[i] as u64));
            assert(wanted.take(i + 1) =~= wanted.take(i as int).push(wanted[i as int]));
            i += 1;
        }
        assert(text::texts(items@) =~= wanted);
        join_or_dash(&items)
    }

    /// Comma-joined PCP values for the CoS column, or `-`.
    pub fn cos_label(&self) -> (r: String)
        ensures
            r@ == cos_text(self@),
    {
        let pcps: &[u8] = self.pcps();
        let ghost wanted = Seq::new(self@.len(), |i: int| text::dec(self@[i].1 as nat));
        let mut items: Vec<String> = Vec::new();
        let mut i: usize = 0;
        while i < pcps.len()
            invariant
                i <= pcps@.len(),
                pcps@ == tag_pcps(self@),
                wanted == Seq::new(self@.len(), |i: int| text::dec(self@[i].1 as nat)),
                text::texts(items@) == wanted.take(i as int),
            decreases pcps@.len() - i,
        {
            items.push(decimal(pcps[i] as u64));
            assert(wanted.take(i + 1) =~= wanted.take(i as int).push(wanted[i as int]));
            i += 1;
        }
        assert(text::texts(items@) =~= wanted);
        join_or_dash(&items)
    }

    /// Whether two stacks hold the same tags.
    pub fn same(&self, other: &VlanTags) -> (r: bool)
        ensures
            r == (self@ == other@),
    {
        proof {
            use_type_invariant(self);
            use_type_invariant(other);
        }
        if self.len != other.len {
            assert(self@.len() != other@.len());
            return false;
        }
        let n: usize = self.len as usize;
        let mut i: usize = 0;
        while i < n
            invariant
                i <= n == self.len == other.len <= MAX_VLAN_TAGS,
                forall|j: int| 0 <= j < i ==> self@[j] == other@[j],
            decreases n - i,
        {
            if self.ids[i] != other.ids[i] || self.pcps[i] != other.pcps[i] {
                assert(self@[i as int] != other@[i as int]);
                return false;
            }
            i += 1;
        }
        assert(self@ =~= other@);
        true
    }
}

fn join_or_dash(items: &Vec<String>) -> (r: String)
    ensures
        r@ == list_or_dash(text::texts(items@)),
{
    if items.len() == 0 {
        return NONE_STR.to_owned();
    }
    join_strings(items, ", ")
}

// ---- Redundancy ---------------------------------------------------------------

/// IEC 62439-3 redundancy scheme and lane.
#[derive(Clone, Copy, PartialEq, Eq, Structural, Hash, Debug)]
pub enum Redundancy {
    /// Neither an HSR tag nor a PRP trailer.
    Absent,
    /// HSR, carrying the 4-bit Path field.
    Hsr(u8),
    /// PRP, carrying the 4-bit LanId field.
    Prp(u8),
}

impl Default for Redundancy {
    fn default() -> (r: Redundancy)
        ensures
            r == Redundancy::Absent,
    {
        Redundancy::Absent
    }
}

/// Lane letter for the conventional 0xA/0xB values, else the raw nibble.
pub open spec fn lane_text(nibble: u8) -> Seq<char> {
    if nibble == 0xA {
        "A"@
    } else if nibble == 0xB {
        "B"@
    } else {
        "0x"@ + text::numeral(nibble as nat, 16)
    }
}

/// The Redundancy column of a frame.
pub open spec fn redundancy_text(r: Redundancy) -> Seq<char> {
    match r {
        Redundancy::Absent => NONE_STR@,
        Redundancy::Hsr(p) => "HSR-"@ + lane_text(p),
        Redundancy::Prp(l) => "PRP-"@ + lane_text(l),
    }
}

impl Redundancy {
    fn lane(nibble: u8) -> (r: String)
        ensures
            r@ == lane_text(nibble),
    {
        if nibble == 0xA {
            "A".to_owned()
        } else if nibble == 0xB {
            "B".to_owned()
        } else {
            let mut out: String = "0x".to_owned();
            push_numeral(&mut out, nibble as u64, 16);
            out
        }
    }

    /// The text of the Redundancy column.
    pub fn to_string(&self) -> (r: String)
        ensures
            r@ == redundancy_text(*self),
    {
        match *self {
            Redundancy::Absent => NONE_STR.to_owned(),
            Redundancy::Hsr(p) => {
                let mut out: String = "HSR-".to_owned();
                out.append(Redundancy::lane(p).as_str());
                out
            },
            Redundancy::Prp(l) => {
                let mut out: String = "PRP-".to_owned();
                out.append(Redundancy::lane(l).as_str());
                out
            },
        }
    }
}

// ---- Protocols ------------------------------------------------------------------

/// Every protocol the classifier can name.
///
/// Only the [`Protocol::is_featured`] variants can ever get their own detail
/// row; the rest exist so classification stays precise internally even though
/// they all render as `Other`.
#[derive(Clone, Copy, PartialEq, Eq, Structural, Hash, Debug, PartialOrd, Ord)]
pub enum Protocol {
    Goose,
    SampledValues,
    RGoose,
    Ptp,
    Mms,
    Dnp3,
    Iec104,
    ModbusTcp,
    // --- never broken out; always folded into "Other" ---
    RSv,
    Gsse,
    Ntp,
    Lldp,
    Rstp,
    Arp,
    Ipv4,
    Ipv6,
    Other,
}

/// Protocols eligible for a detail row, in fixed display order.
pub const PROTO_ORDER: [Protocol; 8] = [
    Protocol::Goose,
    Protocol::SampledValues,
    Protocol::RGoose,
    Protocol::Ptp,
    Protocol::Mms,
    Protocol::Dnp3,
    Protocol::Iec104,
    Protocol::ModbusTcp,
];

/// The displayed name of a protocol.
pub open spec fn protocol_name(p: Protocol) -> Seq<char> {
    match p {
        Protocol::Goose => "GOOSE"@,
        Protocol::SampledValues => "Sampled Values"@,
        Protocol::RGoose => "R-GOOSE"@,
        Protocol::Ptp => "PTP"@,
        Protocol::Mms => "MMS"@,
        Protocol::Dnp3 => "DNP3"@,
        Protocol::Iec104 => "IEC104"@,
        Protocol::ModbusTcp => "Modbus TCP"@,
        Protocol::RSv => "R-SV"@,
        Protocol::Gsse => "GSSE"@,
        Protocol::Ntp => "NTP"@,
        Protocol::Lldp => "LLDP"@,
        Protocol::Rstp => "RSTP"@,
        Protocol::Arp => "ARP"@,
        Protocol::Ipv4 => "IPv4"@,
        Protocol::Ipv6 => "IPv6"@,
        Protocol::Other => "Other"@,
    }
}

/// Whether a protocol can be broken out of `Other` into its own rows.
pub open spec fn featured(p: Protocol) -> bool {
    PROTO_ORDER@.contains(p)
}

/// The flag that enables a protocol's detail.
pub open spec fn protocol_flag(p: Protocol) -> Option<Seq<char>> {
    match p {
        Protocol::Goose => Some("goose"@),
        Protocol::SampledValues => Some("sv"@),
        Protocol::RGoose => Some("rgoose"@),
        Protocol::Ptp => Some("ptp"@),
        Protocol::Mms => Some("mms"@),
        Protocol::Dnp3 => Some("dnp3"@),
        Protocol::Iec104 => Some("iec104"@),
        Protocol::ModbusTcp => Some("modbus"@),
        _ => None,
    }
}

impl Protocol {
    pub fn name(&self) -> (r: &'static str)
        ensures
            r@ == protocol_name(*self),
    {
        match *self {
            Protocol::Goose => "GOOSE",
            Protocol::SampledValues => "Sampled Values",
            Protocol::RGoose => "R-GOOSE",
            Protocol::Ptp => "PTP",
            Protocol::Mms => "MMS",
            Protocol::Dnp3 => "DNP3",
            Protocol::Iec104 => "IEC104",
            Protocol::ModbusTcp => "Modbus TCP",
            Protocol::RSv => "R-SV",
            Protocol::Gsse => "GSSE",
            Protocol::Ntp => "NTP",
            Protocol::Lldp => "LLDP",
            Protocol::Rstp => "RSTP",
            Protocol::Arp => "ARP",
            Protocol::Ipv4 => "IPv4",
            Protocol::Ipv6 => "IPv6",
            Protocol::Other => "Other",
        }
    }

    /// Whether this protocol can be broken out of `Other` into its own rows.
    pub fn is_featured(&self) -> (r: bool)
        ensures
            r == featured(*self),
    {
        let mut i: usize = 0;
        while i < PROTO_ORDER.len()
            invariant
                i <= PROTO_ORDER@.len(),
                forall|j: int| 0 <= j < i ==> PROTO_ORDER@[j] != *self,
            decreases PROTO_ORDER@.len() - i,
        {
            if PROTO_ORDER[i] == *self {
                return true;
            }
            i += 1;
        }
        false
    }

    /// The CLI flag / GUI checkbox name that enables this protocol's detail.
    pub fn flag(&self) -> (r: Option<&'static str>)
        ensures
            match r {
                Some(s) => protocol_flag(*self) == Some(s@),
                None => protocol_flag(*self) is None,
            },
    {
        match *self {
            Protocol::Goose => Some("goose"),
            Protocol::SampledValues => Some("sv"),
            Protocol::RGoose => Some("rgoose"),
            Protocol::Ptp => Some("ptp"),
            Protocol::Mms => Some("mms"),
            Protocol::Dnp3 => Some("dnp3"),
            Protocol::Iec104 => Some("iec104"),
            Protocol::ModbusTcp => Some("modbus"),
            _ => None,
        }
    }

    /// Resolve a flag name (as accepted on the CLI) back to a protocol.
    pub fn from_flag(s: &str) -> (r: Option<Protocol>)
        ensures
            match r {
                Some(p) => featured(p) && protocol_flag(p) == Some(s@),
                None => forall|p: Protocol| #[trigger] protocol_flag(p) != Some(s@),
            },
    {
        let mut i: usize = 0;
        while i < PROTO_ORDER.len()
            invariant
                i <= PROTO_ORDER@.len(),
                forall|j: int|
                    0 <= j < i ==> #[trigger] protocol_flag(PROTO_ORDER@[j]) != Some(s@),
            decreases PROTO_ORDER@.len() - i,
        {
            if let Some(f) = PROTO_ORDER[i].flag() {
                if same_str(f, s) {
                    return Some(PROTO_ORDER[i]);
                }
            }
            i += 1;
        }
        proof {
            assert forall|p: Protocol| #[trigger] protocol_flag(p) != Some(s@) by {
                if protocol_flag(p) is Some {
                    law_featured_protocols_have_a_flag(p);
                    let j = PROTO_ORDER@.index_of(p);
                    assert(protocol_flag(PROTO_ORDER@[j]) != Some(s@));
                }
            }
        }
        None
    }
}

/// Exactly the protocols in the display order have a flag.
pub proof fn law_featured_protocols_have_a_flag(p: Protocol)
    ensures
        featured(p) <==> protocol_flag(p) is Some,
{
    let order = PROTO_ORDER@;
    assert(order[0] == Protocol::Goose && order[1] == Protocol::SampledValues && order[2]
        == Protocol::RGoose && order[3] == Protocol::Ptp && order[4] == Protocol::Mms && order[5]
        == Protocol::Dnp3 && order[6] == Protocol::Iec104 && order[7] == Protocol::ModbusTcp);
}

/// No two protocols share a flag, so a flag names its protocol.
pub proof fn law_flag_names_one_protocol(p: Protocol, q: Protocol)
    requires
        protocol_flag(p) is Some,
        protocol_flag(p) == protocol_flag(q),
    ensures
        p == q,
{
    reveal_strlit("goose");
    reveal_strlit("sv");
    reveal_strlit("rgoose");
    reveal_strlit("ptp");
    reveal_strlit("mms");
    reveal_strlit("dnp3");
    reveal_strlit("iec104");
    reveal_strlit("modbus");
    let f = protocol_flag(p)->0;
    let g = protocol_flag(q)->0;
    assert(f.len() == g.len() && f[0] == g[0] && f[1] == g[1]);
}

// ---- Application headers --------------------------------------------------------

/// Application-layer header fields, populated only for GOOSE / SV / R-GOOSE.
///
/// `svid` doubles as the SVID (Sampled Values) or goID/gocbRef (GOOSE), and
/// `noasdu` as noASDU (SV) or stNum (GOOSE): a frame is only ever one of the
/// two, so they share a column.
#[derive(PartialEq, Eq, Hash, Debug)]
pub struct AppInfo {
    pub appid: Option<u16>,
    pub svid: Option<String>,
    pub noasdu: Option<u64>,
    pub confrev: Option<u64>,
    pub sim: Option<bool>,
}

/// The content of an [`AppInfo`].
#[verifier::ext_equal]
pub ghost struct AppInfoView {
    pub appid: Option<u16>,
    pub svid: Option<Seq<char>>,
    pub noasdu: Option<u64>,
    pub confrev: Option<u64>,
    pub sim: Option<bool>,
}

/// The character sequence of an optional string.
pub open spec fn opt_text(s: Option<String>) -> Option<Seq<char>> {
    match s {
        Some(s) => Some(s@),
        None => None,
    }
}

/// Nothing decoded.
pub open spec fn no_app() -> AppInfoView {
    AppInfoView { appid: None, svid: None, noasdu: None, confrev: None, sim: None }
}

/// The AppID column.
pub open spec fn appid_text(v: Option<u16>) -> Seq<char> {
    match v {
        Some(v) => text::hex4(v),
        None => NONE_STR@,
    }
}

/// The SVID/GOID column: an empty identifier reads as none.
pub open spec fn svid_text(v: Option<Seq<char>>) -> Seq<char> {
    match v {
        Some(s) => if s.len() > 0 {
            s
        } else {
            NONE_STR@
        },
        None => NONE_STR@,
    }
}

/// A numeric column.
pub open spec fn number_text(v: Option<u64>) -> Seq<char> {
    match v {
        Some(n) => text::dec(n as nat),
        None => NONE_STR@,
    }
}

/// The Sim column.
pub open spec fn sim_text(v: Option<bool>) -> Seq<char> {
    match v {
        Some(b) => if b {
            "yes"@
        } else {
            "no"@
        },
        None => NONE_STR@,
    }
}

impl View for AppInfo {
    type V = AppInfoView;

    open spec fn view(&self) -> AppInfoView {
        AppInfoView {
            appid: self.appid,
            svid: opt_text(self.svid),
            noasdu: self.noasdu,
            confrev: self.confrev,
            sim: self.sim,
        }
    }
}

impl Default for AppInfo {
    fn default() -> (r: AppInfo)
        ensures
            r@ == no_app(),
    {
        AppInfo { appid: None, svid: None, noasdu: None, confrev: None, sim: None }
    }
}

impl Clone for AppInfo {
    fn clone(&self) -> (r: AppInfo)
        ensures
            r@ == self@,
    {
        let svid: Option<String> = match &self.svid {
            Some(s) => Some(s.clone()),
            None => None,
        };
        AppInfo {
            appid: self.appid,
            svid,
            noasdu: self.noasdu,
            confrev: self.confrev,
            sim: self.sim,
        }
    }
}

impl AppInfo {
    pub fn appid_label(&self) -> (r: String)
        ensures
            r@ == appid_text(self.appid),
    {
        match self.appid {
            Some(v) => hex_u16(v),
            None => NONE_STR.to_owned(),
        }
    }

    pub fn svid_label(&self) -> (r: String)
        ensures
            r@ == svid_text(self@.svid),
    {
        match &self.svid {
            Some(s) => if s.as_str().is_empty() {
                NONE_STR.to_owned()
            } else {
                s.clone()
            },
            None => NONE_STR.to_owned(),
        }
    }

    pub fn noasdu_label(&self) -> (r: String)
        ensures
            r@ == number_text(self.noasdu),
    {
        opt_num(self.noasdu)
    }

    pub fn confrev_label(&self) -> (r: String)
        ensures
            r@ == number_text(self.confrev),
    {
        opt_num(self.confrev)
    }

    pub fn sim_label(&self) -> (r: String)
        ensures
            r@ == sim_text(self.sim),
    {
        match self.sim {
            Some(true) => "yes".to_owned(),
            Some(false) => "no".to_owned(),
            None => NONE_STR.to_owned(),
        }
    }

    pub fn is_sim(&self) -> (r: bool)
        ensures
            r == (self.sim == Some(true)),
    {
        match self.sim {
            Some(b) => b,
            None => false,
        }
    }

    /// Whether two headers hold the same fields.
    pub fn same(&self, other: &AppInfo) -> (r: bool)
        ensures
            r == (self@ == other@),
    {
        let svid_same: bool = match (&self.svid, &other.svid) {
            (Some(a), Some(b)) => *a == *b,
            (None, None) => true,
            _ => false,
        };
        svid_same && self.appid == other.appid && self.noasdu == other.noasdu && self.confrev
            == other.confrev && self.sim == other.sim
    }
}

fn opt_num(v: Option<u64>) -> (r: String)
    ensures
        r@ == number_text(v),
{
    match v {
        Some(n) => decimal(n),
        None => NONE_STR.to_owned(),
    }
}

// ---- Frames -----------------------------------------------------------------------

/// A fully classified frame.
#[derive(PartialEq, Eq, Hash, Debug)]
pub struct Frame {
    pub proto: Protocol,
    pub vlans: VlanTags,
    pub redundancy: Redundancy,
    pub app: AppInfo,
}

/// The content of a [`Frame`].
#[verifier::ext_equal]
pub ghost struct FrameView {
    pub proto: Protocol,
    pub vlans: Seq<(u16, u8)>,
    pub redundancy: Redundancy,
    pub app: AppInfoView,
}

impl View for Frame {
    type V = FrameView;

    open spec fn view(&self) -> FrameView {
        FrameView {
            proto: self.proto,
            vlans: self.vlans@,
            redundancy: self.redundancy,
            app: self.app@,
        }
    }
}

/// A frame of which nothing could be read.
pub open spec fn unread_frame() -> FrameView {
    FrameView {
        proto: Protocol::Other,
        vlans: Seq::empty(),
        redundancy: Redundancy::Absent,
        app: no_app(),
    }
}

impl Default for Frame {
    fn default() -> (r: Frame)
        ensures
            r@ == unread_frame(),
    {
        Frame {
            proto: Protocol::Other,
            vlans: VlanTags::default(),
            redundancy: Redundancy::Absent,
            app: AppInfo::default(),
        }
    }
}

impl Clone for Frame {
    fn clone(&self) -> (r: Frame)
        ensures
            r@ == self@,
    {
        Frame {
            proto: self.proto,
            vlans: self.vlans,
            redundancy: self.redundancy,
            app: self.app.clone(),
        }
    }
}

// ---- Sets of protocols --------------------------------------------------------------

/// A set of protocols.
#[derive(Clone, Copy, PartialEq, Eq, Debug)]
pub struct ProtocolSet {
    on: [bool; 17],
}

/// The position of a protocol among all protocols.
pub open spec fn protocol_index(p: Protocol) -> int {
    match p {
        Protocol::Goose => 0,
        Protocol::SampledValues => 1,
        Protocol::RGoose => 2,
        Protocol::Ptp => 3,
        Protocol::Mms => 4,
        Protocol::Dnp3 => 5,
        Protocol::Iec104 => 6,
        Protocol::ModbusTcp => 7,
        Protocol::RSv => 8,
        Protocol::Gsse => 9,
        Protocol::Ntp => 10,
        Protocol::Lldp => 11,
        Protocol::Rstp => 12,
        Protocol::Arp => 13,
        Protocol::Ipv4 => 14,
        Protocol::Ipv6 => 15,
        Protocol::Other => 16,
    }
}

impl View for ProtocolSet {
    type V = Set<Protocol>;

    closed spec fn view(&self) -> Set<Protocol> {
        Set::new(|p: Protocol| self.on@[protocol_index(p)])
    }
}

impl Default for ProtocolSet {
    fn default() -> (r: ProtocolSet)
        ensures
            r@ == Set::<Protocol>::empty(),
    {
        ProtocolSet::new()
    }
}

impl ProtocolSet {
    pub fn new() -> (r: ProtocolSet)
        ensures
            r@ == Set::<Protocol>::empty(),
    {
        let r = ProtocolSet {
            on: [
                false,
                false,
                false,
                false,
                false,
                false,
                false,
                false,
                false,
                false,
                false,
                false,
                false,
                false,
                false,
                false,
                false,
            ],
        };
        assert(r@ =~= Set::<Protocol>::empty());
        r
    }

    fn index(p: Protocol) -> (r: usize)
        ensures
            r == protocol_index(p),
            r < 17,
    {
        match p {
            Protocol::Goose => 0,
            Protocol::SampledValues => 1,
            Protocol::RGoose => 2,
            Protocol::Ptp => 3,
            Protocol::Mms => 4,
            Protocol::Dnp3 => 5,
            Protocol::Iec104 => 6,
            Protocol::ModbusTcp => 7,
            Protocol::RSv => 8,
            Protocol::Gsse => 9,
            Protocol::Ntp => 10,
            Protocol::Lldp => 11,
            Protocol::Rstp => 12,
            Protocol::Arp => 13,
            Protocol::Ipv4 => 14,
            Protocol::Ipv6 => 15,
            Protocol::Other => 16,
        }
    }

    pub fn contains(&self, p: Protocol) -> (r: bool)
        ensures
            r == self@.contains(p),
    {
        self.on[ProtocolSet::index(p)]
    }

    pub fn insert(&mut self, p: Protocol)
        ensures
            final(self)@ == old(self)@.insert(p),
    {
        let i: usize = ProtocolSet::index(p);
        self.on[i] = true;
        assert(self@ =~= old(self)@.insert(p));
    }

    pub fn remove(&mut self, p: Protocol)
        ensures
            final(self)@ == old(self)@.remove(p),
    {
        let i: usize = ProtocolSet::index(p);
        self.on[i] = false;
        assert(self@ =~= old(self)@.remove(p));
    }

    pub fn is_empty(&self) -> (r: bool)
        ensures
            r == (self@ == Set::<Protocol>::empty()),
    {
        let mut i: usize = 0;
        while i < 17
            invariant
                i <= 17,
                forall|j: int| 0 <= j < i ==> !self.on@[j],
            decreases 17 - i,
        {
            if self.on[i] {
                proof {
                    lemma_protocol_numbered(i as int);
                    let p = protocol_numbered(i as int);
                    assert(self@.contains(p));
                }
                return false;
            }
            i += 1;
        }
        assert(self@ =~= Set::<Protocol>::empty());
        true
    }

    /// The set of the given protocols.
    pub fn from_list(list: &[Protocol]) -> (r: ProtocolSet)
        ensures
            r@ == list@.to_set(),
    {
        let mut out: ProtocolSet = ProtocolSet::new();
        let mut i: usize = 0;
        assert(out@ =~= list@.take(0).to_set());
        while i < list.len()
            invariant
                i <= list@.len(),
                out@ == list@.take(i as int).to_set(),
            decreases list@.len() - i,
        {
            out.insert(list[i]);
            proof {
                let front = list@.take(i as int);
                let next = list@.take(i + 1);
                assert forall|p: Protocol| next.to_set().contains(p) <==> front.to_set().insert(
                    list@[i as int],
                ).contains(p) by {
                    assert(next[i as int] == list@[i as int]);
                    if front.contains(p) {
                        let k = front.index_of(p);
                        assert(next[k] == p);
                    }
                    if next.contains(p) && p != list@[i as int] {
                        let k = next.index_of(p);
                        assert(front[k] == p);
                    }
                }
                assert(out@ =~= next.to_set());
            }
            i += 1;
        }
        assert(list@.take(i as int) =~= list@);
        out
    }
}

/// Every position below the number of protocols is one's.
proof fn lemma_protocol_numbered(i: int)
    requires
        0 <= i < 17,
    ensures
        protocol_index(protocol_numbered(i)) == i,
{
    assert(protocol_index(Protocol::Goose) == 0);
    assert(protocol_index(Protocol::SampledValues) == 1);
    assert(protocol_index(Protocol::RGoose) == 2);
    assert(protocol_index(Protocol::Ptp) == 3);
    assert(protocol_index(Protocol::Mms) == 4);
    assert(protocol_index(Protocol::Dnp3) == 5);
    assert(protocol_index(Protocol::Iec104) == 6);
    assert(protocol_index(Protocol::ModbusTcp) == 7);
    assert(protocol_index(Protocol::RSv) == 8);
    assert(protocol_index(Protocol::Gsse) == 9);
    assert(protocol_index(Protocol::Ntp) == 10);
    assert(protocol_index(Protocol::Lldp) == 11);
    assert(protocol_index(Protocol::Rstp) == 12);
    assert(protocol_index(Protocol::Arp) == 13);
    assert(protocol_index(Protocol::Ipv4) == 14);
    assert(protocol_index(Protocol::Ipv6) == 15);
    assert(protocol_index(Protocol::Other) == 16);
}

/// The protocol at a position among all protocols.
spec fn protocol_numbered(i: int) -> Protocol {
    choose|p: Protocol| protocol_index(p) == i
}

} // verus!
