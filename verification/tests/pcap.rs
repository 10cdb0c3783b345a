//! Capture streams and capture files.
use nlm::filter::{parse_vlans, FrameFilter};
use nlm::load::{load_file, next_frame, size_on_wire, Loader};
use nlm::parse::Protocol;
use nlm::pcap::{
    is_capture_magic, ns_of_ticks, CaptureReader, CapturedFrame, Endian, PcapError, LINKTYPE_ETHERNET,
    PCAPNG_BYTE_ORDER, PCAPNG_EPB, PCAPNG_IDB, PCAPNG_PB, PCAPNG_SHB, PCAPNG_SPB, PCAP_MAGIC_BE_US,
    PCAP_MAGIC_LE_NS, PCAP_MAGIC_LE_US,
};

/// A minimal PTP-over-Ethernet frame.
fn ptp_frame() -> Vec<u8> {
    let mut v = vec![0xFFu8; 12];
    v.extend_from_slice(&[0x88, 0xF7]);
    v.extend_from_slice(&[0u8; 44]);
    v
}

fn build_pcap(frames: &[Vec<u8>], link_type: u32) -> Vec<u8> {
    let mut out = Vec::new();
    out.extend_from_slice(&PCAP_MAGIC_LE_US.to_le_bytes());
    out.extend_from_slice(&2u16.to_le_bytes());
    out.extend_from_slice(&4u16.to_le_bytes());
    out.extend_from_slice(&0i32.to_le_bytes());
    out.extend_from_slice(&0u32.to_le_bytes());
    out.extend_from_slice(&65535u32.to_le_bytes());
    out.extend_from_slice(&link_type.to_le_bytes());
    for (i, f) in frames.iter().enumerate() {
        out.extend_from_slice(&(100 + i as u32).to_le_bytes()); // ts_sec
        out.extend_from_slice(&0u32.to_le_bytes());
        out.extend_from_slice(&(f.len() as u32).to_le_bytes());
        out.extend_from_slice(&(f.len() as u32).to_le_bytes());
        out.extend_from_slice(f);
    }
    out
}

fn build_pcapng(frames: &[Vec<u8>]) -> Vec<u8> {
    let mut out = Vec::new();
    // Section Header Block.
    out.extend_from_slice(&PCAPNG_SHB.to_le_bytes());
    out.extend_from_slice(&28u32.to_le_bytes());
    out.extend_from_slice(&PCAPNG_BYTE_ORDER.to_le_bytes());
    out.extend_from_slice(&1u16.to_le_bytes()); // major
    out.extend_from_slice(&0u16.to_le_bytes()); // minor
    out.extend_from_slice(&(-1i64).to_le_bytes()); // section length
    out.extend_from_slice(&28u32.to_le_bytes());
    // Interface Description Block, Ethernet, default us resolution.
    out.extend_from_slice(&PCAPNG_IDB.to_le_bytes());
    out.extend_from_slice(&20u32.to_le_bytes());
    out.extend_from_slice(&1u16.to_le_bytes()); // link type
    out.extend_from_slice(&0u16.to_le_bytes());
    out.extend_from_slice(&65535u32.to_le_bytes());
    out.extend_from_slice(&20u32.to_le_bytes());
    // Enhanced Packet Blocks.
    for (i, f) in frames.iter().enumerate() {
        let pad = f.len().div_ceil(4) * 4;
        let total = 32 + pad as u32;
        out.extend_from_slice(&PCAPNG_EPB.to_le_bytes());
        out.extend_from_slice(&total.to_le_bytes());
        out.extend_from_slice(&0u32.to_le_bytes()); // interface id
        let ts = (100 + i as u64) * 1_000_000;
        out.extend_from_slice(&((ts >> 32) as u32).to_le_bytes());
        out.extend_from_slice(&(ts as u32).to_le_bytes());
        out.extend_from_slice(&(f.len() as u32).to_le_bytes());
        out.extend_from_slice(&(f.len() as u32).to_le_bytes());
        out.extend_from_slice(f);
        out.extend_from_slice(&vec![0u8; pad - f.len()]);
        out.extend_from_slice(&total.to_le_bytes());
    }
    out
}

/// A reader past the header of a stream, with the position behind it.
fn open(bytes: &[u8]) -> Result<(CaptureReader, usize), PcapError> {
    let r = CaptureReader::new(bytes)?;
    let at = r.position() as usize;
    Ok((r, at))
}

fn read_all(bytes: &[u8]) -> Vec<Vec<u8>> {
    let (mut r, mut at) = open(bytes).unwrap();
    let mut out = Vec::new();
    while let Some((f, next)) = next_frame(&mut r, bytes, at).unwrap() {
        out.push(f.data.to_vec());
        at = next;
    }
    out
}

#[test]
fn accepts_only_real_capture_magics() {
    assert!(is_capture_magic(&PCAP_MAGIC_LE_US.to_le_bytes()));
    assert!(is_capture_magic(&PCAP_MAGIC_LE_NS.to_le_bytes()));
    assert!(is_capture_magic(&PCAP_MAGIC_BE_US.to_le_bytes()));
    assert!(is_capture_magic(&PCAPNG_SHB.to_be_bytes()));
    // A gzip header is the case this check exists to reject.
    assert!(!is_capture_magic(&[0x1f, 0x8b, 0x08, 0x00]));
    assert!(!is_capture_magic(b"PK\x03\x04"));
    assert!(!is_capture_magic(&[0x00]));
}

#[test]
fn reads_classic_pcap() {
    let frames = vec![ptp_frame(), ptp_frame()];
    let got = read_all(&build_pcap(&frames, LINKTYPE_ETHERNET));
    assert_eq!(got, frames);
}

#[test]
fn reads_pcapng_with_enhanced_packet_blocks() {
    let frames = vec![ptp_frame(), ptp_frame(), ptp_frame()];
    let got = read_all(&build_pcapng(&frames));
    assert_eq!(got, frames);
}

#[test]
fn rejects_non_ethernet_captures() {
    // Linux cooked capture (link type 113) would misparse as Ethernet.
    let err = open(&build_pcap(&[ptp_frame()], 113));
    assert!(matches!(err.err(), Some(PcapError::UnsupportedLinkType(113))));
}

#[test]
fn rejects_non_capture_input() {
    let err = open(b"\x1f\x8b\x08\x00 gzip");
    assert!(matches!(err.err(), Some(PcapError::NotACapture)));
}

#[test]
fn truncated_streams_end_cleanly() {
    let full = build_pcap(&[ptp_frame(), ptp_frame()], LINKTYPE_ETHERNET);
    // Cutting anywhere past the header must stop, never error or hang.
    for n in 24..full.len() {
        let cut = &full[..n];
        let (mut r, mut at) = open(cut).unwrap();
        while let Some((_f, next)) = next_frame(&mut r, cut, at).unwrap() {
            at = next;
        }
    }
}

#[test]
fn load_file_counts_and_times_a_capture() {
    let frames = vec![ptp_frame(), ptp_frame(), ptp_frame()];
    let res = load_file(&build_pcapng(&frames), &FrameFilter::default()).unwrap();

    assert_eq!(res.packets, 3);
    assert_eq!(res.bytes, 3 * ptp_frame().len() as u64);
    // Timestamps one second apart across three packets.
    assert!((res.duration_ns as f64 / 1e9 - 2.0).abs() < 1e-6);
    let rows = res.stats.get(Protocol::Ptp).unwrap();
    assert_eq!(rows.entries().iter().map(|e| e.1.packets).sum::<u64>(), 3);
}

#[test]
fn load_file_refuses_a_disguised_non_capture() {
    let err = load_file(b"\x1f\x8b\x08\x00not really a capture", &FrameFilter::default());
    assert!(matches!(err.err(), Some(PcapError::NotACapture)));
}

#[test]
fn progress_comes_regularly_and_filters_count_nothing() {
    let frame = ptp_frame();
    let f = CapturedFrame { data: &frame, orig_len: 1500, ts_ns: 5 };
    let mut l = Loader::new();
    for i in 1..=4000u64 {
        assert!(l.has_room(&f));
        assert_eq!(l.observe(&f, &FrameFilter::default()), i % 2000 == 0);
    }
    // The length on the wire counts, not the captured one.
    assert_eq!(l.totals(), (4000, 6_000_000));
    let only = FrameFilter { vlans: Some(parse_vlans("1").unwrap()), ..Default::default() };
    l.observe(&f, &only);
    assert_eq!(l.totals(), (4000, 6_000_000));
    let r = l.finish();
    assert_eq!((r.packets, r.bytes, r.duration_ns), (4000, 6_000_000, 1_000_000));
    let short = CapturedFrame { data: &frame, orig_len: 3, ts_ns: 5 };
    assert_eq!(size_on_wire(&short), 58);
}

#[test]
fn errors_explain_themselves() {
    let cut = &build_pcap(&[], 1)[..20];
    let err = open(cut).err().unwrap();
    assert!(matches!(err, PcapError::Malformed("truncated pcap header")));
    assert_eq!(err.to_string(), "malformed capture file: truncated pcap header");
    assert!(PcapError::NotACapture.to_string().starts_with("not a pcap/pcapng file ("));
    assert!(PcapError::UnsupportedLinkType(113).to_string().contains("113"));

    let mut ng = build_pcapng(&[]);
    ng.truncate(11);
    assert!(matches!(
        open(&ng).err().unwrap(),
        PcapError::Malformed("truncated section header block")
    ));
    let mut ng = build_pcapng(&[]);
    ng[8] = 0;
    assert!(matches!(
        open(&ng).err().unwrap(),
        PcapError::Malformed("bad pcapng byte-order magic")
    ));
    let mut ng = build_pcapng(&[]);
    ng[4] = 11;
    assert!(matches!(
        open(&ng).err().unwrap(),
        PcapError::Malformed("implausible section header block length")
    ));
    let mut ng = build_pcapng(&[]);
    ng[32] = 8;
    let (mut r, at) = open(&ng).unwrap();
    assert!(matches!(
        next_frame(&mut r, &ng, at).err().unwrap(),
        PcapError::Malformed("implausible block length")
    ));
    let mut big = build_pcap(&[ptp_frame()], 1);
    big[24 + 8..24 + 12].copy_from_slice(&300_000u32.to_le_bytes());
    let (mut r, at) = open(&big).unwrap();
    assert!(matches!(
        next_frame(&mut r, &big, at).err().unwrap(),
        PcapError::Malformed("record length exceeds the maximum frame size")
    ));
}

#[test]
fn big_endian_captures_read_the_same() {
    let f = ptp_frame();
    let mut out = Vec::new();
    out.extend_from_slice(&PCAP_MAGIC_LE_NS.to_be_bytes());
    out.extend_from_slice(&[0u8; 16]);
    out.extend_from_slice(&1u32.to_be_bytes());
    for n in [7, 9, f.len() as u32, 1400] {
        out.extend_from_slice(&n.to_be_bytes());
    }
    out.extend_from_slice(&f);
    let (mut r, at) = open(&out).unwrap();
    let (got, end) = next_frame(&mut r, &out, at).unwrap().unwrap();
    assert_eq!((got.data, got.orig_len, got.ts_ns), (&f[..], 1400, 7_000_000_009));
    assert_eq!(end, out.len());
    assert_eq!(Endian::Big.u16(&[1, 2], 0), 0x0102);
    assert_eq!(Endian::Little.u32(&[1, 2, 3, 4], 0), 0x04030201);
}

#[test]
fn other_packet_blocks_are_read_too() {
    let f = ptp_frame();
    let mut out = build_pcapng(&[f.clone()]);
    // A simple packet carries no time of its own, and takes the last one.
    let pad = f.len().div_ceil(4) * 4;
    let total = 16 + pad as u32;
    out.extend_from_slice(&PCAPNG_SPB.to_le_bytes());
    out.extend_from_slice(&total.to_le_bytes());
    out.extend_from_slice(&(f.len() as u32).to_le_bytes());
    out.extend_from_slice(&f);
    out.extend_from_slice(&vec![0u8; pad - f.len()]);
    out.extend_from_slice(&total.to_le_bytes());
    // An obsolete packet block.
    let total = 32 + pad as u32;
    out.extend_from_slice(&PCAPNG_PB.to_le_bytes());
    out.extend_from_slice(&total.to_le_bytes());
    out.extend_from_slice(&[0u8; 8]);
    out.extend_from_slice(&3_000_000u32.to_le_bytes());
    out.extend_from_slice(&(f.len() as u32).to_le_bytes());
    out.extend_from_slice(&(f.len() as u32).to_le_bytes());
    out.extend_from_slice(&f);
    out.extend_from_slice(&vec![0u8; pad - f.len()]);
    out.extend_from_slice(&total.to_le_bytes());
    // A block of no interest.
    out.extend_from_slice(&5u32.to_le_bytes());
    out.extend_from_slice(&12u32.to_le_bytes());
    out.extend_from_slice(&12u32.to_le_bytes());

    let (mut r, mut at) = open(&out).unwrap();
    let mut times = Vec::new();
    while let Some((got, next)) = next_frame(&mut r, &out, at).unwrap() {
        assert_eq!(got.data, &f[..]);
        times.push(got.ts_ns);
        at = next;
    }
    assert_eq!(times, vec![100_000_000_000, 100_000_000_000, 3_000_000_000]);
}

#[test]
fn resolutions_convert_to_nanoseconds() {
    assert_eq!(ns_of_ticks(1_500_000, 6), 1_500_000_000);
    assert_eq!(ns_of_ticks(5, 9), 5);
    assert_eq!(ns_of_ticks(3, 0), 3_000_000_000);
    // A power of two.
    assert_eq!(ns_of_ticks(1 << 20, 0x80 | 20), 1_000_000_000);
    // Only no ticks at all are no time.
    assert_eq!(ns_of_ticks(0, 12), 0);
    assert_eq!(ns_of_ticks(1, 12), 1);
    assert_eq!(ns_of_ticks(u64::MAX, 127), 1);
    // Times beyond what nanoseconds in sixty-four bits can tell.
    assert_eq!(ns_of_ticks(u64::MAX, 0), u128::from(u64::MAX) * 1_000_000_000);
}

#[test]
fn opening_takes_the_header() {
    let pcap = build_pcap(&[ptp_frame()], LINKTYPE_ETHERNET);
    assert_eq!(CaptureReader::new(&pcap).unwrap().position(), 24);
    let ng = build_pcapng(&[ptp_frame()]);
    assert_eq!(CaptureReader::new(&ng).unwrap().position(), 28);
    // A stream that ends inside its section header is empty, and no error.
    let cut = &ng[..20];
    let (mut r, at) = open(cut).unwrap();
    assert_eq!(at, 20);
    assert!(next_frame(&mut r, cut, at).unwrap().is_none());
    assert!(matches!(open(&[]).err(), Some(PcapError::NotACapture)));
    assert!(matches!(open(&pcap[..3]).err(), Some(PcapError::NotACapture)));
}

#[test]
fn a_stream_can_come_in_pieces() {
    for bytes in [build_pcap(&[ptp_frame()], LINKTYPE_ETHERNET), build_pcapng(&[ptp_frame()])] {
        let mut r = CaptureReader::start();
        let mut at = 0;
        while !r.is_open() {
            let want = r.want();
            assert!(r.feed(&bytes[at..at + want]).unwrap().is_none());
            at += want;
        }
        assert_eq!(r.position(), at as u64);
        let (got, end) = next_frame(&mut r, &bytes, at).unwrap().unwrap();
        assert_eq!((got.data, end), (&ptp_frame()[..], bytes.len()));
    }
    assert!(matches!(CaptureReader::start().end(), Some(PcapError::NotACapture)));
}

#[test]
fn a_cut_gives_the_whole_records_before_it() {
    let full = build_pcap(&[ptp_frame(), ptp_frame(), ptp_frame()], LINKTYPE_ETHERNET);
    let record = 16 + ptp_frame().len();
    for n in 24..=full.len() {
        assert_eq!(read_all(&full[..n]).len(), (n - 24) / record);
    }
}

/// A pcapng stream of one frame for each timestamp, under a resolution of its
/// own.
fn stamped(resolution: u8, ticks: &[u64]) -> Vec<u8> {
    let mut out = build_pcapng(&[]);
    // Another interface, in place of the first.
    out.truncate(28);
    out.extend_from_slice(&1u32.to_le_bytes());
    out.extend_from_slice(&28u32.to_le_bytes());
    out.extend_from_slice(&[1, 0, 0, 0, 0, 0, 0, 0]);
    out.extend_from_slice(&[9, 0, 1, 0, resolution, 0, 0, 0]);
    out.extend_from_slice(&28u32.to_le_bytes());
    let f = ptp_frame();
    let pad = f.len().div_ceil(4) * 4;
    for t in ticks {
        let total = 32 + pad as u32;
        out.extend_from_slice(&6u32.to_le_bytes());
        for n in [total, 0, (t >> 32) as u32, *t as u32, f.len() as u32, f.len() as u32] {
            out.extend_from_slice(&n.to_le_bytes());
        }
        out.extend_from_slice(&f);
        out.extend_from_slice(&vec![0u8; pad - f.len()]);
        out.extend_from_slice(&total.to_le_bytes());
    }
    out
}

#[test]
fn the_finest_timestamps_count() {
    let load = |resolution, ticks: &[u64]| {
        load_file(&stamped(resolution, ticks), &FrameFilter::default()).unwrap()
    };
    // One picosecond, and one second.
    let r = load(12, &[1, 1_000_000_000_000]);
    assert_eq!((r.packets, r.duration_ns), (2, 999_999_999));
    // A frame without a time does not stretch the span.
    assert_eq!(load(12, &[0, 1_000_000_000_000]).duration_ns, 1_000_000);
    // Ages apart.
    assert_eq!(
        load(0, &[1, u64::MAX]).duration_ns,
        u128::from(u64::MAX - 1) * 1_000_000_000
    );
}
