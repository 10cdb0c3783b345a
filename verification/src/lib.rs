//! Frame classifier, statistics model and table layout for Network Load
//! Monitor V2, with the decisions that its two front ends take.
//!
//! Both front ends, the terminal UI and the desktop UI, are thin consumers of
//! this crate. Classification, filtering, the rolling-window statistics and
//! the table layout all live here exactly once, so the two cannot disagree
//! about what a capture means.
//!
//! Nothing here reads a clock, a socket or a file: times come in as whole
//! nanoseconds, captures as bytes, and figures that are not whole numbers as
//! the caller shows them.
pub mod ber;
pub mod capture;
pub mod capture_laws;
pub mod classify;
pub mod classify_laws;
pub mod cli;
pub mod consts;
pub mod counts;
pub mod engine_laws;
pub mod export;
pub mod file_laws;
pub mod filter;
pub mod filter_laws;
pub mod filter_popup;
pub mod fmt;
pub mod header_laws;
pub mod iface;
pub mod load;
pub mod monitor;
pub mod order;
pub mod panel_laws;
pub mod parse;
pub mod pcap;
pub mod pcap_laws;
pub mod report;
pub mod report_laws;
pub mod row_laws;
pub mod rows;
pub mod sets;
pub mod stats;
pub mod surface_laws;
pub mod table;
pub mod table_laws;
pub mod text;
pub mod text_laws;

pub use crate::classify::parse_frame;
pub use crate::consts::{LICENSE_NAME, SOFTWARE_NAME, VERSION};
pub use crate::parse::{Frame, Protocol, PROTO_ORDER};
