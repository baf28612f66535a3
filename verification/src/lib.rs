//! Discovery of live hosts on an IPv4 /24 range.
//!
//! The library generates the candidate addresses of a prefix, says what is
//! asked of the ping facility for one probe and what its answer means,
//! gathers the addresses that answered in one round, and coordinates a
//! scan of several rounds: it unites what the rounds found and hands the
//! result out in order of last octet. It sends nothing itself: its caller
//! probes and reports back.

pub mod address;
pub mod dotted;
pub mod error;
pub mod input;
pub mod merge;
pub mod octet;
pub mod order;
pub mod probe;
pub mod range;
pub mod scan;
pub mod sorting;
pub mod text;

pub use address::{get_last_octet_for_ip, last_octet_of};
pub use error::ScanError;
pub use input::InputIp;
pub use order::compare_ips;
pub use probe::{
    classify, ping_options, reachable_addresses, PingEvent, PingRequest, Platform, ProbeOutcome,
    ProbeReport,
};
pub use range::IpAddressRange;
pub use scan::{ScanCoordinator, ScanStep};
pub use sorting::sort_by_last_octet;
