//! Core of a small TCP port scanner: CIDR expansion, port-specification
//! parsing, service-banner identification, and assembly of scan reports.
//!
//! Network probing itself (ICMP echo, TCP connects, banner reads) is I/O and
//! lives outside this crate; the functions here are the pure decision and
//! aggregation logic around it, each with a verified contract.

/// Service identification from raw banner text.
pub mod banner;
/// CIDR expansion and target validation.
pub mod cidr;
/// Decimal text: canonical decimal strings and unsigned literals.
pub mod digits;
/// The IPv4 dotted-decimal text form.
pub mod ipv4;
/// The IPv6 text form.
pub mod ipv6;
/// The port-specification grammar.
pub mod ports;
/// Assembly of a scan report from completed probes.
pub mod scan;
/// Splitting, joining and searching character sequences.
pub mod text;
