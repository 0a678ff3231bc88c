//! Passive per-hostname bandwidth accounting for HTTPS flows.
//!
//! A captured frame is reduced to a flow identity and a TCP segment
//! ([`packet`]). The first request payload of a flow is searched for a TLS
//! server name ([`sni`]); if one is found the flow is tracked from then on,
//! with byte counters for each direction ([`stat`], [`table`]). Once per
//! epoch the table is summed up by host name and made ready for the next
//! epoch ([`summary`]). [`display`] turns the summary into lines and reads
//! what was typed, [`util`] renders byte counts, and [`order`] holds the
//! order in which host names are listed.
//!
//! Nothing here reads a device or writes to a terminal: frames come in as
//! octets, and lines go out as text.

pub mod display;
pub mod order;
pub mod packet;
pub mod sni;
pub mod stat;
pub mod summary;
pub mod table;
pub mod util;
