//! Textual parsing and canonical formatting for network endpoint
//! identifiers: IPv4/IPv6 addresses and sockets, plus SCION addresses that
//! pair a 64-bit ISD/AS identifier with a host address.

pub mod display_buffer;
pub mod grammar;
pub mod ip_addr;
pub mod ip_v4_addr;
pub mod ip_v6_addr;
pub mod laws;
pub mod parser;
pub mod scion_addr;
pub mod scion_parse_utils;
pub mod sock_addr_scion;
pub mod sock_addr_v4;
pub mod sock_addr_v6;
pub mod socket_addr;
pub mod text;

pub use crate::display_buffer::DisplayBuffer;
pub use crate::ip_addr::IpAddr;
pub use crate::ip_v4_addr::Ipv4Addr;
pub use crate::ip_v6_addr::Ipv6Addr;
pub use crate::ip_v6_addr::Ipv6MulticastScope;
pub use crate::parser::Parser;
pub use crate::scion_addr::ScionAddr;
pub use crate::scion_addr::format_AS;
pub use crate::scion_parse_utils::as_from_dotted_hex;
pub use crate::scion_parse_utils::as_from_ia;
pub use crate::scion_parse_utils::as_to_dotted_hex;
pub use crate::scion_parse_utils::isd_from_ia;
pub use crate::scion_parse_utils::make_ia;
pub use crate::scion_parse_utils::parse_scion_impl;
pub use crate::sock_addr_scion::SocketAddrScion;
pub use crate::sock_addr_v4::SocketAddrV4;
pub use crate::sock_addr_v6::SocketAddrV6;
pub use crate::socket_addr::AddrKind;
pub use crate::socket_addr::AddrParseError;
pub use crate::socket_addr::L3Addr;
pub use crate::socket_addr::SocketAddr;
