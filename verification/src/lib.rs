//! A minimal DNS message codec and iterative resolver core.
//!
//! The library covers the classic 512-octet UDP DNS wire format: a
//! bounds-checked packet buffer, the header/question/record codec with
//! name-compression pointers on the read side, and the pure decision
//! logic of an iterative resolver that walks delegations from a root
//! nameserver.  Transport (sockets, timeouts) is left to the caller.

pub mod buffer;
pub mod header;
pub mod name;
pub mod packet;
pub mod question;
pub mod record;
pub mod resolver;
pub mod types;

pub use types::DnsError;
pub use types::Ipv4Addr;
pub use types::Ipv6Addr;
pub use types::QueryType;
pub use types::ResultCode;
