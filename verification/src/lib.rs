//! A recursive DNS resolver core: a fixed 512-byte message buffer with
//! cursor-based bounds-checked access, the DNS message data model with its
//! bit-exact binary codec (including compressed domain names), and the
//! delegation-chasing decision logic of an iterative resolver.

pub mod buffer;
pub mod errors;
pub mod header;
pub mod laws;
pub mod name;
pub mod packet;
pub mod question;
pub mod record;
pub mod resolver;

pub use buffer::BytePacketBuffer;
pub use errors::DnsError;
pub use header::{DnsHeader, ResultCode};
pub use packet::DnsPacket;
pub use question::{DnsQuestion, QueryType};
pub use record::DnsRecord;
