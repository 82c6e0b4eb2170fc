//! Errors of the wire codec.

use vstd::prelude::*;

verus! {

/// What can go wrong while decoding or encoding a DNS message.
///
/// `EndOfBuffer` is raised by any buffer access whose target would fall
/// outside the fixed 512-byte message region, `JumpLimitExceeded` by a
/// domain-name decode that follows more than five compression pointers, and
/// `LabelTooLong` by a domain-name encode given a label that cannot be
/// written as a single length-prefixed run of bytes.
#[derive(Clone, Copy, Debug, PartialEq, Eq, Structural)]
pub enum DnsError {
    EndOfBuffer,
    JumpLimitExceeded,
    LabelTooLong,
}

} // verus!
