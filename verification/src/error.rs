use vstd::prelude::*;

verus! {

/// The ways a DNS message can fail to decode or encode. A malformed message
/// fails as a whole: no partially populated packet is ever returned.
#[derive(Clone, Copy, Debug, PartialEq, Eq)]
pub enum DnsError {
    /// A read ran past the end of the buffer.
    BufferUnderrun,
    /// A write ran past the fixed capacity of the output buffer.
    BufferOverflow,
    /// A label length byte declares more bytes than remain, or a label
    /// exceeds 63 bytes.
    InvalidLabelLength,
    /// A name-compression pointer chain exceeds the jump limit, or a pointer
    /// does not point strictly backwards into the message.
    CompressionLoopDetected,
    /// A section of the message cannot be given the count the header
    /// advertises for it.
    SectionCountMismatch,
}

} // verus!
