//! The DNS wire protocol: limits, messages, their parser and record data.

pub mod format;
pub mod laws;
pub mod message;
pub mod parser;
pub mod records;

use vstd::prelude::*;

verus! {

/// Size of the buffer that receives one UDP datagram (RFC 1035, 4.2.1).
pub const UDP_RECV_BUFFER_SIZE: usize = 512;

/// Longest encoded domain name, in bytes (RFC 1035, 2.3.4).
pub const NAME_LEN_MAX: usize = 255;

/// Longest label of a domain name, in bytes (RFC 1035, 2.3.4).
pub const LABEL_LEN_MAX: usize = 63;

/// A buffer for one UDP datagram.
pub type UdpRecvBuffer = [u8; 512];

/// A zeroed buffer for one UDP datagram.
pub fn allocate_udp_recv_buffer() -> (res: UdpRecvBuffer)
    ensures
        res@.len() == UDP_RECV_BUFFER_SIZE,
        forall|i: int| 0 <= i < UDP_RECV_BUFFER_SIZE ==> res@[i] == 0,
{
    [0u8; 512]
}

} // verus!
