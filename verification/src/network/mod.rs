//! Framing of datagrams and the bounded state that forwarders keep.

pub mod addr;
pub mod forward;
pub mod packet;
pub mod replay;
