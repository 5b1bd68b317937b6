//! Endpoint reliability: selective-repeat ARQ and fragmentation.
//!
//! Relays do **not** run this. Retransmit, ACK, and reassembly are endpoint state.

pub mod arq;
pub mod frame;

pub use arq::{Arq, ArqError, ArqGiveUp, WINDOW_SIZE};
pub use frame::{decode_inner, encode_ack, encode_data, FrameError, InnerFrame, ACK_LEN, DATA_HDR_LEN, MAX_PAYLOAD};
