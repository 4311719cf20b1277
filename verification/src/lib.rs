//! Wire-protocol library for a cash-acceptance payment terminal on a serial
//! link: a CCITT CRC16 checksum, a key/length/value record codec, a frame
//! codec that wraps records with a start marker, length, protocol magic and a
//! trailing CRC16, and the payment handshake state machine that interprets
//! decoded records as start / reserve / finalize events and says which
//! messages to send back. The transport itself (opening the device, timed
//! reads and writes) stays outside: the library maps byte buffers to record
//! sets, events and frames, and never does I/O.

pub mod crc;
pub mod decimal;
pub mod frame;
pub mod session;
pub mod tlv;

pub use crc::get_crc;
pub use frame::{decode_frame, encode_frame, FrameError};
pub use session::{
    encode_outbound, match_fin, match_sta, match_vrp, seed_operation_num, Outbound, Session, Stage,
};
pub use tlv::{Tlv, TlvKey};
