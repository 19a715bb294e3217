//! IL2P (Improved Layer 2 Protocol) framing for packet radio: Type 0 transparent and
//! Type 1 translated frames, scrambling, GF(256) Reed-Solomon coding and correction, an
//! optional CRC-16/X-25 carried in Hamming (7,4) codewords, and a bit-serial receiver.
mod ax25;
mod error;
mod gf;
mod packet;
mod poly;
pub mod crc;
pub mod frame;
pub mod receive;
pub mod roundtrip;
pub mod rs;
pub mod scramble;

pub use error::Error;
pub use frame::{decode, encode, encode_burst, Crc, Decoded, Receiver};
pub use packet::{Call, Control, Frame, FrameView, Pid, SKind, UKind};
