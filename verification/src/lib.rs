//! ALE (Adaptation Layer Entity) framing for EuroRadio communication.
//!
//! ALEPKT framing as specified in UNISIG Subset-098 v3.0.0 6.4.5 and Subset-037 v3.2.0 8.3.2:
//! streaming encode and decode of ALE packets over TCP for the ERTMS/ETCS signalling stack.
//!
//! Class D operation over a single TCP connection, with CRC-CCITT checksum validation, connection
//! handshake (AU1/AU2), data transfer (DT) and disconnect indication (DI).
//!
//! # ALEPKT wire format (10-octet header + variable user data)
//! ```text
//! | Packet Length | Version | App Type | T-Seq Num | N/R Flag | Pkt Type | Checksum | User Data |
//! | 2 octets BE   | 1 octet | 1 octet  | 2 oct BE  | 1 octet  | 1 octet  | 2 octets | variable  |
//! ```
//!
//! # Usage
//! ```text
//! let mut writer = AleFrameWriter::new(0x00);
//! let mut buf = Vec::new();
//! writer.write_alepkt(&mut buf, ALE_PKT_DT, b"hello").unwrap();
//!
//! let mut reader = AleFrameReader::new();
//! let frames = reader.feed(&buf).unwrap();
//! assert_eq!(frames[0].user_data, b"hello");
//! ```
//!
//! What a stream of octets says is defined in [`stream`]; that one peer reads what the other
//! writes, whatever the transport does to the boundaries, is proved in [`exchange`]; what the
//! checksum detects, in [`crc`] and [`header`].

pub mod consts;
pub mod crc;
pub mod error;
pub mod exchange;
pub mod frame;
pub mod handshake;
pub mod header;
pub mod octets;
pub mod reader;
pub mod stream;
pub mod text;
pub mod writer;

pub use crate::consts::{
    ALE_CHECKSUM_COVERED_SIZE, ALE_CLASS_D, ALE_HEADER_SIZE, ALE_MAX_USER_DATA,
    ALE_NR_FLAG_NORMAL, ALE_PKT_AU1, ALE_PKT_AU2, ALE_PKT_DI, ALE_PKT_DT, ALE_VERSION,
};
pub use crate::crc::crc_ccitt;
pub use crate::error::AleError;
pub use crate::frame::AleFrame;
pub use crate::handshake::{AleAu1Info, AleAu2Info};
pub use crate::header::AleHeader;
pub use crate::reader::AleFrameReader;
pub use crate::writer::AleFrameWriter;
