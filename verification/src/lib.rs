//! Decoding and encoding of Bitcoin transactions in their consensus
//! (wire) format, with the transaction id computed from the encoding.

pub mod bytes;
pub mod codec;
pub mod compact_size;
pub mod decode;
pub mod error;
pub mod hash;
pub mod hex_codec;
pub mod roundtrip;
pub mod transaction;

pub use codec::{Decodable, Encodable};
pub use compact_size::{read_compact_size, CompactSize};
pub use decode::decode_transaction;
pub use error::{DecodeError, Error};
pub use transaction::{Amount, Script, Transaction, TxId, TxIn, TxOut};
pub mod layout;
