//! Streaming creation of OpenPGP messages.
//!
//! A [`stream::Message`] is a stack of writers.  Data written to the topmost
//! writer is transformed on its way down, and arrives at the sink as an
//! OpenPGP message.

pub mod armor;
pub mod armoring;
pub mod backend;
pub mod bytes;
pub mod cipher;
pub mod compression;
pub mod crypto;
pub mod ecdh;
pub mod encryptor;
pub mod error;
pub mod esk;
pub mod framing;
pub mod hashing;
pub mod key;
pub mod laws;
pub mod layouts;
pub mod lines;
pub mod messages;
pub mod octets;
pub mod opening;
pub mod pk;
pub mod readback;
pub mod sealing;
pub mod settings;
pub mod signature;
pub mod signed;
pub mod signer;
pub mod signing;
pub mod stack;
pub mod stream;
pub mod textfilter;
pub mod types;
