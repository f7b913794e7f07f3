//! Verified core of a Payjoin negotiation library.
//!
//! Two Bitcoin wallets that cannot reach each other directly cooperate,
//! through a store-and-forward relay and an oblivious encrypted transport,
//! to build one joint transaction.  This crate holds the verified protocol
//! core: the receiver's staged proposal pipeline, the sender's request
//! builder, the PSBT assembly and fee rules, the single-use transport
//! context, and the persistence codec.  Network I/O and key fetching live
//! outside the library.

pub mod codec;
pub mod error;
pub mod persist;
pub mod psbt;
pub mod receive;
pub mod request;
pub mod send;
pub mod text;
pub mod transport;
pub mod uri;
