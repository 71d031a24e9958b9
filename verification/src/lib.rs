//! Binary layouts described as data.
//!
//! A structure is declared field by field with its byte-level options
//! ([`schema`]), resolved into a validated layout plan ([`layout`],
//! [`resolver`], [`validate`]) and lowered into an encode program and a decode
//! program ([`encoder`], [`decoder`], [`derive`]) that run against a byte sink
//! and a byte source ([`wire`], [`members`], [`value`]). That the two programs
//! of one plan agree on the wire, in both directions, is proved in [`laws`].
//! [`hexdump`] renders a buffer for diagnostics.

pub mod decoder;
pub mod derive;
pub mod encoder;
pub mod hexdump;
pub mod laws;
pub mod layout;
pub mod members;
pub mod resolver;
pub mod schema;
pub mod validate;
pub mod value;
pub mod wire;

pub use derive::{derive_bin_decode, derive_bin_encode};
pub use hexdump::dump_hex;
