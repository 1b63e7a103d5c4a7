//! Printable-ASCII obfuscation codec for link-aggregation frames.
//!
//! A binary frame is masked, shuffled, delta-coded and written in a
//! base-94 alphabet, then prefixed with its printable length header, so that
//! every byte on the wire lies in `0x20..=0x7e`. Both peers share a 32-bit
//! key; each direction of a connection sends one long prefix, with a
//! verification tail, and short prefixes from then on.
//!
//! The modules, leaves first:
//! - [`primitives`]: mask, shuffle and delta coding of byte slices;
//! - [`base94`]: the printable alphabet;
//! - [`checksum`]: the internet checksum that guards the first prefix;
//! - [`prefix`]: the length prefix in its long and short form;
//! - [`frame`]: sealing a frame into a payload, and the wire format as a
//!   whole;
//! - [`direction`]: the sending and the receiving half with their state;
//! - [`wrapper`]: the key holder that makes a pair of halves;
//! - [`monitor`]: how byte counts and durations are laid out for display.
//!
//! What is taken on trust of the `bytes` and `rand` crates stands in
//! [`buffer`] and at the head of [`random`]. Everything else is proved
//! against its contract.

pub mod base94;
pub mod buffer;
pub mod checksum;
pub mod direction;
pub mod error;
pub mod frame;
pub mod monitor;
pub mod prefix;
pub mod primitives;
pub mod random;
pub mod wrapper;
