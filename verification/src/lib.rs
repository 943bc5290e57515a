//! A schema-driven binary message codec and stream framer for a
//! client/server game-network protocol.
//!
//! - `table`: the length table, an immutable mapping from a 16-bit message
//!   identifier to a length rule (fixed byte count, or self-declared length).
//! - `layout`: field layouts, the static descriptions of a message type's
//!   fields (scalars, fixed arrays, nested records, one trailing list).
//! - `value`: message values and their ghost models.
//! - `codec`: the layout-driven engine that encodes a structured message to
//!   little-endian bytes and decodes bytes back, with the length-validity
//!   rule and the round-trip law.
//! - `framer`: the extractor that slices a raw byte buffer into complete
//!   message envelopes using the length table, stopping safely on truncation,
//!   unknown identifiers and zero-length messages; and the envelope itself,
//!   with decode-on-demand.
//! - `messages`: the concrete message types of the authentication exchange,
//!   as instances of the layout engine.
//! - `bytes`: the little-endian scalar model underneath it all.

pub mod bytes;
pub mod codec;
pub mod framer;
pub mod layout;
pub mod messages;
pub mod table;
pub mod value;
