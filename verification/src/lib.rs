//! Decoder for Java Flight Recorder (JFR) binary traces.
//!
//! A JFR file is a sequence of self-framing chunks. Each chunk carries a
//! fixed-layout header, a self-describing metadata tree (string table plus
//! type schema), constant pools with cross-referential entries, and a run of
//! schema-driven event records. The modules below follow that structure,
//! leaves first: the variable-length integer codec, the bounds-checked byte
//! cursor, the header parser, the metadata tree decoder, the constant-pool
//! resolver, the event decoder, and the chunk-walking driver.

pub mod chunk;
pub mod constpool;
pub mod cursor;
pub mod error;
pub mod events;
pub mod header;
pub mod metadata;
pub mod registry;
pub mod value;
pub mod varint;
