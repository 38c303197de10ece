//! Row codec, join core, upsert core and plan rendering rules of an
//! incremental view engine, with machine-checked contracts.

pub mod arena;
pub mod arrangement;
pub mod array;
pub mod array_text;
pub mod buffer;
pub mod calendar;
pub mod consolidation;
pub mod datum;
pub mod decoding;
pub mod encoding;
pub mod join;
pub mod kafka;
pub mod lexing;
pub mod nested;
pub mod numeric;
pub mod order;
pub mod packer;
pub mod parsing;
pub mod render;
pub mod roundtrip;
pub mod row;
pub mod strconv;
pub mod tag;
pub mod temporal;
pub mod upsert;
pub mod varint;
