//! A verified encoder/decoder for the DNS message wire format: a bounds-checked
//! byte cursor, the fixed 12-byte header with its bit-fields, compression-aware
//! domain names, questions, resource records, and whole-packet assembly.

pub mod error;
pub mod header;
pub mod name;
pub mod packet;
pub mod packet_buffer;
pub mod question;
pub mod record;
