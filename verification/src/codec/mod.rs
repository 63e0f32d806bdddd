//! Byte-level codecs: varints, CRC32, framing, ANS and token backrefs.

pub mod varint;
pub mod ans;
pub mod crc;
pub mod frame;
pub mod backref;
