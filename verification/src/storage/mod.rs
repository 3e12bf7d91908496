//! The `.lvdb` on-disk format and storage engine.

pub mod crc;
pub mod form;
pub mod format;
pub mod integrity;
pub mod layout;
pub mod loss;
pub mod quantize;
pub mod round_trip;
pub mod truncation;
pub mod wire;
