//! Encoding and decoding of the packets of a music-instrument wire protocol:
//! bit fields of storage units, septet packing, typed message fields over
//! byte or word storage, and the segmentation of system-exclusive payloads.
pub mod bit_ops;
pub mod encode_7bit;
pub mod buffer;
pub mod error;
pub mod helpers;
pub mod sysex7;
pub mod payload;
pub mod segment;
pub mod properties;
pub mod midi1_channel_voice;
pub mod midi2_channel_voice;
pub mod system_common;
pub mod sysex8;
