//! Fixed-width rendering of small numbers into twelve-byte ASCII buffers,
//! without allocation, for a low-bandwidth debug or telemetry channel.

pub mod digits;
pub mod render;
pub mod fan;

pub use digits::{num_length, num_length_hex};
pub use fan::fan_duty;
pub use render::{fixed_to_str, i16_to_str, u32_to_str, Buffer, BUFFER_LENGTH};
