//! A millisecond-timestamp codec: a timezone-naive timestamp is rendered as
//! the base-10 ASCII string of its signed millisecond count since the Unix
//! epoch, and parsed back from such a string.
pub mod codec;
pub mod decimal;
pub mod timestamp;
