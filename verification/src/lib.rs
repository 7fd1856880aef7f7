//! The Big Bounce codec and the `.bnc` archive format around it.

pub mod archive;
pub mod bytes;
pub mod codec;
pub mod crc;
pub mod options;
pub mod paths;
pub mod space;
pub mod text;
