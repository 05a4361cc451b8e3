//! A differential run-length codec for short looping animations of
//! 2-bit greyscale frames.
//!
//! The encoder turns a sequence of equally sized 8-bit greyscale frames
//! into a stream of 16-bit command words; the decoder replays that stream
//! as an endless sequence of draw / skip / end-of-frame commands with a
//! fixed amount of state.
pub mod format;
pub mod stream;
pub mod encoder;
pub mod compress;
pub mod decoder;
pub mod laws;

pub use compress::{pack, unpack, PackError};
pub use decoder::{apply_command, LogoError, OroLogo, OroLogoData};
pub use encoder::{encode_frames, EncodeError};
pub use format::{
    decode_command, encode_command, quantize, words_to_bytes, Command, END_WORD, MAX_DRAW,
    MAX_SKIP,
};
