//! Concatenation of cpio archives in the "newc" (new ASCII) format.
//!
//! The library has two layers: a header codec for the fixed 110-byte newc
//! header record ([`codec`]), and a transcoder that walks an input archive's
//! entries, drops its terminating sentinel, and re-emits every real entry
//! byte-for-byte into a combined output ([`transcode`]).

pub mod codec;
pub mod transcode;
