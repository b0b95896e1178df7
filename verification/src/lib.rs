//! SHA-1, HMAC-SHA1 and the one-time passwords built on it, the experimental
//! digest USHA0, and a measure of the avalanche effect of both digests.
//!
//! Every digest, MAC and password is defined as a function of sequences of
//! bytes, and the code that computes it is proved to return that value.

pub mod avalanche;
pub mod bits;
pub mod hmac;
pub mod otp;
pub mod sha1;
pub mod usha;
