//! Zero-knowledge paste envelopes: a blob is encrypted locally, only
//! ciphertext leaves the machine, and everything needed to decrypt travels
//! in a URL fragment that the server never sees.
//!
//! - [`crypto`] seals and opens the envelope: an authenticated cipher under
//!   a fresh random content key and nonce, an optional second layer under a
//!   password-derived key, and the nonce and salt appended to the buffer.
//! - [`fragment`] builds and parses the URL fragment that carries the
//!   content key, the password flag and the display hints.
//! - [`base64`] is the URL-safe textual form of the key inside a fragment.
//! - [`short_code`] is the alphabet of the short paste identifiers.

pub mod base64;
pub mod crypto;
pub mod fragment;
pub mod short_code;
