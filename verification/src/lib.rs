//! A seekable ChaCha20 keystream.
//!
//! A [`ChaChaState`] holds a 256-bit key and a nonce (96-bit IETF form or
//! 64-bit original form) and produces the ChaCha20 keystream as a byte
//! stream.  Callers XOR the stream into buffers of arbitrary size with
//! [`ChaChaState::xor_read`] and reposition it with
//! [`ChaChaState::seek_to`]; the bytes produced are independent of how the
//! stream is chunked or sought.

pub mod words;
pub mod permutation;
pub mod stream;
pub mod laws;

pub use permutation::permute_only;
pub use permutation::permute_and_add;
pub use stream::ChaChaState;
pub use stream::Error;
