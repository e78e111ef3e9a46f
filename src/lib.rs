//! Receive-side decoding of a pulse-length encoded home-automation remote
//! control protocol: raw on/off samples are classified into symbols, framed,
//! chunked into parity-checked bytes and decoded into commands.

pub mod bits;
pub mod symbols;
pub mod sync;
pub mod chunk;
pub mod frame;
pub mod laws;
pub mod pipeline;
pub mod roundtrip;

