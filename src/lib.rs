//! A compact re-encoding of bsdiff patches, with a direct patcher and a
//! direct differ that work on the compact form.
//!
//! - `control`: the wide (bsdiff) and narrow control records and their byte forms.
//! - `varint`: the group-varint format of the integer streams.
//! - `stream`: raw bsdiff streams as records, and what applying them writes.
//! - `container`: the sections of the compact form and its framing.
//! - `encode`, `decode`: raw bsdiff stream to compact form and back.
//! - `patch`: applies a compact form to an old file directly.
//! - `diff`: builds the compact form of two files directly.
//! - `laws`: how these operations relate to one another.

pub mod container;
pub mod control;
pub mod decode;
pub mod diff;
pub mod encode;
mod error;
mod frame;
pub mod laws;
pub mod patch;
mod region;
pub mod stream;
pub mod varint;

pub use control::{Aehobak, Bsdiff};
pub use decode::decode;
pub use diff::diff;
pub use encode::{encode, EncoderState};
pub use error::Error;
pub use patch::{patch, patch_within};
