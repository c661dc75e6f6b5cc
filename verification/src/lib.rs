//! # ups
//! A verified codec for UPS binary delta patches.
//!
//! A patch records how a source byte sequence differs from a target byte
//! sequence, as runs of XOR bytes, together with CRC-32 checksums of the
//! source, of the target and of the serialized patch itself.
//!
//! Every function in this crate carries a contract over a mathematical model
//! of the container format, and the laws that relate the functions (creating
//! then applying gives back the target, serializing then loading gives back
//! the patch) are stated as proof functions.
pub mod container;
pub mod crc32;
pub mod diff;
pub mod ups_error;
pub mod ups_patch;
pub mod varint;

pub use crate::ups_error::ApplyError;
pub use crate::ups_error::CreateError;
pub use crate::ups_error::LoadError;
pub use crate::ups_error::UpsError;
pub use crate::ups_patch::UpsPatch;
