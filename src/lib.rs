//! Patching engine for game content archives: carrier formats (RGZ, THOR),
//! the GRF container they are merged into, the patch list, the applied-patch
//! cache, mirror failover and the per-patch apply pipeline.

pub mod bytes;
pub mod codec;
pub mod error;
pub mod grf;
pub mod rgz;
pub mod seqs;
pub mod thor;
pub mod mirror;
pub mod news;
pub mod patcher;
pub mod patchlist;
pub mod text;

pub use error::Error;
