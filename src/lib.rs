//! Deferred, batched initialization of process-wide values.
//!
//! Each declared value is a [`Lazy`] handle bound to the identity of the
//! entry that builds it. A one-shot batch walks the table of entries, runs
//! them all, and publishes their results in a [`Registry`]; each handle then
//! claims its own result once and keeps it for the rest of the process.
pub mod lazy;
pub mod registry;
pub mod table;

pub use lazy::Lazy;
pub use registry::{LazyError, Phase, Registry};
pub use table::{slot_offsets, stride, Region};
