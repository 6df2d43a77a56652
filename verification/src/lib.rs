//! Watch-debounce-snapshot-retain-restore engine for per-subfolder backups.
//!
//! The library holds the decision logic of the engine: classification and
//! routing of filesystem events, the debounce quiet-window rule, suppression
//! of deletion echoes, retention pruning of timestamped generations, the
//! memo sidecar format, reconciliation of the snapshot store with the live
//! root, and the restore state machine.  All filesystem and windowing work
//! stays outside, handing the library plain values.

pub mod clock;
pub mod debounce;
pub mod engine;
pub mod memo;
pub mod namemap;
pub mod notification;
pub mod order;
pub mod paths;
pub mod reconcile;
pub mod retention;
pub mod settings;
pub mod tracker;

pub use settings::AppSettings;
