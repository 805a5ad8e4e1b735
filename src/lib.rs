//! A reactive widget-tree runtime core.
//!
//! Every node of the UI tree is an entity of a shared [`store::Store`].
//! All mutation of the store is serialized through a single
//! [`dispatch::Dispatcher`], which consumes control events in FIFO order.
//! Fragments buffer their component writes and hand them over as one batch,
//! so a write guard's writes are never interleaved with another guard's.
//!
//! Operations on an entity that is gone are defined uniformly: writes,
//! clears and despawns change nothing, and spawning under a parent that is
//! gone fails.
pub mod dispatch;
pub mod effects;
pub mod fragment;
pub mod keys;
pub mod laws;
pub mod notify;
pub mod store;
