//! A single-threaded reactive entity kernel.
//!
//! Independently owned units of application state ("entities") are created,
//! mutated, observed, and released through an [`AppContext`]. A mutation runs
//! inside a [`ModelContext`] scope, which queues deferred effects (notify,
//! emit), registers listeners, and leases exclusive access to global state.
//! Effects are drained strictly after the mutation that produced them, in
//! first-in first-out order; dead watchers are pruned lazily at dispatch time.
//!
//! The kernel holds only the bookkeeping: which entities are alive, which
//! listeners are registered, which effects are pending. Running the listener
//! bodies themselves is the driver's job; every dispatch function hands back
//! the exact, ordered list of registrations that must fire.

pub mod app;
pub mod context;
pub mod laws;
pub mod specs;
pub mod types;

pub use app::AppContext;
pub use context::{GlobalLease, ModelContext};
pub use types::{
    Dispatch, Effect, EntityId, EntitySlot, Firing, GlobalSlot, KernelError, Listener, Model,
    Release, ReleaseListener, Subscription, SubscriptionTable, Task, TaskSlot, WeakModel,
};
