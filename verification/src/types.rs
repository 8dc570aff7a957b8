//! The kernel's plain data: identities, handles, listener records, queued
//! effects, and the values that dispatch hands back to the driver.

use vstd::prelude::*;

verus! {

/// A process-unique, stable identity for one entity. Identifiers are handed
/// out in strictly increasing order and are never reused within one
/// [`crate::AppContext`], so an identifier outlives the entity it named.
#[derive(Clone, Copy, PartialEq, Eq, Structural, Hash, Debug)]
pub struct EntityId {
    pub id: u64,
}

/// A strong handle: one reference-counted claim that keeps an entity's
/// storage alive. It is deliberately neither `Clone` nor `Copy`; new claims
/// exist only through [`crate::AppContext::upgrade`], so the number of live
/// `Model` values always matches the kernel's reference count.
#[derive(PartialEq, Eq, Structural, Debug)]
pub struct Model {
    pub id: EntityId,
}

/// A weak handle: identity only, no ownership. Upgrading is a fallible
/// lookup against the kernel's liveness table.
#[derive(Clone, Copy, PartialEq, Eq, Structural, Hash, Debug)]
pub struct WeakModel {
    pub id: EntityId,
}

impl Model {
    /// The identity of the entity this handle keeps alive.
    pub fn entity_id(&self) -> (r: EntityId)
        ensures
            r == self.id,
    {
        self.id
    }

    /// A non-owning handle to the same entity.
    pub fn downgrade(&self) -> (r: WeakModel)
        ensures
            r == (WeakModel { id: self.id }),
    {
        WeakModel { id: self.id }
    }
}

impl WeakModel {
    /// The identity this handle refers to, alive or not.
    pub fn entity_id(&self) -> (r: EntityId)
        ensures
            r == self.id,
    {
        self.id
    }
}

/// A deferred consequence of a mutation, appended during the mutation and
/// consumed strictly after it returns, in queue order.
pub enum Effect<E> {
    /// Observers of `emitter` should run. At most one `Notify` per emitter
    /// sits in the queue at a time.
    Notify { emitter: EntityId },
    /// A typed event published by `emitter`. Never deduplicated: every
    /// `emit` call queues its own `Emit`, preserving multiplicity and order.
    Emit { emitter: EntityId, event: E },
}

/// One listener registration in a keyed table. `key` is the watched entity's
/// identifier for notify and event listeners, the global slot's tag for
/// global observers, and zero for the singleton quit chain.
#[derive(Clone, Copy, PartialEq, Eq, Structural, Debug)]
pub struct Listener {
    pub sub_id: u64,
    pub key: u64,
    pub watcher: EntityId,
}

/// One release listener. `watcher` is `None` when the released entity itself
/// registered the handler (it always fires), and `Some(w)` when a different
/// entity `w` watches the release (it fires only while `w` is alive).
#[derive(Clone, Copy, Debug)]
pub struct ReleaseListener {
    pub sub_id: u64,
    pub watched: EntityId,
    pub watcher: Option<EntityId>,
}

/// One entry of a dispatch list: the registration that must fire and the
/// entity under whose fresh mutation scope its handler runs.
#[derive(Clone, Copy, PartialEq, Eq, Structural, Debug)]
pub struct Firing {
    pub sub_id: u64,
    pub watcher: EntityId,
}

/// Which listener table a subscription's entry lives in.
#[derive(Clone, Copy, PartialEq, Eq, Structural, Debug)]
pub enum SubscriptionTable {
    Observers,
    EventListeners,
    ReleaseListeners,
    GlobalObservers,
    QuitObservers,
}

/// A disposable registration token. Handing it to
/// [`crate::AppContext::detach`] removes the one entry it names; leaking it
/// leaves the listener in place until its watcher or its watched key dies.
#[derive(PartialEq, Eq, Structural, Debug)]
pub struct Subscription {
    pub table: SubscriptionTable,
    pub sub_id: u64,
}

/// A cancellable handle for a spawned background continuation. Handing it to
/// [`crate::AppContext::cancel_task`] withdraws the kernel's permission for
/// the continuation to resume mutating.
#[derive(PartialEq, Eq, Structural, Debug)]
pub struct Task {
    pub task_id: u64,
}

/// The kernel's record of one spawned continuation.
#[derive(Clone, Copy, PartialEq, Eq, Structural, Debug)]
pub struct TaskSlot {
    pub task_id: u64,
    pub cancelled: bool,
}

/// One entity's storage slot. `state` is `None` exactly while the state is
/// checked out into a running mutation scope.
pub struct EntitySlot<T> {
    pub id: EntityId,
    pub ref_count: u64,
    pub state: Option<T>,
}

/// One global state slot, keyed by `tag`. `value` is `None` exactly while
/// the instance is leased out; the empty slot is what makes a nested lease
/// of the same tag detectable.
pub struct GlobalSlot<G> {
    pub tag: u64,
    pub value: Option<G>,
}

/// What the kernel decided a drained effect must do, handed to the driver.
pub enum Dispatch<E> {
    /// Run each listed observer's handler once, in order, under a fresh
    /// mutation scope for its watcher.
    Notify { emitter: EntityId, observers: Vec<Firing> },
    /// Hand `event` to each listed listener's handler once, in order.
    Emit { emitter: EntityId, event: E, listeners: Vec<Firing> },
}

/// Everything the driver needs to finish releasing one entity: its final
/// state for the handlers, the entity's own release handlers (they always
/// fire, in registration order), and the surviving outside watchers.
pub struct Release<T> {
    pub entity: EntityId,
    pub state: T,
    pub own_listeners: Vec<u64>,
    pub observers: Vec<Firing>,
}

/// Why a kernel operation refused to run.
#[derive(Clone, Copy, PartialEq, Eq, Structural, Debug)]
pub enum KernelError {
    /// The named entity is not alive (or its state is already checked out).
    EntityNotFound,
    /// The entity is already inside a mutation scope.
    AlreadyUpdating,
    /// No global slot carries the requested tag.
    GlobalNotFound,
    /// The global slot with this tag is currently leased out: granting a
    /// second lease would alias exclusive state, so the kernel fails fast.
    GlobalAlreadyLeased,
    /// The global slot with this tag is not leased out.
    GlobalNotLeased,
}

} // verus!
