//! The mutation context: the scope handed to code that is mutating one
//! entity. It owns the application context for the duration of the scope
//! (between [`AppContext::update`] and [`ModelContext::finish_update`]) and
//! carries the weak handle of the entity under mutation. Everything an
//! entity's own code may do during a mutation — register listeners, request
//! notification, publish events, lease globals, schedule continuations —
//! goes through this type.

use vstd::prelude::*;

use crate::app::{
    lemma_found_index_is_slot_index, only_entities_changed, released, AppContext,
};
use crate::specs::{
    alive, firings_of, global_index_of, global_leased, global_slot_of, has_global,
    lemma_bounded_mono, lemma_push_distinct_bounded, mark_of, notify_emitter, notify_marks,
    notify_queue, pruned, rel_sub_of, slot_index_of, slot_of, sub_of,
};
use crate::types::{
    Effect, EntityId, EntitySlot, Firing, GlobalSlot, KernelError, Listener, Model, Release,
    ReleaseListener, Subscription, SubscriptionTable, Task, TaskSlot, WeakModel,
};

verus! {

/// Exclusive access to one leased global instance. Created only by
/// [`ModelContext::update_global`]; handing it back to
/// [`ModelContext::end_update_global`] refills the slot and fires the
/// global's observers.
pub struct GlobalLease<G> {
    /// The tag of the slot the instance was taken from.
    pub tag: u64,
    /// The leased instance, mutated freely while the lease is held.
    pub value: G,
}

impl<G> GlobalLease<G> {
    /// The tag of the slot this lease was taken from.
    pub fn tag(&self) -> (r: u64)
        ensures
            r == self.tag,
    {
        self.tag
    }
}

/// A registration happened: the subscription counter advanced by one and
/// nothing outside the listener tables changed.
pub open spec fn registered<T, E, G>(pre: AppContext<T, E, G>, post: AppContext<T, E, G>) -> bool {
    &&& post.next_subscription_id == pre.next_subscription_id + 1
    &&& post.entities@ == pre.entities@
    &&& post.pending_notifications@ == pre.pending_notifications@
    &&& post.pending_effects@ == pre.pending_effects@
    &&& post.globals@ == pre.globals@
    &&& post.tasks@ == pre.tasks@
    &&& post.next_entity_id == pre.next_entity_id
    &&& post.next_task_id == pre.next_task_id
}

/// The per-entity mutation scope. It exists only between
/// [`AppContext::update`] and [`ModelContext::finish_update`], while the
/// entity's state is checked out of its slot.
pub struct ModelContext<T, E, G> {
    /// The owning application context, held for the duration of the scope.
    pub app: AppContext<T, E, G>,
    /// The weak handle of the entity currently under mutation.
    pub model_state: WeakModel,
}

impl<T, E, G> ModelContext<T, E, G> {
    /// Wraps an application context into a mutation scope for `model_state`.
    pub(crate) fn mutable(app: AppContext<T, E, G>, model_state: WeakModel) -> (r: Self)
        ensures
            r.app == app,
            r.model_state == model_state,
    {
        ModelContext { app, model_state }
    }

    /// The identity of the entity currently under mutation.
    pub fn entity_id(&self) -> (r: EntityId)
        ensures
            r == self.model_state.id,
    {
        self.model_state.id
    }

    /// A cheap non-owning handle to the entity under mutation; never fails.
    pub fn weak_model(&self) -> (r: WeakModel)
        ensures
            r == self.model_state,
    {
        self.model_state
    }

    /// Upgrades the context's own weak handle. The entity under mutation is
    /// alive with a claim outstanding by construction of the scope, which is
    /// what the precondition states; the new strong claim must be given up
    /// with [`AppContext::drop_model`] like any other.
    pub fn handle(&mut self) -> (r: Model)
        requires
            old(self).app.wf(),
            alive(old(self).app.entities@, old(self).model_state.id),
            0 < slot_of(old(self).app.entities@, old(self).model_state.id).ref_count < u64::MAX,
        ensures
            final(self).app.wf(),
            final(self).model_state == old(self).model_state,
            r.id == old(self).model_state.id,
            final(self).app.entities@ == old(self).app.entities@.update(
                slot_index_of(old(self).app.entities@, old(self).model_state.id),
                (EntitySlot {
                    id: old(self).model_state.id,
                    ref_count: (slot_of(old(self).app.entities@, old(self).model_state.id).ref_count
                        + 1) as u64,
                    state: slot_of(old(self).app.entities@, old(self).model_state.id).state,
                }),
            ),
            only_entities_changed(old(self).app, final(self).app),
    {
        let weak = self.model_state;
        let m = self.app.upgrade(&weak);
        m.unwrap()
    }

    /// Registers interest in `entity`'s notify channel: whenever a `Notify`
    /// effect from `entity` is drained while this entity is still alive, the
    /// returned registration is dispatched under a fresh mutation scope for
    /// this entity.
    pub fn observe(&mut self, entity: &Model) -> (r: Subscription)
        requires
            old(self).app.wf(),
            old(self).app.next_subscription_id < u64::MAX,
        ensures
            final(self).app.wf(),
            final(self).model_state == old(self).model_state,
            r == (Subscription {
                table: SubscriptionTable::Observers,
                sub_id: old(self).app.next_subscription_id,
            }),
            registered(old(self).app, final(self).app),
            final(self).app.observers@ == old(self).app.observers@.push(
                (Listener {
                    sub_id: old(self).app.next_subscription_id,
                    key: entity.id.id,
                    watcher: old(self).model_state.id,
                }),
            ),
            final(self).app.event_listeners@ == old(self).app.event_listeners@,
            final(self).app.release_listeners@ == old(self).app.release_listeners@,
            final(self).app.global_observers@ == old(self).app.global_observers@,
            final(self).app.quit_observers@ == old(self).app.quit_observers@,
    {
        let sub_id = self.app.next_subscription_id;
        self.app.next_subscription_id = sub_id + 1;
        self.app.observers.push(
            Listener { sub_id, key: entity.id.id, watcher: self.model_state.id },
        );
        proof {
            lemma_push_distinct_bounded(
                old(self).app.observers@,
                (Listener { sub_id, key: entity.id.id, watcher: old(self).model_state.id }),
                sub_of(),
                sub_id,
            );
            lemma_bounded_mono(
                old(self).app.event_listeners@,
                sub_of(),
                sub_id,
                self.app.next_subscription_id,
            );
            lemma_bounded_mono(
                old(self).app.global_observers@,
                sub_of(),
                sub_id,
                self.app.next_subscription_id,
            );
            lemma_bounded_mono(
                old(self).app.quit_observers@,
                sub_of(),
                sub_id,
                self.app.next_subscription_id,
            );
            lemma_bounded_mono(
                old(self).app.release_listeners@,
                rel_sub_of(),
                sub_id,
                self.app.next_subscription_id,
            );
        }
        Subscription { table: SubscriptionTable::Observers, sub_id }
    }

    /// Registers interest in the typed events `entity` emits: whenever an
    /// `Emit` effect from `entity` is drained while this entity is still
    /// alive, the registration is dispatched with the event.
    pub fn subscribe(&mut self, entity: &Model) -> (r: Subscription)
        requires
            old(self).app.wf(),
            old(self).app.next_subscription_id < u64::MAX,
        ensures
            final(self).app.wf(),
            final(self).model_state == old(self).model_state,
            r == (Subscription {
                table: SubscriptionTable::EventListeners,
                sub_id: old(self).app.next_subscription_id,
            }),
            registered(old(self).app, final(self).app),
            final(self).app.event_listeners@ == old(self).app.event_listeners@.push(
                (Listener {
                    sub_id: old(self).app.next_subscription_id,
                    key: entity.id.id,
                    watcher: old(self).model_state.id,
                }),
            ),
            final(self).app.observers@ == old(self).app.observers@,
            final(self).app.release_listeners@ == old(self).app.release_listeners@,
            final(self).app.global_observers@ == old(self).app.global_observers@,
            final(self).app.quit_observers@ == old(self).app.quit_observers@,
    {
        let sub_id = self.app.next_subscription_id;
        self.app.next_subscription_id = sub_id + 1;
        self.app.event_listeners.push(
            Listener { sub_id, key: entity.id.id, watcher: self.model_state.id },
        );
        proof {
            lemma_push_distinct_bounded(
                old(self).app.event_listeners@,
                (Listener { sub_id, key: entity.id.id, watcher: old(self).model_state.id }),
                sub_of(),
                sub_id,
            );
            lemma_bounded_mono(
                old(self).app.observers@,
                sub_of(),
                sub_id,
                self.app.next_subscription_id,
            );
            lemma_bounded_mono(
                old(self).app.global_observers@,
                sub_of(),
                sub_id,
                self.app.next_subscription_id,
            );
            lemma_bounded_mono(
                old(self).app.quit_observers@,
                sub_of(),
                sub_id,
                self.app.next_subscription_id,
            );
            lemma_bounded_mono(
                old(self).app.release_listeners@,
                rel_sub_of(),
                sub_id,
                self.app.next_subscription_id,
            );
        }
        Subscription { table: SubscriptionTable::EventListeners, sub_id }
    }

    /// Registers a handler fired exactly once, when this entity is
    /// released: it receives the dying entity's final state from the
    /// release dispatch, then is discarded.
    pub fn on_release(&mut self) -> (r: Subscription)
        requires
            old(self).app.wf(),
            old(self).app.next_subscription_id < u64::MAX,
        ensures
            final(self).app.wf(),
            final(self).model_state == old(self).model_state,
            r == (Subscription {
                table: SubscriptionTable::ReleaseListeners,
                sub_id: old(self).app.next_subscription_id,
            }),
            registered(old(self).app, final(self).app),
            final(self).app.release_listeners@ == old(self).app.release_listeners@.push(
                (ReleaseListener {
                    sub_id: old(self).app.next_subscription_id,
                    watched: old(self).model_state.id,
                    watcher: None,
                }),
            ),
            final(self).app.observers@ == old(self).app.observers@,
            final(self).app.event_listeners@ == old(self).app.event_listeners@,
            final(self).app.global_observers@ == old(self).app.global_observers@,
            final(self).app.quit_observers@ == old(self).app.quit_observers@,
    {
        let sub_id = self.app.next_subscription_id;
        self.app.next_subscription_id = sub_id + 1;
        self.app.release_listeners.push(
            ReleaseListener { sub_id, watched: self.model_state.id, watcher: None },
        );
        proof {
            lemma_push_distinct_bounded(
                old(self).app.release_listeners@,
                (ReleaseListener {
                    sub_id,
                    watched: old(self).model_state.id,
                    watcher: None,
                }),
                rel_sub_of(),
                sub_id,
            );
            lemma_bounded_mono(
                old(self).app.observers@,
                sub_of(),
                sub_id,
                self.app.next_subscription_id,
            );
            lemma_bounded_mono(
                old(self).app.event_listeners@,
                sub_of(),
                sub_id,
                self.app.next_subscription_id,
            );
            lemma_bounded_mono(
                old(self).app.global_observers@,
                sub_of(),
                sub_id,
                self.app.next_subscription_id,
            );
            lemma_bounded_mono(
                old(self).app.quit_observers@,
                sub_of(),
                sub_id,
                self.app.next_subscription_id,
            );
        }
        Subscription { table: SubscriptionTable::ReleaseListeners, sub_id }
    }

    /// Registers a handler for `entity`'s release, fired only if this
    /// watching entity is itself still alive once `entity`'s slot is gone.
    pub fn observe_release(&mut self, entity: &Model) -> (r: Subscription)
        requires
            old(self).app.wf(),
            old(self).app.next_subscription_id < u64::MAX,
        ensures
            final(self).app.wf(),
            final(self).model_state == old(self).model_state,
            r == (Subscription {
                table: SubscriptionTable::ReleaseListeners,
                sub_id: old(self).app.next_subscription_id,
            }),
            registered(old(self).app, final(self).app),
            final(self).app.release_listeners@ == old(self).app.release_listeners@.push(
                (ReleaseListener {
                    sub_id: old(self).app.next_subscription_id,
                    watched: entity.id,
                    watcher: Some(old(self).model_state.id),
                }),
            ),
            final(self).app.observers@ == old(self).app.observers@,
            final(self).app.event_listeners@ == old(self).app.event_listeners@,
            final(self).app.global_observers@ == old(self).app.global_observers@,
            final(self).app.quit_observers@ == old(self).app.quit_observers@,
    {
        let sub_id = self.app.next_subscription_id;
        self.app.next_subscription_id = sub_id + 1;
        self.app.release_listeners.push(
            ReleaseListener { sub_id, watched: entity.id, watcher: Some(self.model_state.id) },
        );
        proof {
            lemma_push_distinct_bounded(
                old(self).app.release_listeners@,
                (ReleaseListener {
                    sub_id,
                    watched: entity.id,
                    watcher: Some(old(self).model_state.id),
                }),
                rel_sub_of(),
                sub_id,
            );
            lemma_bounded_mono(
                old(self).app.observers@,
                sub_of(),
                sub_id,
                self.app.next_subscription_id,
            );
            lemma_bounded_mono(
                old(self).app.event_listeners@,
                sub_of(),
                sub_id,
                self.app.next_subscription_id,
            );
            lemma_bounded_mono(
                old(self).app.global_observers@,
                sub_of(),
                sub_id,
                self.app.next_subscription_id,
            );
            lemma_bounded_mono(
                old(self).app.quit_observers@,
                sub_of(),
                sub_id,
                self.app.next_subscription_id,
            );
        }
        Subscription { table: SubscriptionTable::ReleaseListeners, sub_id }
    }

    /// Registers interest keyed by the global slot `tag` rather than an
    /// entity: the registration is dispatched whenever that global's lease
    /// ends, while this watching entity is still alive.
    pub fn observe_global(&mut self, tag: u64) -> (r: Subscription)
        requires
            old(self).app.wf(),
            old(self).app.next_subscription_id < u64::MAX,
        ensures
            final(self).app.wf(),
            final(self).model_state == old(self).model_state,
            r == (Subscription {
                table: SubscriptionTable::GlobalObservers,
                sub_id: old(self).app.next_subscription_id,
            }),
            registered(old(self).app, final(self).app),
            final(self).app.global_observers@ == old(self).app.global_observers@.push(
                (Listener {
                    sub_id: old(self).app.next_subscription_id,
                    key: tag,
                    watcher: old(self).model_state.id,
                }),
            ),
            final(self).app.observers@ == old(self).app.observers@,
            final(self).app.event_listeners@ == old(self).app.event_listeners@,
            final(self).app.release_listeners@ == old(self).app.release_listeners@,
            final(self).app.quit_observers@ == old(self).app.quit_observers@,
    {
        let sub_id = self.app.next_subscription_id;
        self.app.next_subscription_id = sub_id + 1;
        self.app.global_observers.push(
            Listener { sub_id, key: tag, watcher: self.model_state.id },
        );
        proof {
            lemma_push_distinct_bounded(
                old(self).app.global_observers@,
                (Listener { sub_id, key: tag, watcher: old(self).model_state.id }),
                sub_of(),
                sub_id,
            );
            lemma_bounded_mono(
                old(self).app.observers@,
                sub_of(),
                sub_id,
                self.app.next_subscription_id,
            );
            lemma_bounded_mono(
                old(self).app.event_listeners@,
                sub_of(),
                sub_id,
                self.app.next_subscription_id,
            );
            lemma_bounded_mono(
                old(self).app.quit_observers@,
                sub_of(),
                sub_id,
                self.app.next_subscription_id,
            );
            lemma_bounded_mono(
                old(self).app.release_listeners@,
                rel_sub_of(),
                sub_id,
                self.app.next_subscription_id,
            );
        }
        Subscription { table: SubscriptionTable::GlobalObservers, sub_id }
    }

    /// Registers a quit-time handler, keyed by the singleton unit key, so
    /// all quit handlers form one chain: at quit, each registration whose
    /// watcher is still alive is dispatched.
    pub fn on_app_quit(&mut self) -> (r: Subscription)
        requires
            old(self).app.wf(),
            old(self).app.next_subscription_id < u64::MAX,
        ensures
            final(self).app.wf(),
            final(self).model_state == old(self).model_state,
            r == (Subscription {
                table: SubscriptionTable::QuitObservers,
                sub_id: old(self).app.next_subscription_id,
            }),
            registered(old(self).app, final(self).app),
            final(self).app.quit_observers@ == old(self).app.quit_observers@.push(
                (Listener {
                    sub_id: old(self).app.next_subscription_id,
                    key: 0,
                    watcher: old(self).model_state.id,
                }),
            ),
            final(self).app.observers@ == old(self).app.observers@,
            final(self).app.event_listeners@ == old(self).app.event_listeners@,
            final(self).app.release_listeners@ == old(self).app.release_listeners@,
            final(self).app.global_observers@ == old(self).app.global_observers@,
    {
        let sub_id = self.app.next_subscription_id;
        self.app.next_subscription_id = sub_id + 1;
        self.app.quit_observers.push(Listener { sub_id, key: 0, watcher: self.model_state.id });
        proof {
            lemma_push_distinct_bounded(
                old(self).app.quit_observers@,
                (Listener { sub_id, key: 0, watcher: old(self).model_state.id }),
                sub_of(),
                sub_id,
            );
            lemma_bounded_mono(
                old(self).app.observers@,
                sub_of(),
                sub_id,
                self.app.next_subscription_id,
            );
            lemma_bounded_mono(
                old(self).app.event_listeners@,
                sub_of(),
                sub_id,
                self.app.next_subscription_id,
            );
            lemma_bounded_mono(
                old(self).app.global_observers@,
                sub_of(),
                sub_id,
                self.app.next_subscription_id,
            );
            lemma_bounded_mono(
                old(self).app.release_listeners@,
                rel_sub_of(),
                sub_id,
                self.app.next_subscription_id,
            );
        }
        Subscription { table: SubscriptionTable::QuitObservers, sub_id }
    }

    /// Requests that this entity's observers run once the current mutation
    /// completes. Idempotent within a mutation: while the entity is already
    /// pending, the call changes nothing, so any number of requests drain
    /// as one `Notify` effect.
    pub fn notify(&mut self)
        requires
            old(self).app.wf(),
        ensures
            final(self).app.wf(),
            final(self).model_state == old(self).model_state,
            final(self).app.pending_notifications@ == notify_marks(
                old(self).app.pending_notifications@,
                old(self).model_state.id,
            ),
            final(self).app.pending_effects@ == notify_queue(
                old(self).app.pending_notifications@,
                old(self).app.pending_effects@,
                old(self).model_state.id,
            ),
            final(self).app.entities@ == old(self).app.entities@,
            final(self).app.observers@ == old(self).app.observers@,
            final(self).app.event_listeners@ == old(self).app.event_listeners@,
            final(self).app.release_listeners@ == old(self).app.release_listeners@,
            final(self).app.global_observers@ == old(self).app.global_observers@,
            final(self).app.quit_observers@ == old(self).app.quit_observers@,
            final(self).app.globals@ == old(self).app.globals@,
            final(self).app.tasks@ == old(self).app.tasks@,
            final(self).app.next_entity_id == old(self).app.next_entity_id,
            final(self).app.next_subscription_id == old(self).app.next_subscription_id,
            final(self).app.next_task_id == old(self).app.next_task_id,
    {
        let id = self.model_state.id;
        if !crate::app::marks_contain(&self.app.pending_notifications, id.id) {
            self.app.pending_notifications.push(id.id);
            self.app.pending_effects.push(Effect::Notify { emitter: id });
            proof {
                let oldm = old(self).app.pending_notifications@;
                let newm = self.app.pending_notifications@;
                let oldq = old(self).app.pending_effects@;
                let newq = self.app.pending_effects@;
                assert forall|a: int, b: int|
                    0 <= a < b < newm.len() implies (mark_of())(#[trigger] newm[a]) != (mark_of())(
                    #[trigger] newm[b],
                ) by {
                    if b < newm.len() - 1 {
                        assert(newm[a] == oldm[a]);
                        assert(newm[b] == oldm[b]);
                    } else {
                        assert(newm[a] == oldm[a]);
                        if oldm[a] == id.id {
                            assert(oldm.contains(id.id));
                        }
                    }
                }
                assert forall|a: int|
                    0 <= a < newq.len() implies (notify_emitter(#[trigger] newq[a]) matches Some(n)
                    ==> newm.contains(n)) by {
                    if a < newq.len() - 1 {
                        assert(newq[a] == oldq[a]);
                        if notify_emitter(newq[a]) is Some {
                            let n = notify_emitter(newq[a]).unwrap();
                            assert(oldm.contains(n));
                            let k = choose|k: int| 0 <= k < oldm.len() && oldm[k] == n;
                            assert(newm[k] == n);
                        }
                    } else {
                        assert(notify_emitter(newq[a]) == Some(id.id));
                        assert(newm.last() == id.id);
                    }
                }
                assert forall|a: int, b: int|
                    0 <= a < b < newq.len() && notify_emitter(
                        #[trigger] newq[a],
                    ) is Some implies notify_emitter(newq[a]) != notify_emitter(
                    #[trigger] newq[b],
                ) by {
                    assert(newq[a] == oldq[a]);
                    if b < newq.len() - 1 {
                        assert(newq[b] == oldq[b]);
                    } else {
                        let n = notify_emitter(newq[a]).unwrap();
                        assert(oldm.contains(n));
                        assert(notify_emitter(newq[b]) == Some(id.id));
                    }
                }
            }
        }
    }

    /// Publishes a typed event from this entity: queues one `Emit` effect.
    /// Never deduplicated — each call queues its own effect, so event
    /// multiplicity and order are preserved, unlike coalesced notifies.
    pub fn emit(&mut self, event: E)
        requires
            old(self).app.wf(),
        ensures
            final(self).app.wf(),
            final(self).model_state == old(self).model_state,
            final(self).app.pending_effects@ == old(self).app.pending_effects@.push(
                (Effect::Emit { emitter: old(self).model_state.id, event }),
            ),
            final(self).app.pending_notifications@ == old(self).app.pending_notifications@,
            final(self).app.entities@ == old(self).app.entities@,
            final(self).app.observers@ == old(self).app.observers@,
            final(self).app.event_listeners@ == old(self).app.event_listeners@,
            final(self).app.release_listeners@ == old(self).app.release_listeners@,
            final(self).app.global_observers@ == old(self).app.global_observers@,
            final(self).app.quit_observers@ == old(self).app.quit_observers@,
            final(self).app.globals@ == old(self).app.globals@,
            final(self).app.tasks@ == old(self).app.tasks@,
            final(self).app.next_entity_id == old(self).app.next_entity_id,
            final(self).app.next_subscription_id == old(self).app.next_subscription_id,
            final(self).app.next_task_id == old(self).app.next_task_id,
    {
        let id = self.model_state.id;
        self.app.pending_effects.push(Effect::Emit { emitter: id, event });
        proof {
            let oldq = old(self).app.pending_effects@;
            let newq = self.app.pending_effects@;
            assert forall|a: int|
                0 <= a < newq.len() implies (notify_emitter(#[trigger] newq[a]) matches Some(n)
                ==> self.app.pending_notifications@.contains(n)) by {
                if a < newq.len() - 1 {
                    assert(newq[a] == oldq[a]);
                }
            }
            assert forall|a: int, b: int|
                0 <= a < b < newq.len() && notify_emitter(
                    #[trigger] newq[a],
                ) is Some implies notify_emitter(newq[a]) != notify_emitter(#[trigger] newq[b]) by {
                assert(newq[a] == oldq[a]);
                if b < newq.len() - 1 {
                    assert(newq[b] == oldq[b]);
                } else {
                    assert(notify_emitter(newq[b]) is None);
                }
            }
        }
    }

    /// Checks the sole instance of the global tagged `tag` out of its slot,
    /// beginning a lease. While the lease is outstanding the slot is empty,
    /// so a nested lease of the same tag fails fast with
    /// `GlobalAlreadyLeased` instead of aliasing exclusive state; a nested
    /// lease of a different tag is unaffected.
    pub fn update_global(&mut self, tag: u64) -> (r: Result<GlobalLease<G>, KernelError>)
        requires
            old(self).app.wf(),
        ensures
            final(self).app.wf(),
            final(self).model_state == old(self).model_state,
            r is Ok <==> (has_global(old(self).app.globals@, tag) && !global_leased(
                old(self).app.globals@,
                tag,
            )),
            !has_global(old(self).app.globals@, tag) ==> (r matches Err(e) && e
                == KernelError::GlobalNotFound && final(self).app == old(self).app),
            global_leased(old(self).app.globals@, tag) ==> (r matches Err(e) && e
                == KernelError::GlobalAlreadyLeased && final(self).app == old(self).app),
            r matches Ok(lease) ==> {
                &&& lease.tag == tag
                &&& Some(lease.value) == global_slot_of(old(self).app.globals@, tag).value
                &&& final(self).app.globals@ == old(self).app.globals@.update(
                    global_index_of(old(self).app.globals@, tag),
                    (GlobalSlot { tag, value: None }),
                )
                &&& global_leased(final(self).app.globals@, tag)
            },
            final(self).app.entities@ == old(self).app.entities@,
            final(self).app.pending_notifications@ == old(self).app.pending_notifications@,
            final(self).app.pending_effects@ == old(self).app.pending_effects@,
            final(self).app.observers@ == old(self).app.observers@,
            final(self).app.event_listeners@ == old(self).app.event_listeners@,
            final(self).app.release_listeners@ == old(self).app.release_listeners@,
            final(self).app.global_observers@ == old(self).app.global_observers@,
            final(self).app.quit_observers@ == old(self).app.quit_observers@,
            final(self).app.tasks@ == old(self).app.tasks@,
            final(self).app.next_entity_id == old(self).app.next_entity_id,
            final(self).app.next_subscription_id == old(self).app.next_subscription_id,
            final(self).app.next_task_id == old(self).app.next_task_id,
    {
        match self.app.lease_global(tag) {
            Ok(v) => Ok(GlobalLease { tag, value: v }),
            Err(e) => Err(e),
        }
    }

    /// Returns a leased instance to its slot, ending the lease, and decides
    /// the dispatch that follows: the live observers of the global's tag, in
    /// registration order, dead ones pruned. A lease nobody holds is
    /// refused, handing the instance back untouched.
    pub fn end_update_global(&mut self, lease: GlobalLease<G>) -> (r: Result<
        Vec<Firing>,
        GlobalLease<G>,
    >)
        requires
            old(self).app.wf(),
        ensures
            final(self).app.wf(),
            final(self).model_state == old(self).model_state,
            r is Ok <==> global_leased(old(self).app.globals@, lease.tag),
            r matches Ok(firings) ==> {
                &&& firings@ == firings_of(
                    old(self).app.global_observers@,
                    lease.tag,
                    old(self).app.entities@,
                )
                &&& final(self).app.global_observers@ == pruned(
                    old(self).app.global_observers@,
                    lease.tag,
                    old(self).app.entities@,
                )
                &&& final(self).app.globals@ == old(self).app.globals@.update(
                    global_index_of(old(self).app.globals@, lease.tag),
                    (GlobalSlot { tag: lease.tag, value: Some(lease.value) }),
                )
                &&& !global_leased(final(self).app.globals@, lease.tag)
            },
            r matches Err(l) ==> (l == lease && final(self).app == old(self).app),
            final(self).app.entities@ == old(self).app.entities@,
            final(self).app.pending_notifications@ == old(self).app.pending_notifications@,
            final(self).app.pending_effects@ == old(self).app.pending_effects@,
            final(self).app.observers@ == old(self).app.observers@,
            final(self).app.event_listeners@ == old(self).app.event_listeners@,
            final(self).app.release_listeners@ == old(self).app.release_listeners@,
            final(self).app.quit_observers@ == old(self).app.quit_observers@,
            final(self).app.tasks@ == old(self).app.tasks@,
            final(self).app.next_entity_id == old(self).app.next_entity_id,
            final(self).app.next_subscription_id == old(self).app.next_subscription_id,
            final(self).app.next_task_id == old(self).app.next_task_id,
    {
        let GlobalLease { tag, value } = lease;
        match self.app.end_global_lease(tag, value) {
            Ok(firings) => Ok(firings),
            Err(v) => Err(GlobalLease { tag, value: v }),
        }
    }

    /// Schedules a background continuation: records a cancellable task and
    /// hands back its handle together with a weak handle to the entity under
    /// mutation — weak, so a background task never keeps an entity alive on
    /// its own. A continuation must upgrade the weak handle at each
    /// resumption and skip its mutation when the upgrade fails.
    pub fn spawn(&mut self) -> (r: (Task, WeakModel))
        requires
            old(self).app.wf(),
            old(self).app.next_task_id < u64::MAX,
        ensures
            final(self).app.wf(),
            final(self).model_state == old(self).model_state,
            r.0.task_id == old(self).app.next_task_id,
            r.1 == old(self).model_state,
            final(self).app.tasks@ == old(self).app.tasks@.push(
                (TaskSlot { task_id: old(self).app.next_task_id, cancelled: false }),
            ),
            final(self).app.next_task_id == old(self).app.next_task_id + 1,
            final(self).app.entities@ == old(self).app.entities@,
            final(self).app.pending_notifications@ == old(self).app.pending_notifications@,
            final(self).app.pending_effects@ == old(self).app.pending_effects@,
            final(self).app.observers@ == old(self).app.observers@,
            final(self).app.event_listeners@ == old(self).app.event_listeners@,
            final(self).app.release_listeners@ == old(self).app.release_listeners@,
            final(self).app.global_observers@ == old(self).app.global_observers@,
            final(self).app.quit_observers@ == old(self).app.quit_observers@,
            final(self).app.globals@ == old(self).app.globals@,
            final(self).app.next_entity_id == old(self).app.next_entity_id,
            final(self).app.next_subscription_id == old(self).app.next_subscription_id,
    {
        let task_id = self.app.next_task_id;
        self.app.next_task_id = task_id + 1;
        self.app.tasks.push(TaskSlot { task_id, cancelled: false });
        proof {
            let oldt = old(self).app.tasks@;
            let newt = self.app.tasks@;
            assert forall|a: int|
                0 <= a < newt.len() implies (#[trigger] newt[a]).task_id
                < self.app.next_task_id by {
                if a < newt.len() - 1 {
                    assert(newt[a] == oldt[a]);
                }
            }
            assert forall|a: int, b: int|
                0 <= a < b < newt.len() implies (#[trigger] newt[a]).task_id != (
            #[trigger] newt[b]).task_id by {
                assert(newt[a] == oldt[a]);
                if b < newt.len() - 1 {
                    assert(newt[b] == oldt[b]);
                }
            }
        }
        (Task { task_id }, self.model_state)
    }

    /// Ends the mutation scope: checks the entity's state back into its
    /// slot and returns the application context. When every strong claim
    /// was given up during the mutation, the entity is released on the
    /// spot and its release dispatch is handed back with the context.
    pub fn finish_update(self, state: T) -> (r: (AppContext<T, E, G>, Option<Release<T>>))
        requires
            self.app.wf(),
        ensures
            r.0.wf(),
            (alive(self.app.entities@, self.model_state.id) && slot_of(
                self.app.entities@,
                self.model_state.id,
            ).state is None) ==> ({
                let idx = slot_index_of(self.app.entities@, self.model_state.id);
                let slot = slot_of(self.app.entities@, self.model_state.id);
                &&& (slot.ref_count > 0 ==> (r.1 is None && r.0.entities@
                    == self.app.entities@.update(
                    idx,
                    (EntitySlot {
                        id: self.model_state.id,
                        ref_count: slot.ref_count,
                        state: Some(state),
                    }),
                ) && only_entities_changed(self.app, r.0)))
                &&& (slot.ref_count == 0 ==> (r.1 matches Some(rel) && released(
                    self.app,
                    r.0,
                    rel,
                    self.model_state.id,
                    state,
                )))
            }),
            !(alive(self.app.entities@, self.model_state.id) && slot_of(
                self.app.entities@,
                self.model_state.id,
            ).state is None) ==> (r.1 is None && r.0.entities@ == self.app.entities@
                && only_entities_changed(self.app, r.0)),
    {
        let ghost pre = self.app;
        let ModelContext { app: mut app, model_state } = self;
        let id = model_state.id;
        match app.find_entity(id) {
            None => (app, None),
            Some(i) => {
                proof {
                    lemma_found_index_is_slot_index(pre.entities@, id, i as int);
                }
                let slot = app.entities.remove(i);
                let EntitySlot { id: sid, ref_count, state: checked_out } = slot;
                match checked_out {
                    Some(st) => {
                        app.entities.insert(i, EntitySlot { id: sid, ref_count, state: Some(st) });
                        proof {
                            assert(app.entities@ =~= pre.entities@);
                        }
                        (app, None)
                    },
                    None => {
                        app.entities.insert(
                            i,
                            EntitySlot { id: sid, ref_count, state: Some(state) },
                        );
                        proof {
                            assert(app.entities@ =~= pre.entities@.update(
                                i as int,
                                (EntitySlot {
                                    id,
                                    ref_count: slot_of(pre.entities@, id).ref_count,
                                    state: Some(state),
                                }),
                            ));
                        }
                        if ref_count == 0 {
                            let ghost mid = app;
                            let rel = app.release_at(i);
                            proof {
                                assert(app.entities@ =~= pre.entities@.remove(i as int));
                                assert(mid.release_listeners@ == pre.release_listeners@);
                            }
                            (app, Some(rel))
                        } else {
                            (app, None)
                        }
                    },
                }
            },
        }
    }
}

} // verus!
