//! The owning application context: entity storage, the effect queue, the
//! listener tables, global slots, and task records. Generic over the entity
//! state type `T`, the event payload type `E`, and the global value type `G`.

use vstd::prelude::*;

use crate::specs::{
    alive, distinct_by, fire_pick, fires, firings_of, global_index_of, global_leased,
    global_slot_of, has_global, has_task, lemma_seq_kept_bounded, lemma_seq_kept_distinct,
    lemma_seq_kept_still_contains, listeners_wf,
    mark_of, marks_without, not_key_keep, not_mark_keep, not_sub_keep, notify_emitter,
    own_release_pick, prune_keep, pruned, rel_not_sub_keep, rel_not_watched_keep, rel_sub_of,
    release_listeners_wf, release_observer_firings, release_observer_pick, release_own_subs,
    release_remaining, release_without_sub, seq_kept, seq_picked, slot_index_of, slot_of, sub_of,
    task_index_of, task_slot_of, without_key, without_sub,
};
use crate::types::{
    Dispatch, Effect, EntityId, EntitySlot, Firing, GlobalSlot, KernelError, Listener, Model,
    Release, ReleaseListener, Subscription, SubscriptionTable, Task, TaskSlot, WeakModel,
};

verus! {

/// The kernel's single-threaded state. One mutation context exists at a time;
/// effects queued during a mutation are drained only after it returns.
pub struct AppContext<T, E, G> {
    /// Source of fresh entity identifiers; identifiers are never reused.
    pub next_entity_id: u64,
    /// Source of fresh subscription identifiers, shared by all tables.
    pub next_subscription_id: u64,
    /// Source of fresh task identifiers.
    pub next_task_id: u64,
    /// One slot per live entity.
    pub entities: Vec<EntitySlot<T>>,
    /// Entities with a `Notify` effect already queued; checked before
    /// enqueueing so repeated notify requests collapse to one effect.
    pub pending_notifications: Vec<u64>,
    /// Deferred effects, in first-in first-out order.
    pub pending_effects: Vec<Effect<E>>,
    /// Notify observers, keyed by the watched entity's identifier.
    pub observers: Vec<Listener>,
    /// Typed-event listeners, keyed by the emitting entity's identifier.
    pub event_listeners: Vec<Listener>,
    /// Release listeners, keyed by the watched entity's identifier.
    pub release_listeners: Vec<ReleaseListener>,
    /// Global-state observers, keyed by the global slot's tag.
    pub global_observers: Vec<Listener>,
    /// Quit handlers, keyed by the singleton unit key zero.
    pub quit_observers: Vec<Listener>,
    /// One slot per distinct global state, keyed by tag.
    pub globals: Vec<GlobalSlot<G>>,
    /// Records of spawned background continuations.
    pub tasks: Vec<TaskSlot>,
}

impl<T, E, G> AppContext<T, E, G> {
    /// The kernel's invariant: identifiers are unique and below their
    /// counters, the pending-notification set holds no duplicates, and the
    /// queue holds at most one `Notify` per emitter, each one marked pending.
    pub open spec fn wf(self) -> bool {
        &&& forall|i: int|
            0 <= i < self.entities@.len() ==> (#[trigger] self.entities@[i]).id.id
                < self.next_entity_id
        &&& forall|i: int, j: int|
            0 <= i < j < self.entities@.len() ==> (#[trigger] self.entities@[i]).id != (
            #[trigger] self.entities@[j]).id
        &&& distinct_by(self.pending_notifications@, mark_of())
        &&& forall|i: int|
            0 <= i < self.pending_effects@.len() ==> (notify_emitter(
                #[trigger] self.pending_effects@[i],
            ) matches Some(n) ==> self.pending_notifications@.contains(n))
        &&& forall|i: int, j: int|
            0 <= i < j < self.pending_effects@.len() && notify_emitter(
                #[trigger] self.pending_effects@[i],
            ) is Some ==> notify_emitter(self.pending_effects@[i]) != notify_emitter(
                #[trigger] self.pending_effects@[j],
            )
        &&& listeners_wf(self.observers@, self.next_subscription_id)
        &&& listeners_wf(self.event_listeners@, self.next_subscription_id)
        &&& listeners_wf(self.global_observers@, self.next_subscription_id)
        &&& listeners_wf(self.quit_observers@, self.next_subscription_id)
        &&& release_listeners_wf(self.release_listeners@, self.next_subscription_id)
        &&& forall|i: int, j: int|
            0 <= i < j < self.globals@.len() ==> (#[trigger] self.globals@[i]).tag != (
            #[trigger] self.globals@[j]).tag
        &&& forall|i: int|
            0 <= i < self.tasks@.len() ==> (#[trigger] self.tasks@[i]).task_id < self.next_task_id
        &&& forall|i: int, j: int|
            0 <= i < j < self.tasks@.len() ==> (#[trigger] self.tasks@[i]).task_id != (
            #[trigger] self.tasks@[j]).task_id
    }

    /// A fresh kernel: no entities, no listeners, no globals, nothing queued.
    pub fn new() -> (r: Self)
        ensures
            r.wf(),
            r.next_entity_id == 0,
            r.next_subscription_id == 0,
            r.next_task_id == 0,
            r.entities@ =~= Seq::<EntitySlot<T>>::empty(),
            r.pending_notifications@ =~= Seq::<u64>::empty(),
            r.pending_effects@ =~= Seq::<Effect<E>>::empty(),
            r.observers@ =~= Seq::<Listener>::empty(),
            r.event_listeners@ =~= Seq::<Listener>::empty(),
            r.release_listeners@ =~= Seq::<ReleaseListener>::empty(),
            r.global_observers@ =~= Seq::<Listener>::empty(),
            r.quit_observers@ =~= Seq::<Listener>::empty(),
            r.globals@ =~= Seq::<GlobalSlot<G>>::empty(),
            r.tasks@ =~= Seq::<TaskSlot>::empty(),
    {
        AppContext {
            next_entity_id: 0,
            next_subscription_id: 0,
            next_task_id: 0,
            entities: Vec::new(),
            pending_notifications: Vec::new(),
            pending_effects: Vec::new(),
            observers: Vec::new(),
            event_listeners: Vec::new(),
            release_listeners: Vec::new(),
            global_observers: Vec::new(),
            quit_observers: Vec::new(),
            globals: Vec::new(),
            tasks: Vec::new(),
        }
    }

    /// The index of the slot carrying `id`, if the entity is alive.
    pub(crate) fn find_entity(&self, id: EntityId) -> (r: Option<usize>)
        ensures
            r is Some <==> alive(self.entities@, id),
            r matches Some(i) ==> i < self.entities@.len() && self.entities@[i as int].id == id,
    {
        let mut i: usize = 0;
        while i < self.entities.len()
            invariant
                i <= self.entities@.len(),
                forall|j: int| 0 <= j < i ==> (#[trigger] self.entities@[j]).id != id,
            decreases self.entities@.len() - i,
        {
            if self.entities[i].id == id {
                return Some(i);
            }
            i = i + 1;
        }
        None
    }

    /// Whether the entity behind `id` is still alive.
    pub fn is_alive(&self, id: EntityId) -> (r: bool)
        ensures
            r == alive(self.entities@, id),
    {
        self.find_entity(id).is_some()
    }

    /// Creates an entity with the given initial state and one strong claim,
    /// returning the strong handle that owns the claim.
    pub fn build_model(&mut self, state: T) -> (r: Model)
        requires
            old(self).wf(),
            old(self).next_entity_id < u64::MAX,
        ensures
            final(self).wf(),
            r.id.id == old(self).next_entity_id,
            final(self).next_entity_id == old(self).next_entity_id + 1,
            final(self).entities@ == old(self).entities@.push(
                (EntitySlot { id: r.id, ref_count: 1, state: Some(state) }),
            ),
            alive(final(self).entities@, r.id),
            final(self).next_subscription_id == old(self).next_subscription_id,
            final(self).next_task_id == old(self).next_task_id,
            final(self).pending_notifications@ == old(self).pending_notifications@,
            final(self).pending_effects@ == old(self).pending_effects@,
            final(self).observers@ == old(self).observers@,
            final(self).event_listeners@ == old(self).event_listeners@,
            final(self).release_listeners@ == old(self).release_listeners@,
            final(self).global_observers@ == old(self).global_observers@,
            final(self).quit_observers@ == old(self).quit_observers@,
            final(self).globals@ == old(self).globals@,
            final(self).tasks@ == old(self).tasks@,
    {
        let id = EntityId { id: self.next_entity_id };
        self.next_entity_id = self.next_entity_id + 1;
        self.entities.push(EntitySlot { id, ref_count: 1, state: Some(state) });
        proof {
            let n = self.entities@.len() - 1;
            assert(self.entities@[n].id == id);
        }
        Model { id }
    }

    /// Upgrades a weak handle: succeeds, taking one more strong claim, only
    /// while the entity is alive with at least one claim outstanding and the
    /// claim count has room to grow.
    pub fn upgrade(&mut self, weak: &WeakModel) -> (r: Option<Model>)
        requires
            old(self).wf(),
        ensures
            final(self).wf(),
            r is Some <==> (alive(old(self).entities@, weak.id) && 0 < slot_of(
                old(self).entities@,
                weak.id,
            ).ref_count < u64::MAX),
            r matches Some(m) ==> {
                &&& m.id == weak.id
                &&& final(self).entities@ == old(self).entities@.update(
                    slot_index_of(old(self).entities@, weak.id),
                    (EntitySlot {
                        id: weak.id,
                        ref_count: (slot_of(old(self).entities@, weak.id).ref_count + 1) as u64,
                        state: slot_of(old(self).entities@, weak.id).state,
                    }),
                )
            },
            r is None ==> *final(self) == *old(self),
            final(self).next_entity_id == old(self).next_entity_id,
            final(self).next_subscription_id == old(self).next_subscription_id,
            final(self).next_task_id == old(self).next_task_id,
            final(self).pending_notifications@ == old(self).pending_notifications@,
            final(self).pending_effects@ == old(self).pending_effects@,
            final(self).observers@ == old(self).observers@,
            final(self).event_listeners@ == old(self).event_listeners@,
            final(self).release_listeners@ == old(self).release_listeners@,
            final(self).global_observers@ == old(self).global_observers@,
            final(self).quit_observers@ == old(self).quit_observers@,
            final(self).globals@ == old(self).globals@,
            final(self).tasks@ == old(self).tasks@,
    {
        match self.find_entity(weak.id) {
            None => None,
            Some(i) => {
                proof {
                    lemma_found_index_is_slot_index(old(self).entities@, weak.id, i as int);
                }
                let count = self.entities[i].ref_count;
                if count == 0 || count == u64::MAX {
                    None
                } else {
                    let mut slot = self.entities.remove(i);
                    slot.ref_count = count + 1;
                    self.entities.insert(i, slot);
                    proof {
                        assert(self.entities@ =~= old(self).entities@.update(
                            i as int,
                            (EntitySlot {
                                id: weak.id,
                                ref_count: (count + 1) as u64,
                                state: slot_of(old(self).entities@, weak.id).state,
                            }),
                        ));
                    }
                    Some(Model { id: weak.id })
                }
            },
        }
    }

    /// Releases the entity in slot `i`: removes its storage, splits out its
    /// release handlers, and removes every registry entry keyed by it. The
    /// pending-notification mark and any queued effects stay; their drain
    /// finds no listeners left.
    pub(crate) fn release_at(&mut self, i: usize) -> (r: Release<T>)
        requires
            old(self).wf(),
            i < old(self).entities@.len(),
            old(self).entities@[i as int].state is Some,
        ensures
            final(self).wf(),
            released(
                *old(self),
                *final(self),
                r,
                old(self).entities@[i as int].id,
                old(self).entities@[i as int].state.unwrap(),
            ),
    {
        proof {
            lemma_found_index_is_slot_index(
                old(self).entities@,
                old(self).entities@[i as int].id,
                i as int,
            );
        }
        let slot = self.entities.remove(i);
        let id = slot.id;
        let state = slot.state.unwrap();
        let (own, obs) = release_collect(&mut self.release_listeners, id, &self.entities);
        remove_key_entries(&mut self.observers, id.id);
        remove_key_entries(&mut self.event_listeners, id.id);
        proof {
            let pre = old(self).entities@;
            let post = self.entities@;
            assert forall|a: int|
                0 <= a < post.len() implies (#[trigger] post[a]).id.id < self.next_entity_id by {
                if a < i {
                    assert(post[a] == pre[a]);
                } else {
                    assert(post[a] == pre[a + 1]);
                }
            }
            assert forall|a: int, b: int|
                0 <= a < b < post.len() implies (#[trigger] post[a]).id != (
            #[trigger] post[b]).id by {
                let a0 = if a < i { a } else { a + 1 };
                let b0 = if b < i { b } else { b + 1 };
                assert(post[a] == pre[a0]);
                assert(post[b] == pre[b0]);
            }
            lemma_seq_kept_distinct(
                old(self).release_listeners@,
                rel_not_watched_keep(id),
                rel_sub_of(),
            );
            lemma_seq_kept_bounded(
                old(self).release_listeners@,
                rel_not_watched_keep(id),
                rel_sub_of(),
                self.next_subscription_id,
            );
            lemma_seq_kept_distinct(old(self).observers@, not_key_keep(id.id), sub_of());
            lemma_seq_kept_bounded(
                old(self).observers@,
                not_key_keep(id.id),
                sub_of(),
                self.next_subscription_id,
            );
            lemma_seq_kept_distinct(old(self).event_listeners@, not_key_keep(id.id), sub_of());
            lemma_seq_kept_bounded(
                old(self).event_listeners@,
                not_key_keep(id.id),
                sub_of(),
                self.next_subscription_id,
            );
        }
        Release { entity: id, state, own_listeners: own, observers: obs }
    }

    /// Gives up one strong claim on the entity. When the last claim goes
    /// while the entity's state is at rest, the entity is released on the
    /// spot. When the last claim goes while the state is checked out into a
    /// mutation scope, the slot stays with count zero and the release is
    /// performed by [`crate::ModelContext::finish_update`].
    pub fn drop_model(&mut self, model: Model) -> (r: Option<Release<T>>)
        requires
            old(self).wf(),
        ensures
            final(self).wf(),
            !alive(old(self).entities@, model.id) ==> r is None && *final(self) == *old(self),
            alive(old(self).entities@, model.id) ==> ({
                let idx = slot_index_of(old(self).entities@, model.id);
                let slot = slot_of(old(self).entities@, model.id);
                &&& (slot.ref_count == 0 ==> r is None && *final(self) == *old(self))
                &&& (slot.ref_count > 1 ==> r is None && only_entities_changed(
                    *old(self),
                    *final(self),
                ) && final(self).entities@ == old(self).entities@.update(
                    idx,
                    (EntitySlot {
                        id: model.id,
                        ref_count: (slot.ref_count - 1) as u64,
                        state: slot.state,
                    }),
                ))
                &&& ((slot.ref_count == 1 && slot.state is None) ==> r is None
                    && only_entities_changed(*old(self), *final(self)) && final(self).entities@
                    == old(self).entities@.update(
                    idx,
                    (EntitySlot { id: model.id, ref_count: 0, state: slot.state }),
                ))
                &&& ((slot.ref_count == 1 && slot.state is Some) ==> (r matches Some(rel)
                    && released(*old(self), *final(self), rel, model.id, slot.state.unwrap())))
            }),
    {
        match self.find_entity(model.id) {
            None => None,
            Some(i) => {
                proof {
                    lemma_found_index_is_slot_index(old(self).entities@, model.id, i as int);
                }
                let count = self.entities[i].ref_count;
                if count == 0 {
                    None
                } else if count > 1 {
                    let slot = self.entities.remove(i);
                    let EntitySlot { id: sid, ref_count: _, state } = slot;
                    self.entities.insert(i, EntitySlot { id: sid, ref_count: count - 1, state });
                    proof {
                        assert(self.entities@ =~= old(self).entities@.update(
                            i as int,
                            (EntitySlot {
                                id: model.id,
                                ref_count: (count - 1) as u64,
                                state: slot_of(old(self).entities@, model.id).state,
                            }),
                        ));
                    }
                    None
                } else if self.entities[i].state.is_some() {
                    Some(self.release_at(i))
                } else {
                    let slot = self.entities.remove(i);
                    let EntitySlot { id: sid, ref_count: _, state } = slot;
                    self.entities.insert(i, EntitySlot { id: sid, ref_count: 0, state });
                    proof {
                        assert(self.entities@ =~= old(self).entities@.update(
                            i as int,
                            (EntitySlot {
                                id: model.id,
                                ref_count: 0,
                                state: slot_of(old(self).entities@, model.id).state,
                            }),
                        ));
                    }
                    None
                }
            },
        }
    }

    /// Begins a mutation of the entity behind `id`: checks its state out of
    /// its slot and wraps the kernel into a mutation scope for it. Refused
    /// for a dead entity, and for one whose state is already checked out by
    /// an enclosing mutation of the same entity.
    pub fn update(self, id: EntityId) -> (r: Result<
        (crate::context::ModelContext<T, E, G>, T),
        (Self, KernelError),
    >)
        requires
            self.wf(),
        ensures
            r is Ok <==> (alive(self.entities@, id) && slot_of(self.entities@, id).state is Some),
            r matches Ok((cx, state)) ==> {
                &&& cx.app.wf()
                &&& cx.model_state.id == id
                &&& Some(state) == slot_of(self.entities@, id).state
                &&& cx.app.entities@ == self.entities@.update(
                    slot_index_of(self.entities@, id),
                    (EntitySlot {
                        id,
                        ref_count: slot_of(self.entities@, id).ref_count,
                        state: None,
                    }),
                )
                &&& only_entities_changed(self, cx.app)
            },
            r matches Err((app, e)) ==> {
                &&& app.wf()
                &&& app.entities@ == self.entities@
                &&& only_entities_changed(self, app)
                &&& (e == KernelError::EntityNotFound <==> !alive(self.entities@, id))
                &&& (e == KernelError::AlreadyUpdating <==> (alive(self.entities@, id) && slot_of(
                    self.entities@,
                    id,
                ).state is None))
            },
    {
        let ghost pre = self;
        let mut app = self;
        match app.find_entity(id) {
            None => Err((app, KernelError::EntityNotFound)),
            Some(i) => {
                proof {
                    lemma_found_index_is_slot_index(pre.entities@, id, i as int);
                }
                let slot = app.entities.remove(i);
                let EntitySlot { id: sid, ref_count, state } = slot;
                match state {
                    Some(st) => {
                        app.entities.insert(i, EntitySlot { id: sid, ref_count, state: None });
                        proof {
                            assert(app.entities@ =~= pre.entities@.update(
                                i as int,
                                (EntitySlot {
                                    id,
                                    ref_count: slot_of(pre.entities@, id).ref_count,
                                    state: None,
                                }),
                            ));
                        }
                        let cx = crate::context::ModelContext::mutable(app, WeakModel { id });
                        Ok((cx, st))
                    },
                    None => {
                        app.entities.insert(i, EntitySlot { id: sid, ref_count, state: None });
                        proof {
                            assert(app.entities@ =~= pre.entities@);
                        }
                        Err((app, KernelError::AlreadyUpdating))
                    },
                }
            },
        }
    }

    /// Disposes one subscription: removes the entry it names from its
    /// table. Best-effort: if the entry was already pruned, nothing changes.
    pub fn detach(&mut self, sub: Subscription)
        requires
            old(self).wf(),
        ensures
            final(self).wf(),
            final(self).observers@ == if sub.table == SubscriptionTable::Observers {
                without_sub(old(self).observers@, sub.sub_id)
            } else {
                old(self).observers@
            },
            final(self).event_listeners@ == if sub.table == SubscriptionTable::EventListeners {
                without_sub(old(self).event_listeners@, sub.sub_id)
            } else {
                old(self).event_listeners@
            },
            final(self).global_observers@ == if sub.table == SubscriptionTable::GlobalObservers {
                without_sub(old(self).global_observers@, sub.sub_id)
            } else {
                old(self).global_observers@
            },
            final(self).quit_observers@ == if sub.table == SubscriptionTable::QuitObservers {
                without_sub(old(self).quit_observers@, sub.sub_id)
            } else {
                old(self).quit_observers@
            },
            final(self).release_listeners@ == if sub.table == SubscriptionTable::ReleaseListeners {
                release_without_sub(old(self).release_listeners@, sub.sub_id)
            } else {
                old(self).release_listeners@
            },
            final(self).entities@ == old(self).entities@,
            final(self).pending_notifications@ == old(self).pending_notifications@,
            final(self).pending_effects@ == old(self).pending_effects@,
            final(self).globals@ == old(self).globals@,
            final(self).tasks@ == old(self).tasks@,
            final(self).next_entity_id == old(self).next_entity_id,
            final(self).next_subscription_id == old(self).next_subscription_id,
            final(self).next_task_id == old(self).next_task_id,
    {
        match sub.table {
            SubscriptionTable::Observers => {
                remove_sub_entry(&mut self.observers, sub.sub_id);
                proof {
                    lemma_seq_kept_distinct(old(self).observers@, not_sub_keep(sub.sub_id), sub_of());
                    lemma_seq_kept_bounded(
                        old(self).observers@,
                        not_sub_keep(sub.sub_id),
                        sub_of(),
                        self.next_subscription_id,
                    );
                }
            },
            SubscriptionTable::EventListeners => {
                remove_sub_entry(&mut self.event_listeners, sub.sub_id);
                proof {
                    lemma_seq_kept_distinct(
                        old(self).event_listeners@,
                        not_sub_keep(sub.sub_id),
                        sub_of(),
                    );
                    lemma_seq_kept_bounded(
                        old(self).event_listeners@,
                        not_sub_keep(sub.sub_id),
                        sub_of(),
                        self.next_subscription_id,
                    );
                }
            },
            SubscriptionTable::GlobalObservers => {
                remove_sub_entry(&mut self.global_observers, sub.sub_id);
                proof {
                    lemma_seq_kept_distinct(
                        old(self).global_observers@,
                        not_sub_keep(sub.sub_id),
                        sub_of(),
                    );
                    lemma_seq_kept_bounded(
                        old(self).global_observers@,
                        not_sub_keep(sub.sub_id),
                        sub_of(),
                        self.next_subscription_id,
                    );
                }
            },
            SubscriptionTable::QuitObservers => {
                remove_sub_entry(&mut self.quit_observers, sub.sub_id);
                proof {
                    lemma_seq_kept_distinct(
                        old(self).quit_observers@,
                        not_sub_keep(sub.sub_id),
                        sub_of(),
                    );
                    lemma_seq_kept_bounded(
                        old(self).quit_observers@,
                        not_sub_keep(sub.sub_id),
                        sub_of(),
                        self.next_subscription_id,
                    );
                }
            },
            SubscriptionTable::ReleaseListeners => {
                remove_rel_sub_entry(&mut self.release_listeners, sub.sub_id);
                proof {
                    lemma_seq_kept_distinct(
                        old(self).release_listeners@,
                        rel_not_sub_keep(sub.sub_id),
                        rel_sub_of(),
                    );
                    lemma_seq_kept_bounded(
                        old(self).release_listeners@,
                        rel_not_sub_keep(sub.sub_id),
                        rel_sub_of(),
                        self.next_subscription_id,
                    );
                }
            },
        }
    }

    /// The index of the global slot with `tag`, if one exists.
    fn find_global(&self, tag: u64) -> (r: Option<usize>)
        ensures
            r is Some <==> has_global(self.globals@, tag),
            r matches Some(i) ==> i < self.globals@.len() && self.globals@[i as int].tag == tag,
    {
        let mut i: usize = 0;
        while i < self.globals.len()
            invariant
                i <= self.globals@.len(),
                forall|j: int| 0 <= j < i ==> (#[trigger] self.globals@[j]).tag != tag,
            decreases self.globals@.len() - i,
        {
            if self.globals[i].tag == tag {
                return Some(i);
            }
            i = i + 1;
        }
        None
    }

    /// Fills (or replaces) the global slot with `tag`. Refused while the
    /// instance is leased out: replacing a leased slot would let the lease's
    /// checkin silently discard state.
    pub fn set_global(&mut self, tag: u64, value: G) -> (r: Result<(), KernelError>)
        requires
            old(self).wf(),
        ensures
            final(self).wf(),
            r is Ok <==> !global_leased(old(self).globals@, tag),
            !has_global(old(self).globals@, tag) ==> final(self).globals@ == old(
                self,
            ).globals@.push((GlobalSlot { tag, value: Some(value) })),
            (has_global(old(self).globals@, tag) && !global_leased(old(self).globals@, tag))
                ==> final(self).globals@ == old(self).globals@.update(
                global_index_of(old(self).globals@, tag),
                (GlobalSlot { tag, value: Some(value) }),
            ),
            global_leased(old(self).globals@, tag) ==> (r == Result::<(), KernelError>::Err(
                KernelError::GlobalAlreadyLeased,
            ) && *final(self) == *old(self)),
            final(self).entities@ == old(self).entities@,
            final(self).pending_notifications@ == old(self).pending_notifications@,
            final(self).pending_effects@ == old(self).pending_effects@,
            final(self).observers@ == old(self).observers@,
            final(self).event_listeners@ == old(self).event_listeners@,
            final(self).release_listeners@ == old(self).release_listeners@,
            final(self).global_observers@ == old(self).global_observers@,
            final(self).quit_observers@ == old(self).quit_observers@,
            final(self).tasks@ == old(self).tasks@,
            final(self).next_entity_id == old(self).next_entity_id,
            final(self).next_subscription_id == old(self).next_subscription_id,
            final(self).next_task_id == old(self).next_task_id,
    {
        match self.find_global(tag) {
            None => {
                self.globals.push(GlobalSlot { tag, value: Some(value) });
                proof {
                    let post = self.globals@;
                    assert forall|a: int, b: int|
                        0 <= a < b < post.len() implies (#[trigger] post[a]).tag != (
                    #[trigger] post[b]).tag by {
                        if b < post.len() - 1 {
                            assert(post[a] == old(self).globals@[a]);
                            assert(post[b] == old(self).globals@[b]);
                        } else {
                            assert(post[a] == old(self).globals@[a]);
                        }
                    }
                }
                Ok(())
            },
            Some(i) => {
                proof {
                    lemma_found_global_index(old(self).globals@, tag, i as int);
                }
                if self.globals[i].value.is_some() {
                    let slot = self.globals.remove(i);
                    let GlobalSlot { tag: t0, value: _ } = slot;
                    self.globals.insert(i, GlobalSlot { tag: t0, value: Some(value) });
                    proof {
                        assert(self.globals@ =~= old(self).globals@.update(
                            i as int,
                            (GlobalSlot { tag, value: Some(value) }),
                        ));
                    }
                    Ok(())
                } else {
                    Err(KernelError::GlobalAlreadyLeased)
                }
            },
        }
    }

    /// Checks the sole instance of the global with `tag` out of its slot.
    /// The slot stays, empty, so a nested lease of the same tag is detected
    /// and refused; a lease of a different tag is unaffected.
    pub fn lease_global(&mut self, tag: u64) -> (r: Result<G, KernelError>)
        requires
            old(self).wf(),
        ensures
            final(self).wf(),
            r is Ok <==> (has_global(old(self).globals@, tag) && !global_leased(
                old(self).globals@,
                tag,
            )),
            !has_global(old(self).globals@, tag) ==> (r matches Err(e) && e
                == KernelError::GlobalNotFound && *final(self) == *old(self)),
            global_leased(old(self).globals@, tag) ==> (r matches Err(e) && e
                == KernelError::GlobalAlreadyLeased && *final(self) == *old(self)),
            r matches Ok(v) ==> {
                &&& Some(v) == global_slot_of(old(self).globals@, tag).value
                &&& final(self).globals@ == old(self).globals@.update(
                    global_index_of(old(self).globals@, tag),
                    (GlobalSlot { tag, value: None }),
                )
                &&& global_leased(final(self).globals@, tag)
            },
            final(self).entities@ == old(self).entities@,
            final(self).pending_notifications@ == old(self).pending_notifications@,
            final(self).pending_effects@ == old(self).pending_effects@,
            final(self).observers@ == old(self).observers@,
            final(self).event_listeners@ == old(self).event_listeners@,
            final(self).release_listeners@ == old(self).release_listeners@,
            final(self).global_observers@ == old(self).global_observers@,
            final(self).quit_observers@ == old(self).quit_observers@,
            final(self).tasks@ == old(self).tasks@,
            final(self).next_entity_id == old(self).next_entity_id,
            final(self).next_subscription_id == old(self).next_subscription_id,
            final(self).next_task_id == old(self).next_task_id,
    {
        match self.find_global(tag) {
            None => Err(KernelError::GlobalNotFound),
            Some(i) => {
                proof {
                    lemma_found_global_index(old(self).globals@, tag, i as int);
                }
                if self.globals[i].value.is_none() {
                    Err(KernelError::GlobalAlreadyLeased)
                } else {
                    let slot = self.globals.remove(i);
                    let GlobalSlot { tag: t0, value } = slot;
                    self.globals.insert(i, GlobalSlot { tag: t0, value: None });
                    proof {
                        assert(self.globals@ =~= old(self).globals@.update(
                            i as int,
                            (GlobalSlot { tag, value: None }),
                        ));
                        lemma_found_global_index(self.globals@, tag, i as int);
                    }
                    Ok(value.unwrap())
                }
            },
        }
    }

    /// Returns a leased instance to its slot and decides the dispatch that
    /// ends the lease: the live observers of `tag`, in registration order,
    /// with dead ones pruned. Refused (handing the value back) when no
    /// slot with `tag` is empty awaiting a checkin.
    pub fn end_global_lease(&mut self, tag: u64, value: G) -> (r: Result<Vec<Firing>, G>)
        requires
            old(self).wf(),
        ensures
            final(self).wf(),
            r is Ok <==> global_leased(old(self).globals@, tag),
            r matches Ok(firings) ==> {
                &&& firings@ == firings_of(old(self).global_observers@, tag, old(self).entities@)
                &&& final(self).global_observers@ == pruned(
                    old(self).global_observers@,
                    tag,
                    old(self).entities@,
                )
                &&& final(self).globals@ == old(self).globals@.update(
                    global_index_of(old(self).globals@, tag),
                    (GlobalSlot { tag, value: Some(value) }),
                )
                &&& !global_leased(final(self).globals@, tag)
            },
            r matches Err(v) ==> (v == value && *final(self) == *old(self)),
            final(self).entities@ == old(self).entities@,
            final(self).pending_notifications@ == old(self).pending_notifications@,
            final(self).pending_effects@ == old(self).pending_effects@,
            final(self).observers@ == old(self).observers@,
            final(self).event_listeners@ == old(self).event_listeners@,
            final(self).release_listeners@ == old(self).release_listeners@,
            final(self).quit_observers@ == old(self).quit_observers@,
            final(self).tasks@ == old(self).tasks@,
            final(self).next_entity_id == old(self).next_entity_id,
            final(self).next_subscription_id == old(self).next_subscription_id,
            final(self).next_task_id == old(self).next_task_id,
    {
        match self.find_global(tag) {
            None => Err(value),
            Some(i) => {
                proof {
                    lemma_found_global_index(old(self).globals@, tag, i as int);
                }
                if self.globals[i].value.is_some() {
                    Err(value)
                } else {
                    let slot = self.globals.remove(i);
                    let GlobalSlot { tag: t0, value: _ } = slot;
                    self.globals.insert(i, GlobalSlot { tag: t0, value: Some(value) });
                    let firings = collect_and_prune(
                        &mut self.global_observers,
                        tag,
                        &self.entities,
                    );
                    proof {
                        assert(self.globals@ =~= old(self).globals@.update(
                            i as int,
                            (GlobalSlot { tag, value: Some(value) }),
                        ));
                        lemma_found_global_index(self.globals@, tag, i as int);
                        lemma_seq_kept_distinct(
                            old(self).global_observers@,
                            prune_keep(tag, old(self).entities@),
                            sub_of(),
                        );
                        lemma_seq_kept_bounded(
                            old(self).global_observers@,
                            prune_keep(tag, old(self).entities@),
                            sub_of(),
                            self.next_subscription_id,
                        );
                    }
                    Ok(firings)
                }
            },
        }
    }

    /// Pops the oldest deferred effect and decides its dispatch: for a
    /// `Notify`, clears the pending mark and lists the live observers of the
    /// emitter; for an `Emit`, hands the event out with the live event
    /// listeners. Either way, dead watchers of the drained key are pruned.
    pub fn drain_effect(&mut self) -> (r: Option<Dispatch<E>>)
        requires
            old(self).wf(),
        ensures
            final(self).wf(),
            r is Some <==> old(self).pending_effects@.len() > 0,
            old(self).pending_effects@.len() == 0 ==> *final(self) == *old(self),
            old(self).pending_effects@.len() > 0 ==> {
                &&& final(self).pending_effects@ == old(self).pending_effects@.subrange(
                    1,
                    old(self).pending_effects@.len() as int,
                )
                &&& final(self).entities@ == old(self).entities@
                &&& final(self).globals@ == old(self).globals@
                &&& final(self).tasks@ == old(self).tasks@
                &&& final(self).release_listeners@ == old(self).release_listeners@
                &&& final(self).global_observers@ == old(self).global_observers@
                &&& final(self).quit_observers@ == old(self).quit_observers@
                &&& final(self).next_entity_id == old(self).next_entity_id
                &&& final(self).next_subscription_id == old(self).next_subscription_id
                &&& final(self).next_task_id == old(self).next_task_id
                &&& (old(self).pending_effects@[0] matches Effect::Notify { emitter } ==> {
                    &&& r matches Some(Dispatch::Notify { emitter: em, observers })
                    &&& em == emitter
                    &&& observers@ == firings_of(
                        old(self).observers@,
                        emitter.id,
                        old(self).entities@,
                    )
                    &&& final(self).observers@ == pruned(
                        old(self).observers@,
                        emitter.id,
                        old(self).entities@,
                    )
                    &&& final(self).event_listeners@ == old(self).event_listeners@
                    &&& final(self).pending_notifications@ == marks_without(
                        old(self).pending_notifications@,
                        emitter.id,
                    )
                })
                &&& (old(self).pending_effects@[0] matches Effect::Emit { emitter, event } ==> {
                    &&& r matches Some(Dispatch::Emit { emitter: em, event: ev, listeners })
                    &&& em == emitter
                    &&& ev == event
                    &&& listeners@ == firings_of(
                        old(self).event_listeners@,
                        emitter.id,
                        old(self).entities@,
                    )
                    &&& final(self).event_listeners@ == pruned(
                        old(self).event_listeners@,
                        emitter.id,
                        old(self).entities@,
                    )
                    &&& final(self).observers@ == old(self).observers@
                    &&& final(self).pending_notifications@ == old(self).pending_notifications@
                })
            },
    {
        if self.pending_effects.len() == 0 {
            return None;
        }
        let eff = self.pending_effects.remove(0);
        proof {
            let oldq = old(self).pending_effects@;
            assert(self.pending_effects@ =~= oldq.subrange(1, oldq.len() as int));
        }
        match eff {
            Effect::Notify { emitter } => {
                remove_mark(&mut self.pending_notifications, emitter.id);
                let observers = collect_and_prune(&mut self.observers, emitter.id, &self.entities);
                proof {
                    lemma_seq_kept_distinct(
                        old(self).observers@,
                        prune_keep(emitter.id, old(self).entities@),
                        sub_of(),
                    );
                    lemma_seq_kept_bounded(
                        old(self).observers@,
                        prune_keep(emitter.id, old(self).entities@),
                        sub_of(),
                        self.next_subscription_id,
                    );
                    lemma_seq_kept_distinct(
                        old(self).pending_notifications@,
                        not_mark_keep(emitter.id),
                        mark_of(),
                    );
                    lemma_seq_kept_still_contains(
                        old(self).pending_notifications@,
                        not_mark_keep(emitter.id),
                    );
                    let oldq = old(self).pending_effects@;
                    let newq = self.pending_effects@;
                    assert(notify_emitter(oldq[0]) == Some(emitter.id));
                    assert forall|a: int|
                        0 <= a < newq.len() implies (notify_emitter(#[trigger] newq[a]) matches Some(
                        n,
                    ) ==> self.pending_notifications@.contains(n)) by {
                        assert(newq[a] == oldq[a + 1]);
                        if notify_emitter(newq[a]) is Some {
                            let n = notify_emitter(newq[a]).unwrap();
                            assert(old(self).pending_notifications@.contains(n));
                            assert(notify_emitter(oldq[0]) != notify_emitter(oldq[a + 1]));
                            assert(n != emitter.id);
                            assert((not_mark_keep(emitter.id))(n));
                        }
                    }
                    assert forall|a: int, b: int|
                        0 <= a < b < newq.len() && notify_emitter(
                            #[trigger] newq[a],
                        ) is Some implies notify_emitter(newq[a]) != notify_emitter(
                        #[trigger] newq[b],
                    ) by {
                        assert(newq[a] == oldq[a + 1]);
                        assert(newq[b] == oldq[b + 1]);
                    }
                }
                Some(Dispatch::Notify { emitter, observers })
            },
            Effect::Emit { emitter, event } => {
                let listeners = collect_and_prune(
                    &mut self.event_listeners,
                    emitter.id,
                    &self.entities,
                );
                proof {
                    lemma_seq_kept_distinct(
                        old(self).event_listeners@,
                        prune_keep(emitter.id, old(self).entities@),
                        sub_of(),
                    );
                    lemma_seq_kept_bounded(
                        old(self).event_listeners@,
                        prune_keep(emitter.id, old(self).entities@),
                        sub_of(),
                        self.next_subscription_id,
                    );
                    let oldq = old(self).pending_effects@;
                    let newq = self.pending_effects@;
                    assert forall|a: int|
                        0 <= a < newq.len() implies (notify_emitter(#[trigger] newq[a]) matches Some(
                        n,
                    ) ==> self.pending_notifications@.contains(n)) by {
                        assert(newq[a] == oldq[a + 1]);
                    }
                    assert forall|a: int, b: int|
                        0 <= a < b < newq.len() && notify_emitter(
                            #[trigger] newq[a],
                        ) is Some implies notify_emitter(newq[a]) != notify_emitter(
                        #[trigger] newq[b],
                    ) by {
                        assert(newq[a] == oldq[a + 1]);
                        assert(newq[b] == oldq[b + 1]);
                    }
                }
                Some(Dispatch::Emit { emitter, event, listeners })
            },
        }
    }

    /// Decides the quit-time dispatch: the live quit handlers, in
    /// registration order, pruning those whose watcher has died.
    pub fn quit(&mut self) -> (r: Vec<Firing>)
        requires
            old(self).wf(),
        ensures
            final(self).wf(),
            r@ == firings_of(old(self).quit_observers@, 0, old(self).entities@),
            final(self).quit_observers@ == pruned(old(self).quit_observers@, 0, old(self).entities@),
            final(self).entities@ == old(self).entities@,
            final(self).pending_notifications@ == old(self).pending_notifications@,
            final(self).pending_effects@ == old(self).pending_effects@,
            final(self).observers@ == old(self).observers@,
            final(self).event_listeners@ == old(self).event_listeners@,
            final(self).release_listeners@ == old(self).release_listeners@,
            final(self).global_observers@ == old(self).global_observers@,
            final(self).globals@ == old(self).globals@,
            final(self).tasks@ == old(self).tasks@,
            final(self).next_entity_id == old(self).next_entity_id,
            final(self).next_subscription_id == old(self).next_subscription_id,
            final(self).next_task_id == old(self).next_task_id,
    {
        let firings = collect_and_prune(&mut self.quit_observers, 0, &self.entities);
        proof {
            lemma_seq_kept_distinct(
                old(self).quit_observers@,
                prune_keep(0, old(self).entities@),
                sub_of(),
            );
            lemma_seq_kept_bounded(
                old(self).quit_observers@,
                prune_keep(0, old(self).entities@),
                sub_of(),
                self.next_subscription_id,
            );
        }
        firings
    }

    /// The index of the task record with `task_id`, if one exists.
    fn find_task(&self, task_id: u64) -> (r: Option<usize>)
        ensures
            r is Some <==> has_task(self.tasks@, task_id),
            r matches Some(i) ==> i < self.tasks@.len() && self.tasks@[i as int].task_id == task_id,
    {
        let mut i: usize = 0;
        while i < self.tasks.len()
            invariant
                i <= self.tasks@.len(),
                forall|j: int| 0 <= j < i ==> (#[trigger] self.tasks@[j]).task_id != task_id,
            decreases self.tasks@.len() - i,
        {
            if self.tasks[i].task_id == task_id {
                return Some(i);
            }
            i = i + 1;
        }
        None
    }

    /// Requests cooperative cancellation: once a task is cancelled, its
    /// pending continuations must no longer resume mutation.
    pub fn cancel_task(&mut self, task: Task)
        requires
            old(self).wf(),
        ensures
            final(self).wf(),
            !has_task(old(self).tasks@, task.task_id) ==> *final(self) == *old(self),
            has_task(old(self).tasks@, task.task_id) ==> final(self).tasks@ == old(
                self,
            ).tasks@.update(
                task_index_of(old(self).tasks@, task.task_id),
                (TaskSlot { task_id: task.task_id, cancelled: true }),
            ),
            final(self).entities@ == old(self).entities@,
            final(self).pending_notifications@ == old(self).pending_notifications@,
            final(self).pending_effects@ == old(self).pending_effects@,
            final(self).observers@ == old(self).observers@,
            final(self).event_listeners@ == old(self).event_listeners@,
            final(self).release_listeners@ == old(self).release_listeners@,
            final(self).global_observers@ == old(self).global_observers@,
            final(self).quit_observers@ == old(self).quit_observers@,
            final(self).globals@ == old(self).globals@,
            final(self).next_entity_id == old(self).next_entity_id,
            final(self).next_subscription_id == old(self).next_subscription_id,
            final(self).next_task_id == old(self).next_task_id,
    {
        match self.find_task(task.task_id) {
            None => (),
            Some(i) => {
                proof {
                    lemma_found_task_index(old(self).tasks@, task.task_id, i as int);
                }
                let slot = self.tasks.remove(i);
                self.tasks.insert(i, TaskSlot { task_id: slot.task_id, cancelled: true });
                proof {
                    assert(self.tasks@ =~= old(self).tasks@.update(
                        i as int,
                        (TaskSlot { task_id: task.task_id, cancelled: true }),
                    ));
                }
            },
        }
    }

    /// Whether a continuation of the named task may still resume mutating: the
    /// task is on record and has not been cancelled.
    pub fn task_should_resume(&self, task_id: u64) -> (r: bool)
        requires
            self.wf(),
        ensures
            r == (has_task(self.tasks@, task_id) && !task_slot_of(self.tasks@, task_id).cancelled),
    {
        match self.find_task(task_id) {
            None => false,
            Some(i) => {
                proof {
                    lemma_found_task_index(self.tasks@, task_id, i as int);
                }
                !self.tasks[i].cancelled
            },
        }
    }
}

/// Nothing of the kernel changed but (possibly) the entity storage.
pub open spec fn only_entities_changed<T, E, G>(
    pre: AppContext<T, E, G>,
    post: AppContext<T, E, G>,
) -> bool {
    &&& post.next_entity_id == pre.next_entity_id
    &&& post.next_subscription_id == pre.next_subscription_id
    &&& post.next_task_id == pre.next_task_id
    &&& post.pending_notifications@ == pre.pending_notifications@
    &&& post.pending_effects@ == pre.pending_effects@
    &&& post.observers@ == pre.observers@
    &&& post.event_listeners@ == pre.event_listeners@
    &&& post.release_listeners@ == pre.release_listeners@
    &&& post.global_observers@ == pre.global_observers@
    &&& post.quit_observers@ == pre.quit_observers@
    &&& post.globals@ == pre.globals@
    &&& post.tasks@ == pre.tasks@
}

/// What releasing the entity `id`, whose final state is `final_state`, does:
/// its slot disappears, its own release handlers and its live outside
/// watchers are handed back, every registry entry keyed by `id` is removed,
/// and nothing else changes. Watcher liveness is judged after the slot is
/// gone, so an entity watching its own release never fires as an outsider.
pub open spec fn released<T, E, G>(
    pre: AppContext<T, E, G>,
    post: AppContext<T, E, G>,
    r: Release<T>,
    id: EntityId,
    final_state: T,
) -> bool {
    &&& r.entity == id
    &&& r.state == final_state
    &&& post.entities@ == pre.entities@.remove(slot_index_of(pre.entities@, id))
    &&& r.own_listeners@ == release_own_subs(pre.release_listeners@, id)
    &&& r.observers@ == release_observer_firings(pre.release_listeners@, id, post.entities@)
    &&& post.release_listeners@ == release_remaining(pre.release_listeners@, id)
    &&& post.observers@ == without_key(pre.observers@, id.id)
    &&& post.event_listeners@ == without_key(pre.event_listeners@, id.id)
    &&& post.global_observers@ == pre.global_observers@
    &&& post.quit_observers@ == pre.quit_observers@
    &&& post.pending_notifications@ == pre.pending_notifications@
    &&& post.pending_effects@ == pre.pending_effects@
    &&& post.globals@ == pre.globals@
    &&& post.tasks@ == pre.tasks@
    &&& post.next_entity_id == pre.next_entity_id
    &&& post.next_subscription_id == pre.next_subscription_id
    &&& post.next_task_id == pre.next_task_id
}

/// Whether a slot carrying `id` is present in the storage.
fn slot_alive<T>(entities: &Vec<EntitySlot<T>>, id: EntityId) -> (r: bool)
    ensures
        r == alive(entities@, id),
{
    let mut i: usize = 0;
    while i < entities.len()
        invariant
            i <= entities@.len(),
            forall|j: int| 0 <= j < i ==> (#[trigger] entities@[j]).id != id,
        decreases entities@.len() - i,
    {
        if entities[i].id == id {
            return true;
        }
        i = i + 1;
    }
    false
}

/// Whether the pending-notification set holds `v`.
pub(crate) fn marks_contain(marks: &Vec<u64>, v: u64) -> (r: bool)
    ensures
        r == marks@.contains(v),
{
    let mut i: usize = 0;
    while i < marks.len()
        invariant
            i <= marks@.len(),
            forall|j: int| 0 <= j < i ==> (#[trigger] marks@[j]) != v,
        decreases marks@.len() - i,
    {
        if marks[i] == v {
            return true;
        }
        i = i + 1;
    }
    false
}

/// Clears the mark `v` from the pending-notification set.
fn remove_mark(marks: &mut Vec<u64>, v: u64)
    ensures
        final(marks)@ == marks_without(old(marks)@, v),
{
    let ghost t = old(marks)@;
    let mut kept_marks: Vec<u64> = Vec::new();
    let mut i: usize = 0;
    while i < marks.len()
        invariant
            marks@ == t,
            i <= t.len(),
            kept_marks@ == seq_kept(t.take(i as int), not_mark_keep(v)),
        decreases t.len() - i,
    {
        let m = marks[i];
        if m != v {
            kept_marks.push(m);
        }
        proof {
            assert(t.take(i as int + 1).drop_last() =~= t.take(i as int));
            assert(t.take(i as int + 1).last() == m);
        }
        i = i + 1;
    }
    proof {
        assert(t.take(t.len() as int) =~= t);
    }
    *marks = kept_marks;
}

/// Computes the dispatch list for `key` and prunes dead watchers, in one
/// pass over the table.
fn collect_and_prune<T>(table: &mut Vec<Listener>, key: u64, entities: &Vec<EntitySlot<T>>) -> (r:
    Vec<Firing>)
    ensures
        r@ == firings_of(old(table)@, key, entities@),
        final(table)@ == pruned(old(table)@, key, entities@),
{
    let ghost t = old(table)@;
    let mut firings: Vec<Firing> = Vec::new();
    let mut kept_tbl: Vec<Listener> = Vec::new();
    let mut i: usize = 0;
    while i < table.len()
        invariant
            table@ == t,
            i <= t.len(),
            firings@ == seq_picked(t.take(i as int), fire_pick(key, entities@)),
            kept_tbl@ == seq_kept(t.take(i as int), prune_keep(key, entities@)),
        decreases t.len() - i,
    {
        let l = table[i];
        let watcher_alive = slot_alive(entities, l.watcher);
        if l.key == key {
            if watcher_alive {
                firings.push(Firing { sub_id: l.sub_id, watcher: l.watcher });
                kept_tbl.push(l);
            }
        } else {
            kept_tbl.push(l);
        }
        proof {
            assert(t.take(i as int + 1).drop_last() =~= t.take(i as int));
            assert(t.take(i as int + 1).last() == l);
        }
        i = i + 1;
    }
    proof {
        assert(t.take(t.len() as int) =~= t);
    }
    *table = kept_tbl;
    firings
}

/// Removes every registration watching `key`.
fn remove_key_entries(table: &mut Vec<Listener>, key: u64)
    ensures
        final(table)@ == without_key(old(table)@, key),
{
    let ghost t = old(table)@;
    let mut kept_tbl: Vec<Listener> = Vec::new();
    let mut i: usize = 0;
    while i < table.len()
        invariant
            table@ == t,
            i <= t.len(),
            kept_tbl@ == seq_kept(t.take(i as int), not_key_keep(key)),
        decreases t.len() - i,
    {
        let l = table[i];
        if l.key != key {
            kept_tbl.push(l);
        }
        proof {
            assert(t.take(i as int + 1).drop_last() =~= t.take(i as int));
            assert(t.take(i as int + 1).last() == l);
        }
        i = i + 1;
    }
    proof {
        assert(t.take(t.len() as int) =~= t);
    }
    *table = kept_tbl;
}

/// Detaches the registration carrying `sub_id`, if present.
fn remove_sub_entry(table: &mut Vec<Listener>, sub_id: u64)
    ensures
        final(table)@ == without_sub(old(table)@, sub_id),
{
    let ghost t = old(table)@;
    let mut kept_tbl: Vec<Listener> = Vec::new();
    let mut i: usize = 0;
    while i < table.len()
        invariant
            table@ == t,
            i <= t.len(),
            kept_tbl@ == seq_kept(t.take(i as int), not_sub_keep(sub_id)),
        decreases t.len() - i,
    {
        let l = table[i];
        if l.sub_id != sub_id {
            kept_tbl.push(l);
        }
        proof {
            assert(t.take(i as int + 1).drop_last() =~= t.take(i as int));
            assert(t.take(i as int + 1).last() == l);
        }
        i = i + 1;
    }
    proof {
        assert(t.take(t.len() as int) =~= t);
    }
    *table = kept_tbl;
}

/// Detaches the release listener carrying `sub_id`, if present.
fn remove_rel_sub_entry(table: &mut Vec<ReleaseListener>, sub_id: u64)
    ensures
        final(table)@ == release_without_sub(old(table)@, sub_id),
{
    let ghost t = old(table)@;
    let mut kept_tbl: Vec<ReleaseListener> = Vec::new();
    let mut i: usize = 0;
    while i < table.len()
        invariant
            table@ == t,
            i <= t.len(),
            kept_tbl@ == seq_kept(t.take(i as int), rel_not_sub_keep(sub_id)),
        decreases t.len() - i,
    {
        let l = table[i];
        if l.sub_id != sub_id {
            kept_tbl.push(l);
        }
        proof {
            assert(t.take(i as int + 1).drop_last() =~= t.take(i as int));
            assert(t.take(i as int + 1).last() == l);
        }
        i = i + 1;
    }
    proof {
        assert(t.take(t.len() as int) =~= t);
    }
    *table = kept_tbl;
}

/// Splits the release table at `id`'s release: the entity's own handlers,
/// the live outside watchers, and the remaining table (everything not
/// watching `id`), each in registration order.
fn release_collect<T>(
    table: &mut Vec<ReleaseListener>,
    id: EntityId,
    entities: &Vec<EntitySlot<T>>,
) -> (r: (Vec<u64>, Vec<Firing>))
    ensures
        r.0@ == release_own_subs(old(table)@, id),
        r.1@ == release_observer_firings(old(table)@, id, entities@),
        final(table)@ == release_remaining(old(table)@, id),
{
    let ghost t = old(table)@;
    let mut own: Vec<u64> = Vec::new();
    let mut obs: Vec<Firing> = Vec::new();
    let mut kept_tbl: Vec<ReleaseListener> = Vec::new();
    let mut i: usize = 0;
    while i < table.len()
        invariant
            table@ == t,
            i <= t.len(),
            own@ == seq_picked(t.take(i as int), own_release_pick(id)),
            obs@ == seq_picked(t.take(i as int), release_observer_pick(id, entities@)),
            kept_tbl@ == seq_kept(t.take(i as int), rel_not_watched_keep(id)),
        decreases t.len() - i,
    {
        let l = table[i];
        if l.watched == id {
            match l.watcher {
                None => own.push(l.sub_id),
                Some(w) => {
                    if slot_alive(entities, w) {
                        obs.push(Firing { sub_id: l.sub_id, watcher: w });
                    }
                },
            }
        } else {
            kept_tbl.push(l);
        }
        proof {
            assert(t.take(i as int + 1).drop_last() =~= t.take(i as int));
            assert(t.take(i as int + 1).last() == l);
        }
        i = i + 1;
    }
    proof {
        assert(t.take(t.len() as int) =~= t);
    }
    *table = kept_tbl;
    (own, obs)
}

/// In a table of unique global tags, any index whose slot carries `tag` is
/// the one `global_index_of` picks.
pub proof fn lemma_found_global_index<G>(globals: Seq<GlobalSlot<G>>, tag: u64, i: int)
    requires
        0 <= i < globals.len(),
        globals[i].tag == tag,
        forall|a: int, b: int|
            0 <= a < b < globals.len() ==> (#[trigger] globals[a]).tag != (
            #[trigger] globals[b]).tag,
    ensures
        global_index_of(globals, tag) == i,
        global_slot_of(globals, tag) == globals[i],
        has_global(globals, tag),
{
    assert(has_global(globals, tag));
    let j = global_index_of(globals, tag);
    assert(0 <= j < globals.len() && globals[j].tag == tag);
    if i < j {
        assert(globals[i].tag != globals[j].tag);
    } else if j < i {
        assert(globals[j].tag != globals[i].tag);
    }
}

/// In a table of unique task identifiers, any index whose record carries
/// `task_id` is the one `task_index_of` picks.
pub proof fn lemma_found_task_index(tasks: Seq<TaskSlot>, task_id: u64, i: int)
    requires
        0 <= i < tasks.len(),
        tasks[i].task_id == task_id,
        forall|a: int, b: int|
            0 <= a < b < tasks.len() ==> (#[trigger] tasks[a]).task_id != (
            #[trigger] tasks[b]).task_id,
    ensures
        task_index_of(tasks, task_id) == i,
        task_slot_of(tasks, task_id) == tasks[i],
        has_task(tasks, task_id),
{
    assert(has_task(tasks, task_id));
    let j = task_index_of(tasks, task_id);
    assert(0 <= j < tasks.len() && tasks[j].task_id == task_id);
    if i < j {
        assert(tasks[i].task_id != tasks[j].task_id);
    } else if j < i {
        assert(tasks[j].task_id != tasks[i].task_id);
    }
}

/// In a table of unique entity identifiers, any index whose slot carries
/// `id` is the one `slot_index_of` picks.
pub proof fn lemma_found_index_is_slot_index<T>(entities: Seq<EntitySlot<T>>, id: EntityId, i: int)
    requires
        0 <= i < entities.len(),
        entities[i].id == id,
        forall|a: int, b: int|
            0 <= a < b < entities.len() ==> (#[trigger] entities[a]).id != (
            #[trigger] entities[b]).id,
    ensures
        slot_index_of(entities, id) == i,
        slot_of(entities, id) == entities[i],
        alive(entities, id),
{
    assert(alive(entities, id));
    let j = slot_index_of(entities, id);
    assert(0 <= j < entities.len() && entities[j].id == id);
    if i < j {
        assert(entities[i].id != entities[j].id);
    } else if j < i {
        assert(entities[j].id != entities[i].id);
    }
}

} // verus!
