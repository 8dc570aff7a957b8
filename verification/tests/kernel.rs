use entity_kernel::{
    AppContext, Dispatch, EntityId, KernelError, Model, ModelContext, Release, Subscription,
    SubscriptionTable,
};

type App = AppContext<u64, u64, u64>;
type Cx = ModelContext<u64, u64, u64>;

fn begin(app: App, id: EntityId) -> (Cx, u64) {
    match app.update(id) {
        Ok(pair) => pair,
        Err((_, e)) => panic!("could not begin the update: {:?}", e),
    }
}

fn finish(cx: Cx, state: u64) -> App {
    let (app, release) = cx.finish_update(state);
    assert!(release.is_none());
    app
}

#[test]
fn fresh_kernel_is_empty() {
    let app = App::new();
    assert_eq!(app.entities.len(), 0);
    assert_eq!(app.pending_effects.len(), 0);
    assert!(!app.is_alive(EntityId { id: 0 }));
}

#[test]
fn build_model_hands_out_increasing_ids() {
    let mut app = App::new();
    let a = app.build_model(10);
    let b = app.build_model(20);
    assert_eq!(a.entity_id(), EntityId { id: 0 });
    assert_eq!(b.entity_id(), EntityId { id: 1 });
    assert!(app.is_alive(a.entity_id()));
    assert!(app.is_alive(b.entity_id()));
}

#[test]
fn update_checks_state_out_and_back_in() {
    let mut app = App::new();
    let a = app.build_model(41);
    let (cx, state) = begin(app, a.entity_id());
    assert_eq!(state, 41);
    assert_eq!(cx.entity_id(), a.entity_id());
    let app = finish(cx, state + 1);
    let (cx, state) = begin(app, a.entity_id());
    assert_eq!(state, 42);
    let mut app = finish(cx, state);
    assert!(app.drop_model(a).is_some());
}

#[test]
fn update_of_dead_entity_is_refused() {
    let app = App::new();
    match app.update(EntityId { id: 7 }) {
        Ok(_) => panic!("a dead entity must not enter a mutation scope"),
        Err((_, e)) => assert_eq!(e, KernelError::EntityNotFound),
    }
}

#[test]
fn nested_update_of_same_entity_is_refused() {
    let mut app = App::new();
    let a = app.build_model(1);
    let (mut cx, state) = begin(app, a.entity_id());
    let inner = cx.app;
    match inner.update(a.entity_id()) {
        Ok(_) => panic!("re-entering the same entity's scope must fail fast"),
        Err((app_back, e)) => {
            assert_eq!(e, KernelError::AlreadyUpdating);
            cx.app = app_back;
        }
    }
    finish(cx, state);
}

#[test]
fn observer_runs_exactly_once_per_notify() {
    let mut app = App::new();
    let a = app.build_model(100);
    let b = app.build_model(200);
    // entity B watches A's notify channel, from B's own mutation scope
    let (mut cx, state) = begin(app, b.entity_id());
    let sub = cx.observe(&a);
    let app = finish(cx, state);
    // a mutation of A requests a notification
    let (mut cx, state) = begin(app, a.entity_id());
    cx.notify();
    let mut app = finish(cx, state + 1);
    match app.drain_effect() {
        Some(Dispatch::Notify { emitter, observers }) => {
            assert_eq!(emitter, a.entity_id());
            assert_eq!(observers.len(), 1);
            assert_eq!(observers[0].sub_id, sub.sub_id);
            assert_eq!(observers[0].watcher, b.entity_id());
        }
        _ => panic!("one notify dispatch was owed"),
    }
    assert!(app.drain_effect().is_none());
    // the registration persists: a later notify fires it again
    let (mut cx, state) = begin(app, a.entity_id());
    cx.notify();
    let mut app = finish(cx, state);
    match app.drain_effect() {
        Some(Dispatch::Notify { observers, .. }) => assert_eq!(observers.len(), 1),
        _ => panic!("the surviving observer was owed a second dispatch"),
    }
}

#[test]
fn notify_is_idempotent_within_one_mutation() {
    let mut app = App::new();
    let a = app.build_model(0);
    let (mut cx, state) = begin(app, a.entity_id());
    cx.notify();
    cx.notify();
    cx.notify();
    let mut app = finish(cx, state);
    assert_eq!(app.pending_effects.len(), 1);
    assert!(matches!(app.drain_effect(), Some(Dispatch::Notify { .. })));
    assert!(app.drain_effect().is_none());
    // the pending mark was cleared by the drain: the next mutation's notify
    // queues a fresh effect
    let (mut cx, state) = begin(app, a.entity_id());
    cx.notify();
    let mut app = finish(cx, state);
    assert_eq!(app.pending_effects.len(), 1);
    assert!(app.drain_effect().is_some());
}

#[test]
fn dead_watcher_is_pruned_and_does_not_run() {
    let mut app = App::new();
    let a = app.build_model(1);
    let b = app.build_model(2);
    let (mut cx, state) = begin(app, b.entity_id());
    cx.observe(&a);
    let mut app = finish(cx, state);
    // the watcher dies before the watched entity's next notify
    assert!(app.drop_model(b).is_some());
    let (mut cx, state) = begin(app, a.entity_id());
    cx.notify();
    let mut app = finish(cx, state);
    match app.drain_effect() {
        Some(Dispatch::Notify { observers, .. }) => assert_eq!(observers.len(), 0),
        _ => panic!("the notify effect itself still drains"),
    }
    // the registration was pruned, not merely skipped
    assert_eq!(app.observers.len(), 0);
}

#[test]
fn emit_preserves_multiplicity_and_order() {
    let mut app = App::new();
    let a = app.build_model(1);
    let b = app.build_model(2);
    let (mut cx, state) = begin(app, b.entity_id());
    let sub = cx.subscribe(&a);
    let app = finish(cx, state);
    let (mut cx, state) = begin(app, a.entity_id());
    cx.emit(7);
    cx.emit(8);
    cx.emit(8);
    let mut app = finish(cx, state);
    assert_eq!(app.pending_effects.len(), 3);
    for expected in [7u64, 8, 8] {
        match app.drain_effect() {
            Some(Dispatch::Emit { emitter, event, listeners }) => {
                assert_eq!(emitter, a.entity_id());
                assert_eq!(event, expected);
                assert_eq!(listeners.len(), 1);
                assert_eq!(listeners[0].sub_id, sub.sub_id);
                assert_eq!(listeners[0].watcher, b.entity_id());
            }
            _ => panic!("every emit call was owed its own dispatch"),
        }
    }
    assert!(app.drain_effect().is_none());
}

#[test]
fn notifies_coalesce_while_emits_do_not() {
    let mut app = App::new();
    let a = app.build_model(0);
    let (mut cx, state) = begin(app, a.entity_id());
    cx.notify();
    cx.emit(1);
    cx.notify();
    cx.emit(1);
    let app = finish(cx, state);
    // one coalesced notify, two distinct emits
    assert_eq!(app.pending_effects.len(), 3);
}

#[test]
fn nested_lease_of_same_global_fails_fast() {
    let mut app = App::new();
    let a = app.build_model(0);
    assert!(app.set_global(1, 500).is_ok());
    let (mut cx, state) = begin(app, a.entity_id());
    let mut lease = match cx.update_global(1) {
        Ok(lease) => lease,
        Err(e) => panic!("the first lease was owed: {:?}", e),
    };
    assert_eq!(lease.value, 500);
    // the slot is empty while leased: a nested lease of the same tag fails
    match cx.update_global(1) {
        Err(e) => assert_eq!(e, KernelError::GlobalAlreadyLeased),
        Ok(_) => panic!("a nested lease of the same tag must fail fast"),
    }
    lease.value = 501;
    assert!(cx.end_update_global(lease).is_ok());
    // after checkin the global can be leased again and holds the new value
    let lease = cx.update_global(1).unwrap_or_else(|_| panic!("re-lease owed"));
    assert_eq!(lease.value, 501);
    assert!(cx.end_update_global(lease).is_ok());
    finish(cx, state);
}

#[test]
fn nested_leases_of_distinct_globals_both_complete() {
    let mut app = App::new();
    let a = app.build_model(0);
    let b = app.build_model(9);
    assert!(app.set_global(1, 10).is_ok());
    assert!(app.set_global(2, 20).is_ok());
    // B watches both globals
    let (mut cx, state) = begin(app, b.entity_id());
    let sub_g1 = cx.observe_global(1);
    let sub_g2 = cx.observe_global(2);
    let app = finish(cx, state);
    let (mut cx, state) = begin(app, a.entity_id());
    let mut lease1 = cx.update_global(1).unwrap_or_else(|_| panic!("outer lease owed"));
    // with the first lease outstanding, a different tag leases fine
    let mut lease2 = cx.update_global(2).unwrap_or_else(|_| panic!("inner lease owed"));
    lease1.value += 1;
    lease2.value += 2;
    let fired2 = cx.end_update_global(lease2).unwrap_or_else(|_| panic!("inner checkin owed"));
    assert_eq!(fired2.len(), 1);
    assert_eq!(fired2[0].sub_id, sub_g2.sub_id);
    assert_eq!(fired2[0].watcher, b.entity_id());
    let fired1 = cx.end_update_global(lease1).unwrap_or_else(|_| panic!("outer checkin owed"));
    assert_eq!(fired1.len(), 1);
    assert_eq!(fired1[0].sub_id, sub_g1.sub_id);
    let lease = cx.update_global(1).unwrap_or_else(|_| panic!("lease owed"));
    assert_eq!(lease.value, 11);
    assert!(cx.end_update_global(lease).is_ok());
    finish(cx, state);
}

#[test]
fn missing_global_is_reported() {
    let mut app = App::new();
    let a = app.build_model(0);
    let (mut cx, state) = begin(app, a.entity_id());
    match cx.update_global(99) {
        Err(e) => assert_eq!(e, KernelError::GlobalNotFound),
        Ok(_) => panic!("no slot with that tag exists"),
    }
    finish(cx, state);
}

#[test]
fn weak_handle_upgrades_only_while_alive() {
    let mut app = App::new();
    let a = app.build_model(77);
    let weak = a.downgrade();
    // captured while alive: upgrades to a handle referencing identical state
    let strong = match app.upgrade(&weak) {
        Some(m) => m,
        None => panic!("upgrade of a live entity was owed"),
    };
    assert_eq!(strong.entity_id(), a.entity_id());
    let (cx, state) = begin(app, strong.entity_id());
    assert_eq!(state, 77);
    let mut app = finish(cx, state);
    // both claims must go before the entity dies
    assert!(app.drop_model(strong).is_none());
    assert!(app.drop_model(a).is_some());
    // captured before the release, dead after it
    assert!(app.upgrade(&weak).is_none());
    assert!(!app.is_alive(weak.entity_id()));
}

#[test]
fn release_handler_fires_exactly_once_with_final_state() {
    let mut app = App::new();
    let a = app.build_model(5);
    let (mut cx, state) = begin(app, a.entity_id());
    let sub = cx.on_release();
    let mut app = finish(cx, state + 1);
    let release: Release<u64> = match app.drop_model(a) {
        Some(r) => r,
        None => panic!("dropping the last claim releases the entity"),
    };
    assert_eq!(release.entity, EntityId { id: 0 });
    assert_eq!(release.state, 6);
    assert_eq!(release.own_listeners, vec![sub.sub_id]);
    assert_eq!(release.observers.len(), 0);
    // a second release attempt is a no-op
    assert!(app.drop_model(Model { id: EntityId { id: 0 } }).is_none());
    assert_eq!(app.release_listeners.len(), 0);
}

#[test]
fn observe_release_fires_only_for_live_watchers() {
    let mut app = App::new();
    let a = app.build_model(1);
    let b = app.build_model(2);
    let c = app.build_model(3);
    let (mut cx, state) = begin(app, b.entity_id());
    let sub_b = cx.observe_release(&a);
    let app = finish(cx, state);
    let (mut cx, state) = begin(app, c.entity_id());
    cx.observe_release(&a);
    let mut app = finish(cx, state);
    // C dies before A does: only B's registration fires
    assert!(app.drop_model(c).is_some());
    let release = app.drop_model(a).expect("the last claim releases A");
    assert_eq!(release.own_listeners.len(), 0);
    assert_eq!(release.observers.len(), 1);
    assert_eq!(release.observers[0].sub_id, sub_b.sub_id);
    assert_eq!(release.observers[0].watcher, b.entity_id());
}

#[test]
fn release_removes_registrations_keyed_by_the_entity() {
    let mut app = App::new();
    let a = app.build_model(1);
    let b = app.build_model(2);
    let (mut cx, state) = begin(app, b.entity_id());
    cx.observe(&a);
    cx.subscribe(&a);
    let app = finish(cx, state);
    // A queues a notify, then dies before the drain
    let (mut cx, state) = begin(app, a.entity_id());
    cx.notify();
    let mut app = finish(cx, state);
    assert!(app.drop_model(a).is_some());
    assert_eq!(app.observers.len(), 0);
    assert_eq!(app.event_listeners.len(), 0);
    // the queued effect still drains, harmlessly, with nothing to dispatch
    match app.drain_effect() {
        Some(Dispatch::Notify { observers, .. }) => assert_eq!(observers.len(), 0),
        _ => panic!("the queued effect still drains"),
    }
    assert!(app.drain_effect().is_none());
}

#[test]
fn deferred_release_when_last_claim_goes_mid_mutation() {
    let mut app = App::new();
    let a = app.build_model(13);
    let weak = a.downgrade();
    let (mut cx, state) = begin(app, a.entity_id());
    let sub = cx.on_release();
    // the only strong claim is given up while the state is checked out
    assert!(cx.app.drop_model(a).is_none());
    // with no claims left the weak handle already fails to upgrade
    assert!(cx.app.upgrade(&weak).is_none());
    let (mut app, release) = cx.finish_update(state + 1);
    let release = release.expect("the release was deferred to the scope's end");
    assert_eq!(release.state, 14);
    assert_eq!(release.own_listeners, vec![sub.sub_id]);
    assert!(!app.is_alive(weak.entity_id()));
    assert!(app.upgrade(&weak).is_none());
}

#[test]
fn handle_upgrades_the_scope_own_weak_handle() {
    let mut app = App::new();
    let a = app.build_model(3);
    let (mut cx, state) = begin(app, a.entity_id());
    let weak = cx.weak_model();
    assert_eq!(weak.entity_id(), a.entity_id());
    let strong = cx.handle();
    assert_eq!(strong.entity_id(), a.entity_id());
    let mut app = finish(cx, state);
    assert!(app.drop_model(strong).is_none());
    assert!(app.drop_model(a).is_some());
}

#[test]
fn detach_removes_one_registration() {
    let mut app = App::new();
    let a = app.build_model(1);
    let b = app.build_model(2);
    let (mut cx, state) = begin(app, b.entity_id());
    let sub1 = cx.observe(&a);
    let _sub2 = cx.observe(&a);
    let mut app = finish(cx, state);
    assert_eq!(app.observers.len(), 2);
    let kept_sub = sub1.sub_id;
    app.detach(sub1);
    assert_eq!(app.observers.len(), 1);
    assert_ne!(app.observers[0].sub_id, kept_sub);
    // disposing an already-pruned subscription is a no-op
    app.detach(Subscription { table: SubscriptionTable::Observers, sub_id: kept_sub });
    assert_eq!(app.observers.len(), 1);
    let (mut cx, state) = begin(app, a.entity_id());
    cx.notify();
    let mut app = finish(cx, state);
    match app.drain_effect() {
        Some(Dispatch::Notify { observers, .. }) => assert_eq!(observers.len(), 1),
        _ => panic!("the remaining observer still fires"),
    }
}

#[test]
fn spawned_task_skips_mutation_after_entity_death() {
    let mut app = App::new();
    let a = app.build_model(1);
    let (mut cx, state) = begin(app, a.entity_id());
    let (task, weak) = cx.spawn();
    let mut app = finish(cx, state);
    // the entity dies before the continuation resumes
    assert!(app.drop_model(a).is_some());
    // the task itself is still allowed to run ...
    assert!(app.task_should_resume(task.task_id));
    // ... but its attempted re-mutation is skipped, without a panic
    match app.upgrade(&weak) {
        None => (),
        Some(_) => panic!("a weak handle must not upgrade after the release"),
    }
    // and the task completes; a cancelled task stops resuming
    app.cancel_task(task);
    assert!(!app.task_should_resume(0));
}

#[test]
fn cancelled_task_does_not_resume() {
    let mut app = App::new();
    let a = app.build_model(1);
    let (mut cx, state) = begin(app, a.entity_id());
    let (task, _weak) = cx.spawn();
    let id = task.task_id;
    let mut app = finish(cx, state);
    assert!(app.task_should_resume(id));
    app.cancel_task(task);
    assert!(!app.task_should_resume(id));
}

#[test]
fn quit_handlers_fire_for_live_watchers_only() {
    let mut app = App::new();
    let a = app.build_model(1);
    let b = app.build_model(2);
    let (mut cx, state) = begin(app, a.entity_id());
    let sub_a = cx.on_app_quit();
    let app = finish(cx, state);
    let (mut cx, state) = begin(app, b.entity_id());
    cx.on_app_quit();
    let mut app = finish(cx, state);
    assert!(app.drop_model(b).is_some());
    let fired = app.quit();
    assert_eq!(fired.len(), 1);
    assert_eq!(fired[0].sub_id, sub_a.sub_id);
    assert_eq!(fired[0].watcher, a.entity_id());
    assert_eq!(app.quit_observers.len(), 1);
}

#[test]
fn nested_update_of_a_different_entity_succeeds() {
    let mut app = App::new();
    let a = app.build_model(1);
    let b = app.build_model(2);
    let (mut cx_a, state_a) = begin(app, a.entity_id());
    // re-entrant mutation of another entity while A's scope is open
    let inner = cx_a.app;
    let (cx_b, state_b) = begin(inner, b.entity_id());
    assert_eq!(state_b, 2);
    cx_a.app = finish(cx_b, state_b + 1);
    let app = finish(cx_a, state_a);
    let (cx, state) = begin(app, b.entity_id());
    assert_eq!(state, 3);
    finish(cx, state);
}

#[test]
fn observing_own_release_never_fires() {
    let mut app = App::new();
    let a = app.build_model(1);
    let (mut cx, state) = begin(app, a.entity_id());
    let handle = cx.handle();
    // watcher liveness is judged after the slot is gone, so an entity
    // watching its own release is already dead when the dispatch is decided
    cx.observe_release(&handle);
    let mut app = finish(cx, state);
    assert!(app.drop_model(handle).is_none());
    let release = app.drop_model(a).expect("the last claim releases A");
    assert_eq!(release.own_listeners.len(), 0);
    assert_eq!(release.observers.len(), 0);
}

#[test]
fn set_global_replaces_but_never_while_leased() {
    let mut app = App::new();
    let a = app.build_model(0);
    assert!(app.set_global(4, 40).is_ok());
    assert!(app.set_global(4, 44).is_ok());
    let (mut cx, state) = begin(app, a.entity_id());
    let lease = cx.update_global(4).unwrap_or_else(|_| panic!("lease owed"));
    assert_eq!(lease.value, 44);
    assert_eq!(cx.app.set_global(4, 45), Err(KernelError::GlobalAlreadyLeased));
    assert!(cx.end_update_global(lease).is_ok());
    finish(cx, state);
}
