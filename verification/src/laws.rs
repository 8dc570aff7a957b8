//! Proved laws relating the kernel's operations: what the contracts of the
//! executable functions promise piecewise is here stated and proved as
//! whole-protocol facts about the dispatch and notify transitions.

use vstd::prelude::*;

use crate::app::AppContext;
use crate::specs::{
    alive, distinct_by, fire_pick, fires, firing_sub_of, firings_of, global_index_of,
    global_slot_of, has_global, lemma_seq_kept_contains, lemma_seq_kept_pred,
    lemma_seq_picked_distinct, lemma_seq_picked_from, lemma_seq_picked_in, listeners_wf, mark_of,
    notify_emitter, notify_marks, notify_queue, own_release_pick, prune_keep, pruned,
    rel_sub_of, release_listeners_wf, release_own_subs, slot_index_of, sub_of,
};
use crate::types::{
    Effect, EntityId, EntitySlot, Firing, GlobalSlot, Listener, ReleaseListener,
};

verus! {

/// Requesting a notification twice within one mutation queues it once: the
/// second request finds the entity already pending and changes nothing, so
/// any number of requests drain as a single `Notify` effect.
pub proof fn lemma_notify_idempotent<E>(marks: Seq<u64>, queue: Seq<Effect<E>>, id: EntityId)
    ensures
        notify_marks(notify_marks(marks, id), id) == notify_marks(marks, id),
        notify_queue(notify_marks(marks, id), notify_queue(marks, queue, id), id) == notify_queue(
            marks,
            queue,
            id,
        ),
{
    assert(notify_marks(marks, id).contains(id.id)) by {
        if !marks.contains(id.id) {
            assert(notify_marks(marks, id).last() == id.id);
        }
    }
}

/// A well-formed kernel's queue never holds two `Notify` effects for one
/// emitter: however a mutation interleaved its notify requests, at most one
/// coalesced effect per entity awaits the drain.
pub proof fn lemma_at_most_one_notify<T, E, G>(app: AppContext<T, E, G>, a: int, b: int)
    requires
        app.wf(),
        0 <= a < b < app.pending_effects@.len(),
        notify_emitter(app.pending_effects@[a]) is Some,
    ensures
        notify_emitter(app.pending_effects@[a]) != notify_emitter(app.pending_effects@[b]),
{
}

/// A registration that fires appears in the dispatch list exactly once: the
/// list contains its entry, and no two entries of the list carry one
/// subscription identifier. This is what makes "the handler runs exactly
/// once per drained effect" true for notify observers, event listeners, and
/// global observers alike.
pub proof fn lemma_listener_fires_exactly_once<T>(
    table: Seq<Listener>,
    key: u64,
    entities: Seq<EntitySlot<T>>,
    j: int,
    next_sub: u64,
)
    requires
        listeners_wf(table, next_sub),
        0 <= j < table.len(),
        fires(table[j], key, entities),
    ensures
        firings_of(table, key, entities).contains(
            (Firing { sub_id: table[j].sub_id, watcher: table[j].watcher }),
        ),
        distinct_by(firings_of(table, key, entities), firing_sub_of()),
{
    lemma_seq_picked_in(
        table,
        fire_pick(key, entities),
        j,
        (Firing { sub_id: table[j].sub_id, watcher: table[j].watcher }),
    );
    assert forall|a: Listener|
        (#[trigger] (fire_pick(key, entities))(a) matches Some(b) ==> (firing_sub_of())(b) == (
        sub_of())(a)) by {}
    lemma_seq_picked_distinct(table, fire_pick(key, entities), sub_of(), firing_sub_of());
}

/// A watcher that died before the watched key's next dispatch neither fires
/// nor survives: its registration is absent from the dispatch list and
/// pruned from the surviving table.
pub proof fn lemma_dead_watcher_pruned<T>(
    table: Seq<Listener>,
    key: u64,
    entities: Seq<EntitySlot<T>>,
    j: int,
    next_sub: u64,
)
    requires
        listeners_wf(table, next_sub),
        0 <= j < table.len(),
        table[j].key == key,
        !alive(entities, table[j].watcher),
    ensures
        forall|i: int|
            0 <= i < firings_of(table, key, entities).len() ==> (#[trigger] firings_of(
                table,
                key,
                entities,
            )[i]).sub_id != table[j].sub_id,
        forall|i: int|
            0 <= i < pruned(table, key, entities).len() ==> (#[trigger] pruned(
                table,
                key,
                entities,
            )[i]).sub_id != table[j].sub_id,
{
    lemma_seq_picked_from(table, fire_pick(key, entities));
    let fs = firings_of(table, key, entities);
    assert forall|i: int| 0 <= i < fs.len() implies (#[trigger] fs[i]).sub_id
        != table[j].sub_id by {
        let a = choose|a: int|
            0 <= a < table.len() && (fire_pick(key, entities))(#[trigger] table[a]) == Some(fs[i]);
        if fs[i].sub_id == table[j].sub_id {
            assert((fire_pick(key, entities))(table[j]) is None);
            assert(a != j);
            if a < j {
                assert((sub_of())(table[a]) != (sub_of())(table[j]));
            } else {
                assert((sub_of())(table[j]) != (sub_of())(table[a]));
            }
        }
    }
    lemma_seq_kept_contains(table, prune_keep(key, entities));
    lemma_seq_kept_pred(table, prune_keep(key, entities));
    let ps = pruned(table, key, entities);
    assert forall|i: int| 0 <= i < ps.len() implies (#[trigger] ps[i]).sub_id
        != table[j].sub_id by {
        if ps[i].sub_id == table[j].sub_id {
            assert(ps.contains(ps[i]));
            let a = choose|a: int| 0 <= a < table.len() && table[a] == ps[i];
            if a == j {
                assert((prune_keep(key, entities))(table[j]));
            } else if a < j {
                assert((sub_of())(table[a]) != (sub_of())(table[j]));
            } else {
                assert((sub_of())(table[j]) != (sub_of())(table[a]));
            }
        }
    }
}

/// Leasing one global tag leaves every other tag's slot untouched: a nested
/// lease of a different tag finds its slot exactly as it was, so unrelated
/// leases never interfere.
pub proof fn lemma_lease_preserves_other_tags<G>(
    globals: Seq<GlobalSlot<G>>,
    tag1: u64,
    tag2: u64,
)
    requires
        forall|a: int, b: int|
            0 <= a < b < globals.len() ==> (#[trigger] globals[a]).tag != (
            #[trigger] globals[b]).tag,
        has_global(globals, tag1),
        tag1 != tag2,
    ensures
        has_global(
            globals.update(global_index_of(globals, tag1), (GlobalSlot { tag: tag1, value: None })),
            tag2,
        ) == has_global(globals, tag2),
        has_global(globals, tag2) ==> global_slot_of(
            globals.update(global_index_of(globals, tag1), (GlobalSlot { tag: tag1, value: None })),
            tag2,
        ) == global_slot_of(globals, tag2),
{
    let i1 = global_index_of(globals, tag1);
    assert(0 <= i1 < globals.len() && globals[i1].tag == tag1);
    let upd = globals.update(i1, (GlobalSlot { tag: tag1, value: None }));
    assert forall|k: int| 0 <= k < upd.len() implies (#[trigger] upd[k]).tag
        == globals[k].tag by {}
    assert forall|a: int, b: int|
        0 <= a < b < upd.len() implies (#[trigger] upd[a]).tag != (#[trigger] upd[b]).tag by {
        assert(upd[a].tag == globals[a].tag);
        assert(upd[b].tag == globals[b].tag);
    }
    if has_global(globals, tag2) {
        let i2 = global_index_of(globals, tag2);
        assert(0 <= i2 < globals.len() && globals[i2].tag == tag2);
        assert(upd[i2].tag == tag2);
        assert(has_global(upd, tag2));
        crate::app::lemma_found_global_index(upd, tag2, i2);
        assert(i2 != i1);
        assert(upd[i2] == globals[i2]);
        crate::app::lemma_found_global_index(globals, tag2, i2);
    }
    if has_global(upd, tag2) {
        let k = choose|k: int| 0 <= k < upd.len() && upd[k].tag == tag2;
        assert(globals[k].tag == tag2);
        assert(has_global(globals, tag2));
    }
}

/// After an entity's release its slot is gone for good: a weak handle
/// captured at any earlier time can no longer upgrade, because no slot
/// carries the identifier and identifiers are never reused.
pub proof fn lemma_released_entity_dead<T>(entities: Seq<EntitySlot<T>>, id: EntityId)
    requires
        forall|a: int, b: int|
            0 <= a < b < entities.len() ==> (#[trigger] entities[a]).id != (
            #[trigger] entities[b]).id,
        alive(entities, id),
    ensures
        !alive(entities.remove(slot_index_of(entities, id)), id),
{
    let i = slot_index_of(entities, id);
    assert(0 <= i < entities.len() && entities[i].id == id);
    let rem = entities.remove(i);
    assert forall|k: int| 0 <= k < rem.len() implies (#[trigger] rem[k]).id != id by {
        if k < i {
            assert(rem[k] == entities[k]);
            assert(entities[k].id != entities[i].id);
        } else {
            assert(rem[k] == entities[k + 1]);
            assert(entities[i].id != entities[k + 1].id);
        }
    }
}

/// An entity's own release handler fires exactly once at its release: its
/// sub id is in the dispatch, which holds no duplicates.
pub proof fn lemma_release_handler_fires_exactly_once(
    table: Seq<ReleaseListener>,
    id: EntityId,
    j: int,
    next_sub: u64,
)
    requires
        release_listeners_wf(table, next_sub),
        0 <= j < table.len(),
        table[j].watched == id,
        table[j].watcher is None,
    ensures
        release_own_subs(table, id).contains(table[j].sub_id),
        distinct_by(release_own_subs(table, id), mark_of()),
{
    lemma_seq_picked_in(table, own_release_pick(id), j, table[j].sub_id);
    assert forall|a: ReleaseListener|
        (#[trigger] (own_release_pick(id))(a) matches Some(b) ==> (mark_of())(b) == (rel_sub_of())(
        a)) by {}
    lemma_seq_picked_distinct(table, own_release_pick(id), rel_sub_of(), mark_of());
}

} // verus!
