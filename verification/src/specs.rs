//! Mathematical helpers the contracts speak of: liveness of an entity in a
//! storage sequence, the dispatch list a listener table yields for a key,
//! the tables left behind after pruning or detaching, and the notify
//! transition. The table transformations are all instances of two recursive
//! shapes, `seq_kept` and `seq_picked`, so their laws are proved once.

use vstd::prelude::*;

use crate::types::{
    Effect, EntityId, EntitySlot, Firing, GlobalSlot, Listener, ReleaseListener, TaskSlot,
};

verus! {

/// An entity is alive while a storage slot carries its identifier.
pub open spec fn alive<T>(entities: Seq<EntitySlot<T>>, id: EntityId) -> bool {
    exists|i: int| 0 <= i < entities.len() && entities[i].id == id
}

/// The index of the slot carrying `id` (meaningful only while `alive`).
pub open spec fn slot_index_of<T>(entities: Seq<EntitySlot<T>>, id: EntityId) -> int {
    choose|i: int| 0 <= i < entities.len() && entities[i].id == id
}

/// The slot carrying `id` (meaningful only while `alive`).
pub open spec fn slot_of<T>(entities: Seq<EntitySlot<T>>, id: EntityId) -> EntitySlot<T> {
    entities[slot_index_of(entities, id)]
}

/// The elements of `table` that `keep` holds of, in their original order.
pub open spec fn seq_kept<A>(table: Seq<A>, keep: spec_fn(A) -> bool) -> Seq<A>
    decreases table.len(),
{
    if table.len() == 0 {
        Seq::empty()
    } else {
        let rest = seq_kept(table.drop_last(), keep);
        if keep(table.last()) {
            rest.push(table.last())
        } else {
            rest
        }
    }
}

/// The images under `pick` of the elements it selects, in original order.
pub open spec fn seq_picked<A, B>(table: Seq<A>, pick: spec_fn(A) -> Option<B>) -> Seq<B>
    decreases table.len(),
{
    if table.len() == 0 {
        Seq::empty()
    } else {
        let rest = seq_picked(table.drop_last(), pick);
        match pick(table.last()) {
            Some(b) => rest.push(b),
            None => rest,
        }
    }
}

/// No two elements share an image under `f`.
pub open spec fn distinct_by<A>(s: Seq<A>, f: spec_fn(A) -> u64) -> bool {
    forall|i: int, j: int| 0 <= i < j < s.len() ==> f(#[trigger] s[i]) != f(#[trigger] s[j])
}

/// Every element's image under `f` lies below `bound`.
pub open spec fn bounded_by<A>(s: Seq<A>, f: spec_fn(A) -> u64, bound: u64) -> bool {
    forall|i: int| 0 <= i < s.len() ==> f(#[trigger] s[i]) < bound
}

/// The subscription identifier of a listener entry.
pub open spec fn sub_of() -> spec_fn(Listener) -> u64 {
    |l: Listener| l.sub_id
}

/// The subscription identifier of a release listener entry.
pub open spec fn rel_sub_of() -> spec_fn(ReleaseListener) -> u64 {
    |l: ReleaseListener| l.sub_id
}

/// The subscription identifier of a dispatch-list entry.
pub open spec fn firing_sub_of() -> spec_fn(Firing) -> u64 {
    |f: Firing| f.sub_id
}

/// A listener table is well formed against the subscription counter: every
/// sub id was handed out by the counter, and no two entries share one.
pub open spec fn listeners_wf(table: Seq<Listener>, next_sub: u64) -> bool {
    distinct_by(table, sub_of()) && bounded_by(table, sub_of(), next_sub)
}

/// Well-formedness of the release table against the subscription counter.
pub open spec fn release_listeners_wf(table: Seq<ReleaseListener>, next_sub: u64) -> bool {
    distinct_by(table, rel_sub_of()) && bounded_by(table, rel_sub_of(), next_sub)
}

/// Whether one registration fires when `key` is dispatched: it must watch
/// `key` and its watcher must still be alive.
pub open spec fn fires<T>(l: Listener, key: u64, entities: Seq<EntitySlot<T>>) -> bool {
    l.key == key && alive(entities, l.watcher)
}

/// Selects the dispatch entry of a firing registration.
pub open spec fn fire_pick<T>(key: u64, entities: Seq<EntitySlot<T>>) -> spec_fn(Listener) -> Option<
    Firing,
> {
    |l: Listener|
        if fires(l, key, entities) {
            Some(Firing { sub_id: l.sub_id, watcher: l.watcher })
        } else {
            None
        }
}

/// Keeps a registration unless it watches `key` with a dead watcher.
pub open spec fn prune_keep<T>(key: u64, entities: Seq<EntitySlot<T>>) -> spec_fn(Listener) -> bool {
    |l: Listener| l.key != key || alive(entities, l.watcher)
}

/// Keeps a registration unless it watches `key`.
pub open spec fn not_key_keep(key: u64) -> spec_fn(Listener) -> bool {
    |l: Listener| l.key != key
}

/// Keeps a registration unless it carries `sub_id`.
pub open spec fn not_sub_keep(sub_id: u64) -> spec_fn(Listener) -> bool {
    |l: Listener| l.sub_id != sub_id
}

/// The dispatch list for `key`: one entry per firing registration, in
/// registration order.
pub open spec fn firings_of<T>(
    table: Seq<Listener>,
    key: u64,
    entities: Seq<EntitySlot<T>>,
) -> Seq<Firing> {
    seq_picked(table, fire_pick(key, entities))
}

/// The table after `key` is dispatched: entries watching `key` whose watcher
/// has died are pruned; every other entry stays, in order.
pub open spec fn pruned<T>(
    table: Seq<Listener>,
    key: u64,
    entities: Seq<EntitySlot<T>>,
) -> Seq<Listener> {
    seq_kept(table, prune_keep(key, entities))
}

/// The table after every entry watching `key` is removed.
pub open spec fn without_key(table: Seq<Listener>, key: u64) -> Seq<Listener> {
    seq_kept(table, not_key_keep(key))
}

/// The table after the entry carrying `sub_id` is detached.
pub open spec fn without_sub(table: Seq<Listener>, sub_id: u64) -> Seq<Listener> {
    seq_kept(table, not_sub_keep(sub_id))
}

/// Selects the sub id of an own-release handler of `id`: registered by the
/// released entity itself, it fires unconditionally.
pub open spec fn own_release_pick(id: EntityId) -> spec_fn(ReleaseListener) -> Option<u64> {
    |l: ReleaseListener|
        if l.watched == id && l.watcher is None {
            Some(l.sub_id)
        } else {
            None
        }
}

/// Selects the dispatch entry of an outside watcher of `id`'s release that
/// is itself still alive once `id`'s slot is gone.
pub open spec fn release_observer_pick<T>(id: EntityId, entities: Seq<EntitySlot<T>>) -> spec_fn(
    ReleaseListener,
) -> Option<Firing> {
    |l: ReleaseListener|
        if l.watched == id && (l.watcher matches Some(w) && alive(entities, w)) {
            Some(Firing { sub_id: l.sub_id, watcher: l.watcher.unwrap() })
        } else {
            None
        }
}

/// Keeps a release listener unless it watches `id`.
pub open spec fn rel_not_watched_keep(id: EntityId) -> spec_fn(ReleaseListener) -> bool {
    |l: ReleaseListener| l.watched != id
}

/// Keeps a release listener unless it carries `sub_id`.
pub open spec fn rel_not_sub_keep(sub_id: u64) -> spec_fn(ReleaseListener) -> bool {
    |l: ReleaseListener| l.sub_id != sub_id
}

/// The sub ids of the released entity's own release handlers, in
/// registration order.
pub open spec fn release_own_subs(table: Seq<ReleaseListener>, id: EntityId) -> Seq<u64> {
    seq_picked(table, own_release_pick(id))
}

/// The outside watchers of `id`'s release that still fire.
pub open spec fn release_observer_firings<T>(
    table: Seq<ReleaseListener>,
    id: EntityId,
    entities: Seq<EntitySlot<T>>,
) -> Seq<Firing> {
    seq_picked(table, release_observer_pick(id, entities))
}

/// The release table after `id` is released: every entry watching `id` is
/// removed, fired or not.
pub open spec fn release_remaining(
    table: Seq<ReleaseListener>,
    id: EntityId,
) -> Seq<ReleaseListener> {
    seq_kept(table, rel_not_watched_keep(id))
}

/// The release table after the entry carrying `sub_id` is detached.
pub open spec fn release_without_sub(
    table: Seq<ReleaseListener>,
    sub_id: u64,
) -> Seq<ReleaseListener> {
    seq_kept(table, rel_not_sub_keep(sub_id))
}

/// A pending-notification mark, as its own image.
pub open spec fn mark_of() -> spec_fn(u64) -> u64 {
    |m: u64| m
}

/// Keeps a pending-notification mark unless it is `v`.
pub open spec fn not_mark_keep(v: u64) -> spec_fn(u64) -> bool {
    |m: u64| m != v
}

/// The pending-notification set after the mark `v` is cleared.
pub open spec fn marks_without(marks: Seq<u64>, v: u64) -> Seq<u64> {
    seq_kept(marks, not_mark_keep(v))
}

/// A record of the task with this identifier exists.
pub open spec fn has_task(tasks: Seq<TaskSlot>, task_id: u64) -> bool {
    exists|i: int| 0 <= i < tasks.len() && tasks[i].task_id == task_id
}

/// The index of the record with `task_id` (meaningful only while `has_task`).
pub open spec fn task_index_of(tasks: Seq<TaskSlot>, task_id: u64) -> int {
    choose|i: int| 0 <= i < tasks.len() && tasks[i].task_id == task_id
}

/// The record with `task_id` (meaningful only while `has_task`).
pub open spec fn task_slot_of(tasks: Seq<TaskSlot>, task_id: u64) -> TaskSlot {
    tasks[task_index_of(tasks, task_id)]
}

/// A slot with this tag exists (leased or not).
pub open spec fn has_global<G>(globals: Seq<GlobalSlot<G>>, tag: u64) -> bool {
    exists|i: int| 0 <= i < globals.len() && globals[i].tag == tag
}

/// The index of the slot with `tag` (meaningful only while `has_global`).
pub open spec fn global_index_of<G>(globals: Seq<GlobalSlot<G>>, tag: u64) -> int {
    choose|i: int| 0 <= i < globals.len() && globals[i].tag == tag
}

/// The slot with `tag` (meaningful only while `has_global`).
pub open spec fn global_slot_of<G>(globals: Seq<GlobalSlot<G>>, tag: u64) -> GlobalSlot<G> {
    globals[global_index_of(globals, tag)]
}

/// The instance with `tag` is currently leased out: its slot is empty.
pub open spec fn global_leased<G>(globals: Seq<GlobalSlot<G>>, tag: u64) -> bool {
    has_global(globals, tag) && global_slot_of(globals, tag).value is None
}

/// The pending-notification set after a notify request for `id`: already
/// pending means no change, so repeated requests are absorbed.
pub open spec fn notify_marks(marks: Seq<u64>, id: EntityId) -> Seq<u64> {
    if marks.contains(id.id) {
        marks
    } else {
        marks.push(id.id)
    }
}

/// The effect queue after a notify request for `id`: one `Notify` effect is
/// appended only when `id` was not already pending.
pub open spec fn notify_queue<E>(marks: Seq<u64>, queue: Seq<Effect<E>>, id: EntityId) -> Seq<
    Effect<E>,
> {
    if marks.contains(id.id) {
        queue
    } else {
        queue.push(Effect::Notify { emitter: id })
    }
}

/// The emitter of a queued `Notify` effect, if the effect is one.
pub open spec fn notify_emitter<E>(e: Effect<E>) -> Option<u64> {
    match e {
        Effect::Notify { emitter } => Some(emitter.id),
        Effect::Emit { .. } => None,
    }
}

/// Appending an element whose image is the counter's next value keeps
/// images distinct and bounded by the advanced counter.
pub proof fn lemma_push_distinct_bounded<A>(table: Seq<A>, x: A, f: spec_fn(A) -> u64, next: u64)
    requires
        distinct_by(table, f),
        bounded_by(table, f, next),
        f(x) == next,
        next < u64::MAX,
    ensures
        distinct_by(table.push(x), f),
        bounded_by(table.push(x), f, (next + 1) as u64),
{
    let res = table.push(x);
    assert forall|i: int, j: int| 0 <= i < j < res.len() implies f(#[trigger] res[i]) != f(
        #[trigger] res[j],
    ) by {
        if j == res.len() - 1 {
            assert(res[i] == table[i]);
            assert(f(table[i]) < next);
        } else {
            assert(res[i] == table[i] && res[j] == table[j]);
        }
    }
    assert forall|i: int| 0 <= i < res.len() implies f(#[trigger] res[i]) < next + 1 by {
        if i < res.len() - 1 {
            assert(res[i] == table[i]);
            assert(f(table[i]) < next);
        }
    }
}

/// A bound on images stays a bound when the counter grows.
pub proof fn lemma_bounded_mono<A>(table: Seq<A>, f: spec_fn(A) -> u64, n1: u64, n2: u64)
    requires
        bounded_by(table, f, n1),
        n1 <= n2,
    ensures
        bounded_by(table, f, n2),
{
    assert forall|i: int| 0 <= i < table.len() implies f(#[trigger] table[i]) < n2 by {
        assert(f(table[i]) < n1);
    }
}

/// Every element a kept table holds was in the original table.
pub proof fn lemma_seq_kept_contains<A>(table: Seq<A>, keep: spec_fn(A) -> bool)
    ensures
        forall|x: A| #[trigger] seq_kept(table, keep).contains(x) ==> table.contains(x),
    decreases table.len(),
{
    if table.len() > 0 {
        lemma_seq_kept_contains(table.drop_last(), keep);
        assert forall|x: A| #[trigger] seq_kept(table, keep).contains(x) implies table.contains(
            x,
        ) by {
            let res = seq_kept(table, keep);
            let rest = seq_kept(table.drop_last(), keep);
            let i = choose|i: int| 0 <= i < res.len() && res[i] == x;
            if keep(table.last()) && i == res.len() - 1 {
                assert(table[table.len() - 1] == x);
            } else {
                assert(rest.contains(x));
                let j = choose|j: int| 0 <= j < table.drop_last().len() && table.drop_last()[j]
                    == x;
                assert(table[j] == x);
            }
        }
    }
}

/// An element the filter keeps is still in the kept table.
pub proof fn lemma_seq_kept_still_contains<A>(table: Seq<A>, keep: spec_fn(A) -> bool)
    ensures
        forall|x: A| table.contains(x) && keep(x) ==> #[trigger] seq_kept(table, keep).contains(x),
    decreases table.len(),
{
    if table.len() > 0 {
        lemma_seq_kept_still_contains(table.drop_last(), keep);
        assert forall|x: A| table.contains(x) && keep(x) implies #[trigger] seq_kept(
            table,
            keep,
        ).contains(x) by {
            let res = seq_kept(table, keep);
            let rest = seq_kept(table.drop_last(), keep);
            let j = choose|j: int| 0 <= j < table.len() && table[j] == x;
            if j == table.len() - 1 {
                assert(res.last() == x);
            } else {
                assert(table.drop_last()[j] == x);
                assert(table.drop_last().contains(x));
                assert(rest.contains(x));
                let i = choose|i: int| 0 <= i < rest.len() && rest[i] == x;
                assert(res[i] == x);
            }
        }
    }
}

/// Every element of a kept table satisfies the filter.
pub proof fn lemma_seq_kept_pred<A>(table: Seq<A>, keep: spec_fn(A) -> bool)
    ensures
        forall|i: int|
            0 <= i < seq_kept(table, keep).len() ==> keep(#[trigger] seq_kept(table, keep)[i]),
    decreases table.len(),
{
    if table.len() > 0 {
        lemma_seq_kept_pred(table.drop_last(), keep);
        let res = seq_kept(table, keep);
        let rest = seq_kept(table.drop_last(), keep);
        assert forall|i: int| 0 <= i < res.len() implies keep(#[trigger] res[i]) by {
            if keep(table.last()) && i == res.len() - 1 {
                assert(res[i] == table.last());
            } else {
                assert(res[i] == rest[i]);
            }
        }
    }
}

/// Keeping a subset of a table preserves distinctness of images.
pub proof fn lemma_seq_kept_distinct<A>(table: Seq<A>, keep: spec_fn(A) -> bool, f: spec_fn(A) -> u64)
    requires
        distinct_by(table, f),
    ensures
        distinct_by(seq_kept(table, keep), f),
    decreases table.len(),
{
    if table.len() > 0 {
        assert(distinct_by(table.drop_last(), f)) by {
            assert forall|i: int, j: int|
                0 <= i < j < table.drop_last().len() implies f(
                #[trigger] table.drop_last()[i],
            ) != f(#[trigger] table.drop_last()[j]) by {
                assert(table[i] == table.drop_last()[i]);
                assert(table[j] == table.drop_last()[j]);
            }
        }
        lemma_seq_kept_distinct(table.drop_last(), keep, f);
        if keep(table.last()) {
            lemma_seq_kept_contains(table.drop_last(), keep);
            let rest = seq_kept(table.drop_last(), keep);
            let res = seq_kept(table, keep);
            assert forall|i: int, j: int| 0 <= i < j < res.len() implies f(#[trigger] res[i]) != f(
                #[trigger] res[j],
            ) by {
                if j == res.len() - 1 {
                    assert(res[j] == table.last());
                    assert(rest.contains(rest[i]));
                    let a = choose|a: int| 0 <= a < table.drop_last().len() && table.drop_last()[a]
                        == rest[i];
                    assert(table[a] == rest[i]);
                    assert(f(table[a]) != f(table[table.len() - 1]));
                } else {
                    assert(res[i] == rest[i] && res[j] == rest[j]);
                }
            }
        }
    }
}

/// Keeping a subset of a table preserves boundedness of images.
pub proof fn lemma_seq_kept_bounded<A>(
    table: Seq<A>,
    keep: spec_fn(A) -> bool,
    f: spec_fn(A) -> u64,
    bound: u64,
)
    requires
        bounded_by(table, f, bound),
    ensures
        bounded_by(seq_kept(table, keep), f, bound),
{
    lemma_seq_kept_contains(table, keep);
    let res = seq_kept(table, keep);
    assert forall|i: int| 0 <= i < res.len() implies f(#[trigger] res[i]) < bound by {
        assert(res.contains(res[i]));
        let a = choose|a: int| 0 <= a < table.len() && table[a] == res[i];
        assert(f(table[a]) < bound);
    }
}

/// A selected element was selected from some position of the table.
pub proof fn lemma_seq_picked_from<A, B>(table: Seq<A>, pick: spec_fn(A) -> Option<B>)
    ensures
        forall|i: int|
            0 <= i < seq_picked(table, pick).len() ==> exists|j: int|
                0 <= j < table.len() && pick(#[trigger] table[j]) == Some(
                    #[trigger] seq_picked(table, pick)[i],
                ),
    decreases table.len(),
{
    if table.len() > 0 {
        lemma_seq_picked_from(table.drop_last(), pick);
        let res = seq_picked(table, pick);
        let rest = seq_picked(table.drop_last(), pick);
        assert forall|i: int| 0 <= i < res.len() implies exists|j: int|
            0 <= j < table.len() && pick(#[trigger] table[j]) == Some(#[trigger] res[i]) by {
            if pick(table.last()) is Some && i == res.len() - 1 {
                assert(pick(table[table.len() - 1]) == Some(res[i]));
            } else {
                assert(rest[i] == res[i]);
                let j = choose|j: int|
                    0 <= j < table.drop_last().len() && pick(#[trigger] table.drop_last()[j])
                        == Some(rest[i]);
                assert(table[j] == table.drop_last()[j]);
                assert(pick(table[j]) == Some(res[i]));
            }
        }
    }
}

/// What a position of the table selects appears in the selection.
pub proof fn lemma_seq_picked_in<A, B>(table: Seq<A>, pick: spec_fn(A) -> Option<B>, j: int, b: B)
    requires
        0 <= j < table.len(),
        pick(table[j]) == Some(b),
    ensures
        seq_picked(table, pick).contains(b),
    decreases table.len(),
{
    if j == table.len() - 1 {
        assert(pick(table.last()) == Some(b));
        assert(seq_picked(table, pick).last() == b);
    } else {
        assert(table.drop_last()[j] == table[j]);
        lemma_seq_picked_in(table.drop_last(), pick, j, b);
        let rest = seq_picked(table.drop_last(), pick);
        let i = choose|i: int| 0 <= i < rest.len() && rest[i] == b;
        assert(seq_picked(table, pick)[i] == b);
    }
}

/// Selection from a table with distinct images keeps images distinct, when
/// the selection preserves the image.
pub proof fn lemma_seq_picked_distinct<A, B>(
    table: Seq<A>,
    pick: spec_fn(A) -> Option<B>,
    f: spec_fn(A) -> u64,
    g: spec_fn(B) -> u64,
)
    requires
        distinct_by(table, f),
        forall|a: A| #[trigger] pick(a) matches Some(b) ==> g(b) == f(a),
    ensures
        distinct_by(seq_picked(table, pick), g),
    decreases table.len(),
{
    if table.len() > 0 {
        assert(distinct_by(table.drop_last(), f)) by {
            assert forall|i: int, j: int|
                0 <= i < j < table.drop_last().len() implies f(
                #[trigger] table.drop_last()[i],
            ) != f(#[trigger] table.drop_last()[j]) by {
                assert(table[i] == table.drop_last()[i]);
                assert(table[j] == table.drop_last()[j]);
            }
        }
        lemma_seq_picked_distinct(table.drop_last(), pick, f, g);
        if pick(table.last()) is Some {
            lemma_seq_picked_from(table.drop_last(), pick);
            let rest = seq_picked(table.drop_last(), pick);
            let res = seq_picked(table, pick);
            assert forall|i: int, j: int| 0 <= i < j < res.len() implies g(#[trigger] res[i]) != g(
                #[trigger] res[j],
            ) by {
                if j == res.len() - 1 {
                    assert(res[i] == rest[i]);
                    let a = choose|a: int|
                        0 <= a < table.drop_last().len() && pick(#[trigger] table.drop_last()[a])
                            == Some(rest[i]);
                    assert(table[a] == table.drop_last()[a]);
                    assert(f(table[a]) != f(table[table.len() - 1]));
                    assert(g(res[i]) == f(table[a]));
                    assert(g(res[j]) == f(table[table.len() - 1]));
                } else {
                    assert(res[i] == rest[i] && res[j] == rest[j]);
                }
            }
        }
    }
}

} // verus!
