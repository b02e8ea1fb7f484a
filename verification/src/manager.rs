//! The entity manager: the set of live entities, the id pool they draw
//! their ids from, the tick counter, and the queue of entity events for the
//! game's entity behaviours.
use vstd::prelude::*;
use crate::config::{EntityManagerConfig, config_of_bytes, config_bytes, config_size};
use crate::entity::{
    Entity, EntityEvent, EntityState, EntityView, fresh_view, is_local_flags, remote_inputs_view,
    rewound_view, with_new_state,
};
use crate::input::{decode_inputs, inputs_of_bytes};
use crate::snapshot::{
    EntityRecord, EntryModel, append_bytes, entries_bytes, lemma_entries_bytes_push,
    lemma_snapshot_roundtrip, lemma_state_offsets_in_bounds, parse_records, records_from,
};
use crate::idpool::{IdPool, IdPoolView, get_id_post, release_id_post, empty_pool, ID_LIMIT};
use crate::tick::next_tick_spec;

verus! {

/// An entity event for the behaviour of entity `.0`, with the entity's
/// state when it happened.
pub type EventRecord<S> = (u16, EntityEvent, S);

/// The abstract state of an entity manager.
pub struct EntityManagerView<S> {
    /// Entities in iteration order.
    pub entities: Seq<EntityView<S>>,
    pub pool: IdPoolView,
    pub config: EntityManagerConfig,
    pub tick: u8,
    pub server_mode: bool,
    /// Events not yet handed to the entity behaviours, oldest first.
    pub events: Seq<EventRecord<S>>,
}

/// Entity manager.
pub struct EntityManager<S> {
    id_pool: IdPool,
    entities: Vec<Entity<S>>,
    config: EntityManagerConfig,
    tick: u8,
    server_mode: bool,
    events: Vec<EventRecord<S>>,
}

impl<S> View for EntityManager<S> {
    type V = EntityManagerView<S>;

    closed spec fn view(&self) -> EntityManagerView<S> {
        EntityManagerView {
            entities: self.entities@.map_values(|e: Entity<S>| e@),
            pool: self.id_pool@,
            config: self.config,
            tick: self.tick,
            server_mode: self.server_mode,
            events: self.events@,
        }
    }
}

/// No two entities share an id.
pub open spec fn ids_unique<S>(es: Seq<EntityView<S>>) -> bool {
    forall|i: int, j: int|
        0 <= i < es.len() && 0 <= j < es.len() && i != j ==> #[trigger] es[i].id != #[trigger] es[j].id
}

/// Some entity has id `id`.
pub open spec fn has_id<S>(es: Seq<EntityView<S>>, id: u16) -> bool {
    exists|i: int| 0 <= i < es.len() && #[trigger] es[i].id == id
}

/// The position of the entity with id `id`.
pub open spec fn index_of_id<S>(es: Seq<EntityView<S>>, id: u16) -> int {
    choose|i: int| 0 <= i < es.len() && #[trigger] es[i].id == id
}

/// `es` with `e` in place of the entity with the same id, or with `e`
/// added at the end when there is none.
pub open spec fn insert_entity<S>(es: Seq<EntityView<S>>, e: EntityView<S>) -> Seq<EntityView<S>> {
    if has_id(es, e.id) {
        es.update(index_of_id(es, e.id), e)
    } else {
        es.push(e)
    }
}

/// `es` without the entity with id `id`.
pub open spec fn remove_entity<S>(es: Seq<EntityView<S>>, id: u16) -> Seq<EntityView<S>> {
    if has_id(es, id) {
        es.remove(index_of_id(es, id))
    } else {
        es
    }
}

/// The position of the first entity owned by `owner`, if any.
pub open spec fn first_owned_index<S>(es: Seq<EntityView<S>>, owner: u32) -> Option<int> {
    if exists|i: int| 0 <= i < es.len() && #[trigger] es[i].owner == Some(owner) {
        Some(
            choose|i: int|
                0 <= i < es.len() && #[trigger] es[i].owner == Some(owner) && forall|j: int|
                    0 <= j < i ==> es[j].owner != Some(owner),
        )
    } else {
        None
    }
}

/// A fresh entity as `create` makes it: alive, hidden, with buffers of
/// `buffer` ticks, and the given state (else the default state).
pub open spec fn created_view<S: EntityState>(
    id: u16,
    type_id: u8,
    buffer: nat,
    owner: Option<u32>,
    state: Option<S>,
) -> EntityView<S> {
    let s = match state {
        Some(s) => s,
        None => S::default_of(),
    };
    EntityView {
        id,
        type_id,
        owner,
        alive: true,
        visible: false,
        state: s,
        base_state: s,
        last_state: s,
        confirmed_state: None,
        state_buffer: Seq::empty(),
        inputs: Seq::empty(),
        confirmed_input_tick: 0,
        initial_input: true,
        serialized_inputs: None,
        input_buffer_size: buffer,
        state_buffer_size: buffer,
    }
}

/// The events `create` queues for a fresh entity: a flags event when the
/// given state's flags differ from the default ones, then `Created`.
pub open spec fn created_events<S: EntityState>(id: u16, state: Option<S>, tick: u8) -> Seq<EventRecord<S>> {
    match state {
        Some(s) => {
            let flags = if S::default_of().flags_of() != s.flags_of() {
                seq![(id, EntityEvent::Flags(s.flags_of()), s)]
            } else {
                Seq::empty()
            };
            flags + seq![(id, EntityEvent::Created(tick), s)]
        },
        None => seq![(id, EntityEvent::Created(tick), S::default_of())],
    }
}

/// The snapshot entries of entities `es` for one receiver: entity `k` goes
/// out as visible with the encoding of state `s` when `states[k]` is
/// `Some(s)`, and as hidden when it is `None`.
pub open spec fn snapshot_entries<S: EntityState>(es: Seq<EntityView<S>>, states: Seq<Option<S>>) -> Seq<EntryModel> {
    Seq::new(
        es.len(),
        |k: int|
            (
                es[k].id,
                es[k].type_id,
                es[k].confirmed_input_tick,
                states[k] is Some,
                match states[k] {
                    Some(st) => st.encoded_of()@,
                    None => Seq::empty(),
                },
            ),
    )
}

/// Updating an entity and then taking views is taking views and then
/// updating the view.
proof fn lemma_map_update<S>(es: Seq<Entity<S>>, i: int, e: Entity<S>)
    requires
        0 <= i < es.len(),
    ensures
        es.update(i, e).map_values(|x: Entity<S>| x@) == es.map_values(|x: Entity<S>| x@).update(i, e@),
{
    assert(es.update(i, e).map_values(|x: Entity<S>| x@) =~= es.map_values(|x: Entity<S>| x@).update(i, e@));
}


// Receiving snapshots -------------------------------------------------------

/// Setting state `s` on `e` (previous state overridden or kept), with the
/// flags event it causes.
pub open spec fn state_step<S: EntityState>(e: EntityView<S>, s: S, override_last: bool) -> (EntityView<S>, Seq<EventRecord<S>>) {
    (
        with_new_state(e, s, override_last),
        if e.state.flags_of() != s.flags_of() {
            seq![(e.id, EntityEvent::Flags(s.flags_of()), s)]
        } else {
            Seq::empty()
        },
    )
}

/// Showing (or hiding) `e`, with its `Show` (or `Hide`) event.
pub open spec fn visibility_step<S>(e: EntityView<S>, visible: bool, tick: u8) -> (EntityView<S>, Seq<EventRecord<S>>) {
    (
        EntityView { visible, ..e },
        seq![(e.id, if visible { EntityEvent::Show(tick) } else { EntityEvent::Hide(tick) }, e.state)],
    )
}

/// Setting state `s` on `e` and showing it.
pub open spec fn show_with_state<S: EntityState>(e: EntityView<S>, s: S, tick: u8) -> (EntityView<S>, Seq<EventRecord<S>>) {
    let (a, x) = state_step(e, s, true);
    let (b, y) = visibility_step(a, true, tick);
    (b, x + y)
}

/// An entity first seen in a snapshot entry: a fresh entity with buffers
/// of `buffer` ticks, shown with the entry's state when there is one, else
/// hidden; then its `Created` event.
pub open spec fn received_new<S: EntityState>(rec: EntityRecord, st: Option<S>, tick: u8, buffer: nat) -> (EntityView<S>, Seq<EventRecord<S>>) {
    let e0 = EntityView {
        id: rec.id,
        input_buffer_size: buffer,
        state_buffer_size: buffer,
        ..fresh_view::<S>(rec.type_id)
    };
    let (e1, ev1) = match st {
        Some(s) => show_with_state(e0, s, tick),
        None => visibility_step(e0, false, tick),
    };
    (e1, ev1 + seq![(rec.id, EntityEvent::Created(tick), e1.state)])
}

/// A snapshot entry applied to its entity: a visible entity that the entry
/// hides is hidden; a hidden entity that the entry shows is shown when the
/// entry has a state; the entity is alive; a state in the entry becomes the
/// confirmed state of a locally controlled entity, and the new state of any
/// other one (keeping the previous state for interpolation).
pub open spec fn received_update<S: EntityState>(e: EntityView<S>, rec: EntityRecord, st: Option<S>, tick: u8) -> (EntityView<S>, Seq<EventRecord<S>>) {
    let (e1, ev1) = if e.visible {
        if !rec.visible {
            visibility_step(e, false, tick)
        } else {
            (e, Seq::empty())
        }
    } else if rec.visible && st is Some {
        show_with_state(e, st.unwrap(), tick)
    } else {
        (e, Seq::empty())
    };
    let e2 = EntityView { alive: true, ..e1 };
    match st {
        Some(s) => if is_local_flags(e2.state.flags_of()) {
            (EntityView { confirmed_state: Some((rec.confirmed_tick, s)), ..e2 }, ev1)
        } else {
            let (e3, ev3) = state_step(e2, s, false);
            (e3, ev1 + ev3)
        },
        None => (e2, ev1),
    }
}

/// One snapshot entry applied to the entities: to the entity with its id,
/// or to a new entity added at the end.
pub open spec fn receive_step<S: EntityState>(
    es: Seq<EntityView<S>>,
    rec: EntityRecord,
    st: Option<S>,
    tick: u8,
    buffer: nat,
) -> (Seq<EntityView<S>>, Seq<EventRecord<S>>) {
    if has_id(es, rec.id) {
        let i = index_of_id(es, rec.id);
        let (e, ev) = received_update(es[i], rec, st, tick);
        (es.update(i, e), ev)
    } else {
        let (e0, ev0) = received_new(rec, st, tick, buffer);
        let (e, ev) = received_update(e0, rec, st, tick);
        (es.push(e), ev0 + ev)
    }
}

/// The first `n` snapshot entries applied one after the other.
pub open spec fn receive_fold<S: EntityState>(
    es: Seq<EntityView<S>>,
    recs: Seq<EntityRecord>,
    sts: Seq<Option<S>>,
    tick: u8,
    buffer: nat,
    n: nat,
) -> (Seq<EntityView<S>>, Seq<EventRecord<S>>)
    decreases n,
{
    if n == 0 {
        (es, Seq::empty())
    } else {
        let (es1, ev1) = receive_fold(es, recs, sts, tick, buffer, (n - 1) as nat);
        let (es2, ev2) = receive_step(es1, recs[n - 1], sts[n - 1], tick, buffer);
        (es2, ev1 + ev2)
    }
}

/// All entities marked dead.
pub open spec fn all_dead<S>(es: Seq<EntityView<S>>) -> Seq<EntityView<S>> {
    es.map_values(|e: EntityView<S>| EntityView { alive: false, ..e })
}

/// The entities still alive.
pub open spec fn survivors<S>(es: Seq<EntityView<S>>) -> Seq<EntityView<S>> {
    es.filter(|e: EntityView<S>| e.alive)
}

/// The `Destroyed` events of the dead entities, in order.
pub open spec fn destroyed_events<S>(es: Seq<EntityView<S>>, tick: u8) -> Seq<EventRecord<S>> {
    es.filter(|e: EntityView<S>| !e.alive).map_values(
        |e: EntityView<S>| (e.id, EntityEvent::Destroyed(tick), e.state),
    )
}

/// The state snapshot `data` carries for entry `rec`: the game's decoding
/// of the snapshot's bytes from the entry's state offset on, or none when
/// the entry has no state.
pub open spec fn entry_state<S: EntityState>(data: Seq<u8>, rec: EntityRecord, st: Option<S>) -> bool {
    match rec.state_at {
        Some(at) => exists|rest: &[u8]|
            #![trigger S::decoded_of(rest)]
            rest@ == data.subrange(at as int, data.len() as int) && st == Some(S::decoded_of(rest)),
        None => st is None,
    }
}

/// The manager after applying snapshot entries `recs` with decoded states
/// `sts`: every entity is first marked dead, the entries are applied in
/// order, and the entities no entry mentioned are destroyed.
pub open spec fn apply_records_post<S: EntityState>(
    pre: EntityManagerView<S>,
    post: EntityManagerView<S>,
    recs: Seq<EntityRecord>,
    sts: Seq<Option<S>>,
) -> bool {
    let buffer = pre.config.buffered_ticks as nat;
    let (es, evs) = receive_fold(all_dead(pre.entities), recs, sts, pre.tick, buffer, recs.len());
    &&& post.entities == survivors(es)
    &&& post.events == pre.events + evs + destroyed_events(es, pre.tick)
    &&& post.pool == pre.pool
    &&& post.config == pre.config
    &&& post.tick == pre.tick
    &&& post.server_mode == pre.server_mode
}


/// A snapshot entry applied to an entity keeps its id.
proof fn lemma_received_update_id<S: EntityState>(e: EntityView<S>, rec: EntityRecord, st: Option<S>, tick: u8)
    ensures
        received_update(e, rec, st, tick).0.id == e.id,
{
}

/// Entities with the same ids, place by place, as entities with distinct
/// ids have distinct ids.
proof fn lemma_same_ids_unique<S>(pre: Seq<EntityView<S>>, post: Seq<EntityView<S>>)
    requires
        ids_unique(pre),
        post.len() == pre.len(),
        forall|i: int| 0 <= i < pre.len() ==> #[trigger] post[i].id == pre[i].id,
    ensures
        ids_unique(post),
{
    assert forall|a: int, b: int|
        0 <= a < post.len() && 0 <= b < post.len() && a != b implies #[trigger] post[a].id
        != #[trigger] post[b].id by {
        assert(post[a].id == pre[a].id);
        assert(post[b].id == pre[b].id);
    }
}

/// Adding an entity whose id no entity has keeps ids distinct.
proof fn lemma_push_fresh_unique<S>(pre: Seq<EntityView<S>>, e: EntityView<S>)
    requires
        ids_unique(pre),
        !has_id(pre, e.id),
    ensures
        ids_unique(pre.push(e)),
{
    let post = pre.push(e);
    assert forall|a: int, b: int|
        0 <= a < post.len() && 0 <= b < post.len() && a != b implies #[trigger] post[a].id
        != #[trigger] post[b].id by {
        if a < pre.len() {
            assert(post[a] == pre[a]);
        }
        if b < pre.len() {
            assert(post[b] == pre[b]);
        }
    }
}

/// Removing an entity keeps ids distinct.
proof fn lemma_remove_unique<S>(pre: Seq<EntityView<S>>, k: int)
    requires
        ids_unique(pre),
        0 <= k < pre.len(),
    ensures
        ids_unique(pre.remove(k)),
{
    let post = pre.remove(k);
    assert forall|a: int, b: int|
        0 <= a < post.len() && 0 <= b < post.len() && a != b implies #[trigger] post[a].id
        != #[trigger] post[b].id by {
        let a0 = if a < k { a } else { a + 1 };
        let b0 = if b < k { b } else { b + 1 };
        assert(post[a] == pre[a0]);
        assert(post[b] == pre[b0]);
    }
}

/// Applying one snapshot entry keeps entity ids distinct.
proof fn lemma_receive_step_unique<S: EntityState>(
    es: Seq<EntityView<S>>,
    rec: EntityRecord,
    st: Option<S>,
    tick: u8,
    buffer: nat,
)
    requires
        ids_unique(es),
    ensures
        ids_unique(receive_step(es, rec, st, tick, buffer).0),
{
    let r = receive_step(es, rec, st, tick, buffer).0;
    if has_id(es, rec.id) {
        let i = index_of_id(es, rec.id);
        lemma_received_update_id(es[i], rec, st, tick);
        assert forall|a: int| 0 <= a < es.len() implies #[trigger] r[a].id == es[a].id by {
        }
        lemma_same_ids_unique(es, r);
    } else {
        let (e0, ev0) = received_new(rec, st, tick, buffer);
        lemma_received_update_id(e0, rec, st, tick);
        lemma_push_fresh_unique(es, received_update(e0, rec, st, tick).0);
    }
}

/// Marking entities dead keeps their ids.
proof fn lemma_all_dead_unique<S>(es: Seq<EntityView<S>>)
    requires
        ids_unique(es),
    ensures
        ids_unique(all_dead(es)),
        all_dead(es).len() == es.len(),
{
    let d = all_dead(es);
    assert forall|a: int| 0 <= a < es.len() implies #[trigger] d[a].id == es[a].id by {
    }
    lemma_same_ids_unique(es, d);
}

/// The entities still alive keep distinct ids.
proof fn lemma_survivors_unique<S>(es: Seq<EntityView<S>>)
    requires
        ids_unique(es),
    ensures
        ids_unique(survivors(es)),
        forall|x: EntityView<S>| #[trigger] survivors(es).contains(x) ==> es.contains(x),
    decreases es.len(),
{
    reveal_with_fuel(Seq::filter, 1);
    if es.len() > 0 {
        let front = es.drop_last();
        assert forall|a: int, b: int|
            0 <= a < front.len() && 0 <= b < front.len() && a != b implies #[trigger] front[a].id
            != #[trigger] front[b].id by {
            assert(front[a] == es[a]);
            assert(front[b] == es[b]);
        }
        lemma_survivors_unique(front);
        let sf = survivors(front);
        let last = es.last();
        assert forall|x: EntityView<S>| #[trigger] sf.contains(x) implies x.id != last.id
            && es.contains(x) by {
            let j = choose|j: int| 0 <= j < front.len() && front[j] == x;
            assert(es[j] == x);
            assert(es[es.len() - 1] == last);
        }
        let r = survivors(es);
        if last.alive {
            assert(r == sf.push(last));
            assert forall|a: int, b: int|
                0 <= a < r.len() && 0 <= b < r.len() && a != b implies #[trigger] r[a].id
                != #[trigger] r[b].id by {
                if a < sf.len() && b < sf.len() {
                    assert(r[a] == sf[a]);
                    assert(r[b] == sf[b]);
                } else if a < sf.len() {
                    assert(r[a] == sf[a]);
                    assert(sf.contains(sf[a]));
                } else {
                    assert(r[b] == sf[b]);
                    assert(sf.contains(sf[b]));
                }
            }
            assert forall|x: EntityView<S>| #[trigger] r.contains(x) implies es.contains(x) by {
                if x != last {
                    let j = choose|j: int| 0 <= j < r.len() && r[j] == x;
                    assert(sf[j] == x);
                    assert(sf.contains(x));
                } else {
                    assert(es[es.len() - 1] == last);
                }
            }
        } else {
            assert(r == sf);
        }
    } else {
        assert(survivors(es) =~= Seq::empty());
    }
}

/// A snapshot entry applied to an entity leaves it alive.
proof fn lemma_received_update_alive<S: EntityState>(e: EntityView<S>, rec: EntityRecord, st: Option<S>, tick: u8)
    ensures
        received_update(e, rec, st, tick).0.alive,
{
}

/// The id set and liveness after the first `n` snapshot entries: every
/// entry's entity is there, and an entity is alive exactly when some entry
/// among the first `n` names it.
proof fn lemma_receive_fold_alive<S: EntityState>(
    pre: Seq<EntityView<S>>,
    recs: Seq<EntityRecord>,
    sts: Seq<Option<S>>,
    tick: u8,
    buffer: nat,
    n: nat,
)
    requires
        ids_unique(pre),
        n <= recs.len(),
        n <= sts.len(),
    ensures
        ({
            let es = receive_fold(all_dead(pre), recs, sts, tick, buffer, n).0;
            &&& ids_unique(es)
            &&& forall|i: int|
                0 <= i < es.len() ==> (#[trigger] es[i].alive <==> exists|k: int|
                    0 <= k < n && #[trigger] recs[k].id == es[i].id)
            &&& forall|k: int| 0 <= k < n ==> has_id(es, #[trigger] recs[k].id)
            &&& forall|id: u16| has_id(es, id) ==> has_id(pre, id) || exists|k: int|
                0 <= k < n && #[trigger] recs[k].id == id
        }),
    decreases n,
{
    if n == 0 {
        lemma_all_dead_unique(pre);
        let es = all_dead(pre);
        assert forall|id: u16| has_id(es, id) implies has_id(pre, id) by {
            let i = choose|i: int| 0 <= i < es.len() && #[trigger] es[i].id == id;
            assert(pre[i].id == id);
        }
    } else {
        let m = (n - 1) as nat;
        lemma_receive_fold_alive(pre, recs, sts, tick, buffer, m);
        let es1 = receive_fold(all_dead(pre), recs, sts, tick, buffer, m).0;
        let rec = recs[m as int];
        let st = sts[m as int];
        lemma_receive_step_unique(es1, rec, st, tick, buffer);
        let es = receive_step(es1, rec, st, tick, buffer).0;
        assert(es == receive_fold(all_dead(pre), recs, sts, tick, buffer, n).0);
        if has_id(es1, rec.id) {
            let j = index_of_id(es1, rec.id);
            lemma_received_update_id(es1[j], rec, st, tick);
            lemma_received_update_alive(es1[j], rec, st, tick);
            assert(es[j].id == rec.id);
            assert forall|i: int| 0 <= i < es.len() implies (#[trigger] es[i].alive <==> exists|k: int|
                0 <= k < n && #[trigger] recs[k].id == es[i].id) by {
                if i == j {
                    assert(recs[m as int].id == es[i].id);
                } else {
                    assert(es[i] == es1[i]);
                    assert(es1[i].id != rec.id);
                    if es[i].alive {
                        let k = choose|k: int| 0 <= k < m && #[trigger] recs[k].id == es1[i].id;
                        assert(recs[k].id == es[i].id);
                    }
                    if exists|k: int| 0 <= k < n && #[trigger] recs[k].id == es[i].id {
                        let k = choose|k: int| 0 <= k < n && #[trigger] recs[k].id == es[i].id;
                        assert(k != m);
                        assert(recs[k].id == es1[i].id);
                    }
                }
            }
            assert forall|k: int| 0 <= k < n implies has_id(es, #[trigger] recs[k].id) by {
                if k < m {
                    let i = choose|i: int| 0 <= i < es1.len() && #[trigger] es1[i].id == recs[k].id;
                    assert(es[i].id == es1[i].id);
                } else {
                    assert(es[j].id == recs[k].id);
                }
            }
            assert forall|id: u16| has_id(es, id) implies has_id(pre, id) || exists|k: int|
                0 <= k < n && #[trigger] recs[k].id == id by {
                let i = choose|i: int| 0 <= i < es.len() && #[trigger] es[i].id == id;
                assert(es1[i].id == id);
                assert(has_id(es1, id));
                if !has_id(pre, id) {
                    let k = choose|k: int| 0 <= k < m && #[trigger] recs[k].id == id;
                    assert(recs[k].id == id);
                }
            }
        } else {
            let (e0, ev0) = received_new(rec, st, tick, buffer);
            lemma_received_update_id(e0, rec, st, tick);
            lemma_received_update_alive(e0, rec, st, tick);
            let last = es1.len() as int;
            assert(es[last].id == rec.id);
            assert forall|i: int| 0 <= i < es.len() implies (#[trigger] es[i].alive <==> exists|k: int|
                0 <= k < n && #[trigger] recs[k].id == es[i].id) by {
                if i == last {
                    assert(recs[m as int].id == es[i].id);
                } else {
                    assert(es[i] == es1[i]);
                    assert(es1[i].id != rec.id);
                    if es[i].alive {
                        let k = choose|k: int| 0 <= k < m && #[trigger] recs[k].id == es1[i].id;
                        assert(recs[k].id == es[i].id);
                    }
                    if exists|k: int| 0 <= k < n && #[trigger] recs[k].id == es[i].id {
                        let k = choose|k: int| 0 <= k < n && #[trigger] recs[k].id == es[i].id;
                        assert(k != m);
                        assert(recs[k].id == es1[i].id);
                    }
                }
            }
            assert forall|k: int| 0 <= k < n implies has_id(es, #[trigger] recs[k].id) by {
                if k < m {
                    let i = choose|i: int| 0 <= i < es1.len() && #[trigger] es1[i].id == recs[k].id;
                    assert(es[i].id == es1[i].id);
                } else {
                    assert(es[last].id == recs[k].id);
                }
            }
            assert forall|id: u16| has_id(es, id) implies has_id(pre, id) || exists|k: int|
                0 <= k < n && #[trigger] recs[k].id == id by {
                let i = choose|i: int| 0 <= i < es.len() && #[trigger] es[i].id == id;
                if i == last {
                    assert(recs[m as int].id == id);
                } else {
                    assert(es1[i].id == id);
                    assert(has_id(es1, id));
                    if !has_id(pre, id) {
                        let k = choose|k: int| 0 <= k < m && #[trigger] recs[k].id == id;
                        assert(recs[k].id == id);
                    }
                }
            }
        }
    }
}

/// After a snapshot is applied, the client holds exactly the entities the
/// snapshot names, all alive, with distinct ids.
pub proof fn lemma_snapshot_mirrors_entities<S: EntityState>(
    pre: EntityManagerView<S>,
    post: EntityManagerView<S>,
    recs: Seq<EntityRecord>,
    sts: Seq<Option<S>>,
)
    requires
        ids_unique(pre.entities),
        sts.len() == recs.len(),
        apply_records_post(pre, post, recs, sts),
    ensures
        ids_unique(post.entities),
        forall|i: int| 0 <= i < post.entities.len() ==> #[trigger] post.entities[i].alive,
        forall|id: u16|
            #![trigger has_id(post.entities, id)]
            has_id(post.entities, id) <==> exists|k: int| 0 <= k < recs.len() && #[trigger] recs[k].id == id,
{
    let buffer = pre.config.buffered_ticks as nat;
    let n = recs.len();
    lemma_receive_fold_alive(pre.entities, recs, sts, pre.tick, buffer, n);
    let es = receive_fold(all_dead(pre.entities), recs, sts, pre.tick, buffer, n).0;
    lemma_survivors_unique(es);
    let sv = survivors(es);
    assert(post.entities == sv);
    assert forall|i: int| 0 <= i < sv.len() implies #[trigger] sv[i].alive by {
        es.lemma_filter_pred(|e: EntityView<S>| e.alive, i);
    }
    assert forall|id: u16| has_id(sv, id) <==> exists|k: int| 0 <= k < recs.len() && #[trigger] recs[k].id == id by {
        if has_id(sv, id) {
            let i = choose|i: int| 0 <= i < sv.len() && #[trigger] sv[i].id == id;
            es.lemma_filter_pred(|e: EntityView<S>| e.alive, i);
            assert(sv.contains(sv[i]));
            assert(es.contains(sv[i]));
            let j = choose|j: int| 0 <= j < es.len() && es[j] == sv[i];
            assert(es[j].alive);
            let k = choose|k: int| 0 <= k < n && #[trigger] recs[k].id == es[j].id;
            assert(recs[k].id == id);
        }
        if exists|k: int| 0 <= k < recs.len() && #[trigger] recs[k].id == id {
            let k = choose|k: int| 0 <= k < recs.len() && #[trigger] recs[k].id == id;
            assert(has_id(es, recs[k].id));
            let j = choose|j: int| 0 <= j < es.len() && #[trigger] es[j].id == recs[k].id;
            assert(es[j].alive);
            es.lemma_filter_contains(|e: EntityView<S>| e.alive, j);
            let x = es[j];
            assert(sv.contains(x));
            let i = choose|i: int| 0 <= i < sv.len() && sv[i] == x;
            assert(sv[i].id == id);
        }
    }
}

/// Taking remote inputs keeps an entity's id.
proof fn lemma_remote_inputs_keep_id<S>(e: EntityView<S>, inputs: Seq<crate::input::EntityInput>)
    ensures
        remote_inputs_view(e, inputs).id == e.id,
    decreases inputs.len(),
{
    if inputs.len() > 0 {
        lemma_remote_inputs_keep_id(e, inputs.drop_last());
    }
}

/// With a state given exactly for visible entries, an entity takes the
/// visibility of the snapshot entry applied to it.
proof fn lemma_received_update_visible<S: EntityState>(e: EntityView<S>, rec: EntityRecord, st: Option<S>, tick: u8)
    requires
        st is Some <==> rec.visible,
    ensures
        received_update(e, rec, st, tick).0.visible == rec.visible,
{
}

/// The entity a snapshot entry is applied to: the client's entity with the
/// entry's id (marked dead), or else the new entity the entry introduces.
pub open spec fn entry_base<S: EntityState>(
    pre: Seq<EntityView<S>>,
    rec: EntityRecord,
    st: Option<S>,
    tick: u8,
    buffer: nat,
) -> EntityView<S> {
    if has_id(pre, rec.id) {
        all_dead(pre)[index_of_id(pre, rec.id)]
    } else {
        received_new(rec, st, tick, buffer).0
    }
}

/// Whether the client's entity with id `id` was visible and controlled
/// locally.
pub open spec fn was_local<S: EntityState>(es: Seq<EntityView<S>>, id: u16) -> bool {
    has_id(es, id) && es[index_of_id(es, id)].visible && is_local_flags(
        es[index_of_id(es, id)].state.flags_of(),
    )
}

/// After the first `n` snapshot entries, with distinct ids, the client's
/// entities keep their places and ids, those no entry named are unchanged,
/// and an entity named by an entry is that entry applied to its base.
proof fn lemma_receive_fold_entries<S: EntityState>(
    pre: Seq<EntityView<S>>,
    recs: Seq<EntityRecord>,
    sts: Seq<Option<S>>,
    tick: u8,
    buffer: nat,
    n: nat,
)
    requires
        ids_unique(pre),
        n <= recs.len(),
        n <= sts.len(),
        forall|a: int, b: int| 0 <= a < n && 0 <= b < n && a != b ==> #[trigger] recs[a].id != #[trigger] recs[b].id,
    ensures
        ({
            let es = receive_fold(all_dead(pre), recs, sts, tick, buffer, n).0;
            &&& es.len() >= pre.len()
            &&& forall|i: int| 0 <= i < pre.len() ==> #[trigger] es[i].id == pre[i].id
            &&& forall|i: int|
                #![trigger es[i]]
                0 <= i < pre.len() && (forall|k: int| 0 <= k < n ==> #[trigger] recs[k].id != pre[i].id)
                    ==> es[i] == all_dead(pre)[i]
            &&& forall|i: int, k: int|
                #![trigger es[i], recs[k]]
                0 <= i < es.len() && 0 <= k < n && recs[k].id == es[i].id ==> es[i] == received_update(
                    entry_base(pre, recs[k], sts[k], tick, buffer),
                    recs[k],
                    sts[k],
                    tick,
                ).0
        }),
    decreases n,
{
    if n == 0 {
        let es = all_dead(pre);
        assert forall|i: int| 0 <= i < pre.len() implies #[trigger] es[i].id == pre[i].id by {
        }
    } else {
        let m = (n - 1) as nat;
        lemma_receive_fold_entries(pre, recs, sts, tick, buffer, m);
        lemma_receive_fold_alive(pre, recs, sts, tick, buffer, m);
        let es1 = receive_fold(all_dead(pre), recs, sts, tick, buffer, m).0;
        let rec = recs[m as int];
        let st = sts[m as int];
        let es = receive_step(es1, rec, st, tick, buffer).0;
        assert(es == receive_fold(all_dead(pre), recs, sts, tick, buffer, n).0);
        assert forall|k: int| 0 <= k < m implies #[trigger] recs[k].id != rec.id by {
            assert(recs[k].id != recs[m as int].id);
        }
        if has_id(es1, rec.id) {
            let j = index_of_id(es1, rec.id);
            if j >= pre.len() {
                if has_id(pre, rec.id) {
                    let q = choose|q: int| 0 <= q < pre.len() && #[trigger] pre[q].id == rec.id;
                    assert(es1[q].id == rec.id);
                    assert(es1[j].id == rec.id);
                } else {
                    let k = choose|k: int| 0 <= k < m && #[trigger] recs[k].id == rec.id;
                    assert(recs[k].id != rec.id);
                }
            }
            assert(j < pre.len());
            assert(pre[j].id == rec.id);
            assert forall|k: int| 0 <= k < m implies #[trigger] recs[k].id != pre[j].id by {
                assert(recs[k].id != rec.id);
            }
            assert(es1[j] == all_dead(pre)[j]);
            assert(has_id(pre, rec.id));
            let q = index_of_id(pre, rec.id);
            assert(pre[q].id == rec.id);
            assert(q == j);
            lemma_received_update_id(es1[j], rec, st, tick);
            assert forall|i: int| 0 <= i < pre.len() implies #[trigger] es[i].id == pre[i].id by {
                if i != j {
                    assert(es[i] == es1[i]);
                }
            }
            assert forall|i: int|
                #![trigger es[i]]
                0 <= i < pre.len() && (forall|k: int| 0 <= k < n ==> #[trigger] recs[k].id != pre[i].id)
                    implies es[i] == all_dead(pre)[i] by {
                assert(recs[m as int].id != pre[i].id);
                assert(i != j);
                assert(es[i] == es1[i]);
            }
            assert forall|i: int, k: int|
                #![trigger es[i], recs[k]]
                0 <= i < es.len() && 0 <= k < n && recs[k].id == es[i].id implies es[i] == received_update(
                    entry_base(pre, recs[k], sts[k], tick, buffer),
                    recs[k],
                    sts[k],
                    tick,
                ).0 by {
                if i == j {
                    if k != m {
                        assert(recs[k].id != recs[m as int].id);
                    }
                } else {
                    assert(es[i] == es1[i]);
                    assert(es1[i].id != es1[j].id);
                    assert(k != m);
                }
            }
        } else {
            if has_id(pre, rec.id) {
                let q = choose|q: int| 0 <= q < pre.len() && #[trigger] pre[q].id == rec.id;
                assert(es1[q].id == rec.id);
            }
            let (e0, ev0) = received_new(rec, st, tick, buffer);
            lemma_received_update_id(e0, rec, st, tick);
            let last = es1.len() as int;
            assert forall|i: int| 0 <= i < pre.len() implies #[trigger] es[i].id == pre[i].id by {
                assert(es[i] == es1[i]);
            }
            assert forall|i: int|
                #![trigger es[i]]
                0 <= i < pre.len() && (forall|k: int| 0 <= k < n ==> #[trigger] recs[k].id != pre[i].id)
                    implies es[i] == all_dead(pre)[i] by {
                assert(es[i] == es1[i]);
            }
            assert forall|i: int, k: int|
                #![trigger es[i], recs[k]]
                0 <= i < es.len() && 0 <= k < n && recs[k].id == es[i].id implies es[i] == received_update(
                    entry_base(pre, recs[k], sts[k], tick, buffer),
                    recs[k],
                    sts[k],
                    tick,
                ).0 by {
                if i == last {
                    if k != m {
                        assert(recs[k].id != recs[m as int].id);
                    }
                } else {
                    assert(es[i] == es1[i]);
                    if k == m {
                        assert(es1[i].id == rec.id);
                        assert(has_id(es1, rec.id));
                    }
                }
            }
        }
    }
}

/// A visible snapshot entry with state `s` leaves an entity with state `s`,
/// or, when it is controlled locally, with `s` as the state confirmed for
/// the entry's tick; an entity that was not visible and local before takes
/// a state `s` that is not local.
proof fn lemma_received_update_state<S: EntityState>(e: EntityView<S>, rec: EntityRecord, s: S, tick: u8)
    requires
        rec.visible,
    ensures
        ({
            let u = received_update(e, rec, Some(s), tick).0;
            &&& u.state == s || u.confirmed_state == Some((rec.confirmed_tick, s))
            &&& !is_local_flags(s.flags_of()) && !(e.visible && is_local_flags(e.state.flags_of()))
                ==> u.state == s && u.base_state == s
        }),
{
}

/// The snapshot a server with entities `server.entities` sends with the
/// encoded states `states`: the entries of its entities, in order.
pub open spec fn snapshot_bytes<S: EntityState>(server: EntityManagerView<S>, states: Seq<Option<S>>) -> Seq<u8> {
    entries_bytes(snapshot_entries(server.entities, states))
}

/// What the server sends, the client mirrors: once a client has applied
/// the snapshot a server serialized for it, where each state encodes to
/// `S::wire_size()` bytes and decodes back from the start of a byte string,
/// the client holds exactly the server's entities (by id), all alive and
/// with distinct ids; each is visible exactly when the server sent it with
/// a state; such an entity holds the state sent, or has it as the state
/// confirmed for the entry's tick when it is controlled locally; and it
/// holds the state sent, as current and base state, whenever neither that
/// state nor the client's entity before was controlled locally.
pub proof fn lemma_client_mirrors_server<S: EntityState>(
    server: EntityManagerView<S>,
    states: Seq<Option<S>>,
    pre: EntityManagerView<S>,
    post: EntityManagerView<S>,
    sts: Seq<Option<S>>,
)
    requires
        ids_unique(server.entities),
        states.len() == server.entities.len(),
        forall|k: int|
            0 <= k < states.len() && #[trigger] states[k] is Some ==> states[k].unwrap().encoded_of()@.len()
                == S::wire_size(),
        forall|s: S, rest: &[u8]|
            #![trigger S::decoded_of(rest), s.encoded_of()]
            rest@.len() >= S::wire_size() && rest@.subrange(0, S::wire_size() as int) == s.encoded_of()@
                ==> S::decoded_of(rest) == s,
        snapshot_bytes(server, states).len() <= usize::MAX,
        ids_unique(pre.entities),
        ({
            let recs = records_from(snapshot_bytes(server, states), S::wire_size() as nat, 0);
            &&& sts.len() == recs.len()
            &&& forall|k: int| 0 <= k < recs.len() ==> #[trigger] entry_state(snapshot_bytes(server, states), recs[k], sts[k])
            &&& apply_records_post(pre, post, recs, sts)
        }),
    ensures
        ids_unique(post.entities),
        forall|i: int| 0 <= i < post.entities.len() ==> #[trigger] post.entities[i].alive,
        forall|id: u16| #![trigger has_id(post.entities, id)] has_id(post.entities, id) <==> has_id(server.entities, id),
        forall|i: int, j: int|
            #![trigger post.entities[i], server.entities[j]]
            0 <= i < post.entities.len() && 0 <= j < server.entities.len() && post.entities[i].id
                == server.entities[j].id ==> post.entities[i].visible == (states[j] is Some),
        forall|i: int, j: int|
            #![trigger post.entities[i], server.entities[j]]
            0 <= i < post.entities.len() && 0 <= j < server.entities.len() && post.entities[i].id
                == server.entities[j].id && states[j] is Some ==> post.entities[i].state == states[j].unwrap()
                || post.entities[i].confirmed_state == Some(
                (server.entities[j].confirmed_input_tick, states[j].unwrap()),
            ),
        forall|i: int, j: int|
            #![trigger post.entities[i], server.entities[j]]
            0 <= i < post.entities.len() && 0 <= j < server.entities.len() && post.entities[i].id
                == server.entities[j].id && states[j] is Some && !is_local_flags(
                states[j].unwrap().flags_of(),
            ) && !was_local(pre.entities, server.entities[j].id) ==> post.entities[i].state
                == states[j].unwrap() && post.entities[i].base_state == states[j].unwrap(),
{
    let size = S::wire_size() as nat;
    let model = snapshot_entries(server.entities, states);
    let data = entries_bytes(model);
    let recs = records_from(data, size, 0);
    let n = server.entities.len();
    assert forall|k: int| 0 <= k < model.len() && #[trigger] model[k].3 implies model[k].4.len() == size by {
        assert(states[k] is Some);
    }
    lemma_snapshot_roundtrip(model, size);
    assert(recs.len() == n);
    assert forall|k: int| 0 <= k < n implies (#[trigger] sts[k] is Some <==> recs[k].visible) by {
        assert(recs[k].id == model[k].0);
        assert(entry_state(data, recs[k], sts[k]));
    }
    // The decoded states are the states sent.
    assert forall|k: int| 0 <= k < n && #[trigger] states[k] is Some implies sts[k] == states[k] by {
        assert(recs[k].id == model[k].0);
        assert(entry_state(data, recs[k], sts[k]));
        let at = recs[k].state_at.unwrap();
        let rest = choose|rest: &[u8]|
            #![trigger S::decoded_of(rest)]
            rest@ == data.subrange(at as int, data.len() as int) && sts[k] == Some(S::decoded_of(rest));
        assert(rest@.subrange(0, size as int) =~= data.subrange(at as int, at + size));
        let s = states[k].unwrap();
        assert(model[k].4 == s.encoded_of()@);
        assert(S::decoded_of(rest) == s);
    }
    assert forall|a: int, b: int| 0 <= a < n && 0 <= b < n && a != b implies #[trigger] recs[a].id
        != #[trigger] recs[b].id by {
        assert(recs[a].id == model[a].0);
        assert(recs[b].id == model[b].0);
        assert(server.entities[a].id != server.entities[b].id);
    }
    lemma_snapshot_mirrors_entities(pre, post, recs, sts);
    assert forall|id: u16| #![trigger has_id(post.entities, id)] has_id(post.entities, id) <==> has_id(server.entities, id) by {
        if has_id(post.entities, id) {
            let k = choose|k: int| 0 <= k < recs.len() && #[trigger] recs[k].id == id;
            assert(recs[k].id == model[k].0);
            assert(server.entities[k].id == id);
        }
        if has_id(server.entities, id) {
            let k = choose|k: int| 0 <= k < n && #[trigger] server.entities[k].id == id;
            assert(recs[k].id == model[k].0);
            assert(recs[k].id == id);
        }
    }
    let buffer = pre.config.buffered_ticks as nat;
    let tick = pre.tick;
    lemma_receive_fold_alive(pre.entities, recs, sts, tick, buffer, n);
    lemma_receive_fold_entries(pre.entities, recs, sts, tick, buffer, n);
    let es = receive_fold(all_dead(pre.entities), recs, sts, tick, buffer, n).0;
    lemma_survivors_unique(es);
    assert forall|i: int, j: int|
        #![trigger post.entities[i], server.entities[j]]
        0 <= i < post.entities.len() && 0 <= j < n && post.entities[i].id == server.entities[j].id
            implies {
            &&& post.entities[i].visible == (states[j] is Some)
            &&& states[j] is Some ==> post.entities[i].state == states[j].unwrap()
                || post.entities[i].confirmed_state == Some(
                (server.entities[j].confirmed_input_tick, states[j].unwrap()),
            )
            &&& states[j] is Some && !is_local_flags(states[j].unwrap().flags_of()) && !was_local(
                pre.entities,
                server.entities[j].id,
            ) ==> post.entities[i].state == states[j].unwrap() && post.entities[i].base_state
                == states[j].unwrap()
        } by {
        let x = post.entities[i];
        assert(survivors(es).contains(x));
        assert(es.contains(x));
        let q = choose|q: int| 0 <= q < es.len() && es[q] == x;
        assert(recs[j].id == model[j].0);
        assert(recs[j].id == es[q].id);
        let base = entry_base(pre.entities, recs[j], sts[j], tick, buffer);
        assert(es[q] == received_update(base, recs[j], sts[j], tick).0);
        lemma_received_update_visible(base, recs[j], sts[j], tick);
        if states[j] is Some {
            let s = states[j].unwrap();
            assert(sts[j] == Some(s));
            assert(recs[j].confirmed_tick == model[j].2);
            lemma_received_update_state(base, recs[j], s, tick);
            if !has_id(pre.entities, recs[j].id) {
                assert(base.visible && base.state == s);
            }
        }
    }
}

/// A snapshot entry with state `s` for an entity that is not controlled
/// locally, and whose new state is not either, makes `s` its current and
/// base state, so that the next client tick starts from `s`; an entity that
/// was already visible keeps its state before the entry as its previous
/// state; the state buffer and the pending inputs are left alone (so
/// without a confirmed state the next tick starts from `s`).
pub proof fn lemma_remote_entity_takes_snapshot_state<S: EntityState>(
    e: EntityView<S>,
    rec: EntityRecord,
    s: S,
    tick: u8,
)
    requires
        !is_local_flags(e.state.flags_of()),
        !is_local_flags(s.flags_of()),
    ensures
        ({
            let u = received_update(e, rec, Some(s), tick).0;
            &&& u.state == s
            &&& u.base_state == s
            &&& e.visible ==> u.last_state == e.state
            &&& u.state_buffer == e.state_buffer
            &&& u.inputs == e.inputs
            &&& u.confirmed_state == e.confirmed_state
            &&& u.id == e.id
            &&& u.alive
            &&& e.confirmed_state is None ==> crate::entity::tick_begin_view(u).state == s
        }),
{
}

/// A snapshot entry with state `s` for a visible, locally controlled entity
/// leaves its predicted states alone and records `s` as the state the
/// server confirmed for the entry's tick, to be taken over at the next
/// tick; a visible entity not controlled locally that stays visible gets a
/// flags event exactly when the flags change, and no other event.
pub proof fn lemma_snapshot_state_for_local_and_remote<S: EntityState>(
    e: EntityView<S>,
    rec: EntityRecord,
    s: S,
    tick: u8,
)
    requires
        e.visible,
    ensures
        is_local_flags(e.state.flags_of()) ==> ({
            let u = received_update(e, rec, Some(s), tick).0;
            &&& u.confirmed_state == Some((rec.confirmed_tick, s))
            &&& u.state == e.state
            &&& u.base_state == e.base_state
            &&& u.last_state == e.last_state
            &&& u.inputs == e.inputs
        }),
        !is_local_flags(e.state.flags_of()) && rec.visible ==> received_update(e, rec, Some(s), tick).1 == (
        if e.state.flags_of() != s.flags_of() {
            seq![(e.id, EntityEvent::Flags(s.flags_of()), s)]
        } else {
            Seq::empty()
        }),
{
}

/// Creating an entity queues its `Created` event for the current tick, with
/// its state, last; before it comes a flags event exactly when the initial
/// state's flags differ from the default state's.
pub proof fn lemma_created_events<S: EntityState>(id: u16, state: Option<S>, tick: u8)
    ensures
        ({
            let ev = created_events(id, state, tick);
            let s = match state {
                Some(s) => s,
                None => S::default_of(),
            };
            let flagged = state is Some && S::default_of().flags_of() != s.flags_of();
            &&& ev.len() == if flagged { 2int } else { 1int }
            &&& ev.last() == (id, EntityEvent::Created(tick), s)
            &&& flagged ==> ev[0] == (id, EntityEvent::Flags(s.flags_of()), s)
        }),
{
}

/// An entity created with an initial state `s` has `s` as its current,
/// base and previous state, so a tick with no confirmed state and no inputs
/// keeps `s`; without an initial state all three are the default state.
/// It is alive, hidden, with the given id, type, owner and buffer sizes and
/// empty buffers.
pub proof fn lemma_created_entity_starts_from_its_state<S: EntityState>(
    id: u16,
    type_id: u8,
    buffer: nat,
    owner: Option<u32>,
    state: Option<S>,
)
    ensures
        ({
            let e = created_view(id, type_id, buffer, owner, state);
            let s = match state {
                Some(s) => s,
                None => S::default_of(),
            };
            &&& e.state == s
            &&& e.base_state == s
            &&& e.last_state == s
            &&& crate::entity::tick_begin_view(e).state == s
            &&& crate::entity::tick_begin_view(e).last_state == s
            &&& e.id == id && e.type_id == type_id && e.owner == owner
            &&& e.alive && !e.visible
            &&& e.state_buffer.len() == 0 && e.inputs.len() == 0
            &&& e.input_buffer_size == buffer && e.state_buffer_size == buffer
        }),
{
}

/// On a server, where every entity id was drawn from the pool, `create`
/// adds the new entity at the end without replacing any, and every entity
/// id stays drawn from the pool.
pub proof fn lemma_create_appends<S: EntityState>(
    pre: EntityManagerView<S>,
    post: EntityManagerView<S>,
    id: u16,
    e: EntityView<S>,
)
    requires
        crate::idpool::pool_inv(pre.pool),
        forall|i: int| 0 <= i < pre.entities.len() ==> pre.pool.acquired.contains(#[trigger] pre.entities[i].id),
        get_id_post(pre.pool, post.pool, Some(id)),
        e.id == id,
        post.entities == insert_entity(pre.entities, e),
    ensures
        post.entities == pre.entities.push(e),
        forall|i: int| 0 <= i < post.entities.len() ==> post.pool.acquired.contains(#[trigger] post.entities[i].id),
{
    crate::idpool::lemma_get_id_fresh(pre.pool, post.pool, id);
    if has_id(pre.entities, id) {
        let i = choose|i: int| 0 <= i < pre.entities.len() && #[trigger] pre.entities[i].id == id;
        assert(pre.pool.acquired.contains(pre.entities[i].id));
    }
    assert forall|i: int| 0 <= i < post.entities.len() implies post.pool.acquired.contains(#[trigger] post.entities[i].id) by {
        if i < pre.entities.len() {
            assert(post.entities[i] == pre.entities[i]);
            assert(pre.pool.acquired.contains(pre.entities[i].id));
        }
    }
}

/// After `destroy(id)` removed an entity, no entity has that id any more and
/// the id is free in the pool.
pub proof fn lemma_destroy_removes<S>(pre: EntityManagerView<S>, post: EntityManagerView<S>, id: u16)
    requires
        ids_unique(pre.entities),
        has_id(pre.entities, id),
        post.entities == pre.entities.remove(index_of_id(pre.entities, id)),
        release_id_post(pre.pool, post.pool, id),
    ensures
        !has_id(post.entities, id),
        !post.pool.acquired.contains(id),
{
    let k = index_of_id(pre.entities, id);
    if has_id(post.entities, id) {
        let i = choose|i: int| 0 <= i < post.entities.len() && #[trigger] post.entities[i].id == id;
        let i0 = if i < k { i } else { i + 1 };
        assert(post.entities[i] == pre.entities[i0]);
        assert(pre.entities[k].id == id);
    }
}

impl<S: EntityState> EntityManager<S> {
    /// A well-formed manager has distinct entity ids and an id pool that
    /// satisfies the pool invariant.
    pub proof fn lemma_wf_inv(&self)
        requires
            self.wf(),
        ensures
            ids_unique(self@.entities),
            crate::idpool::pool_inv(self@.pool),
    {
        self.id_pool.lemma_wf_inv();
    }

    /// The manager's invariant: a well-formed id pool and distinct entity ids.
    pub closed spec fn wf(&self) -> bool {
        &&& self.id_pool.wf()
        &&& ids_unique(self@.entities)
    }

    /// An empty manager with configuration `config`, running as server when
    /// `server_mode`.
    pub fn new(config: EntityManagerConfig, server_mode: bool) -> (m: Self)
        ensures
            m.wf(),
            m@.entities.len() == 0,
            m@.pool == empty_pool(),
            m@.config == config,
            m@.tick == 0,
            m@.server_mode == server_mode,
            m@.events.len() == 0,
    {
        let m = EntityManager {
            id_pool: IdPool::new(),
            entities: Vec::new(),
            config,
            tick: 0,
            server_mode,
            events: Vec::new(),
        };
        assert(m@.entities.len() == 0);
        m
    }

    /// The current tick.
    pub fn tick(&self) -> (t: u8)
        ensures
            t == self@.tick,
    {
        self.tick
    }

    /// Moves on to the next tick, wrapping around after 255.
    pub fn advance_tick(&mut self)
        requires
            old(self).wf(),
        ensures
            final(self).wf(),
            final(self)@ == (EntityManagerView { tick: next_tick_spec(old(self)@.tick), ..old(self)@ }),
    {
        self.tick = self.tick.wrapping_add(1);
    }

    pub fn config(&self) -> (c: &EntityManagerConfig)
        ensures
            *c == self@.config,
    {
        &self.config
    }

    pub fn server_mode(&self) -> (r: bool)
        ensures
            r == self@.server_mode,
    {
        self.server_mode
    }

    /// Drops all entities, frees all ids and starts again at tick 0.
    pub fn reset(&mut self)
        requires
            old(self).wf(),
        ensures
            final(self).wf(),
            final(self)@ == (EntityManagerView {
                entities: Seq::empty(),
                pool: empty_pool(),
                tick: 0,
                ..old(self)@
            }),
    {
        self.tick = 0;
        self.entities.clear();
        self.id_pool.reset();
        assert(self@.entities =~= Seq::empty());
    }

    /// Number of entities.
    pub fn len(&self) -> (n: usize)
        ensures
            n == self@.entities.len(),
    {
        self.entities.len()
    }

    /// The entity at position `i` of the iteration order.
    pub fn entity_at(&self, i: usize) -> (e: &Entity<S>)
        requires
            i < self@.entities.len(),
        ensures
            e@ == self@.entities[i as int],
    {
        &self.entities[i]
    }

    /// Mutable access to the entity at position `i` of the iteration order.
    /// The manager stays well-formed when the entity keeps its id.
    #[verifier::spinoff_prover]
    pub fn entity_at_mut(&mut self, i: usize) -> (e: &mut Entity<S>)
        requires
            i < old(self)@.entities.len(),
        ensures
            e@ == old(self)@.entities[i as int],
            final(self)@ == (EntityManagerView {
                entities: old(self)@.entities.update(i as int, final(e)@),
                ..old(self)@
            }),
            old(self).wf() && final(e)@.id == e@.id ==> final(self).wf(),
    {
        let ghost pre = self.entities@;
        let e = &mut self.entities[i];
        proof {
            lemma_map_update(pre, i as int, *final(e));
        }
        e
    }

    /// Position of the entity with id `id`.
    fn find(&self, id: u16) -> (r: Option<usize>)
        requires
            self.wf(),
        ensures
            match r {
                Some(i) => i < self@.entities.len() && self@.entities[i as int].id == id
                    && index_of_id(self@.entities, id) == i && has_id(self@.entities, id),
                None => !has_id(self@.entities, id),
            },
    {
        let n = self.entities.len();
        let mut i: usize = 0;
        while i < n
            invariant
                self.wf(),
                n == self@.entities.len(),
                i <= n,
                forall|j: int| 0 <= j < i ==> #[trigger] self@.entities[j].id != id,
            decreases n - i,
        {
            if self.entities[i].id() == id {
                proof {
                    let es = self@.entities;
                    assert(es[i as int].id == id);
                    let j = index_of_id(es, id);
                    assert(es[j].id == id);
                }
                return Some(i);
            }
            i = i + 1;
        }
        None
    }

    /// The entity with id `id`, if any.
    pub fn entity(&self, id: u16) -> (r: Option<&Entity<S>>)
        requires
            self.wf(),
        ensures
            match r {
                Some(e) => has_id(self@.entities, id) && e@ == self@.entities[index_of_id(self@.entities, id)],
                None => !has_id(self@.entities, id),
            },
    {
        match self.find(id) {
            Some(i) => Some(&self.entities[i]),
            None => None,
        }
    }

    /// Hands out the queued entity events, oldest first.
    pub fn take_events(&mut self) -> (events: Vec<EventRecord<S>>)
        requires
            old(self).wf(),
        ensures
            final(self).wf(),
            events@ == old(self)@.events,
            final(self)@ == (EntityManagerView { events: Seq::empty(), ..old(self)@ }),
    {
        let mut events: Vec<EventRecord<S>> = Vec::new();
        std::mem::swap(&mut events, &mut self.events);
        assert(self@.events =~= Seq::empty());
        events
    }

    /// Position of the first entity owned by `owner`.
    fn owner_index(&self, owner: u32) -> (r: Option<usize>)
        ensures
            match r {
                Some(i) => first_owned_index(self@.entities, owner) == Some(i as int)
                    && i < self@.entities.len(),
                None => first_owned_index(self@.entities, owner) is None,
            },
    {
        let n = self.entities.len();
        let mut i: usize = 0;
        while i < n
            invariant
                n == self@.entities.len(),
                i <= n,
                forall|j: int| 0 <= j < i ==> #[trigger] self@.entities[j].owner != Some(owner),
            decreases n - i,
        {
            if self.entities[i].owned_by(owner) {
                proof {
                    let es = self@.entities;
                    assert(es[i as int].owner == Some(owner));
                    let k = choose|k: int|
                        0 <= k < es.len() && #[trigger] es[k].owner == Some(owner) && forall|j: int|
                            0 <= j < k ==> es[j].owner != Some(owner);
                    if k < i {
                        assert(es[k].owner != Some(owner));
                    }
                    if k > i {
                        assert(es[i as int].owner != Some(owner));
                    }
                }
                return Some(i);
            }
            i = i + 1;
        }
        None
    }

    /// Id of the first entity owned by `owner`, in iteration order.
    pub fn get_entity_id_for_owner(&self, owner: u32) -> (r: Option<u16>)
        ensures
            match first_owned_index(self@.entities, owner) {
                Some(i) => r == Some(self@.entities[i].id),
                None => r is None,
            },
    {
        match self.owner_index(owner) {
            Some(i) => Some(self.entities[i].id()),
            None => None,
        }
    }

    /// The first entity owned by `owner`, in iteration order. The manager
    /// stays well-formed when the entity keeps its id.
    pub fn get_entity_for_owner(&mut self, owner: u32) -> (r: Option<&mut Entity<S>>)
        ensures
            match first_owned_index(old(self)@.entities, owner) {
                Some(i) => r matches Some(e) && e@ == old(self)@.entities[i] && final(self)@ == (
                EntityManagerView { entities: old(self)@.entities.update(i, final(e)@), ..old(self)@ })
                    && (old(self).wf() && final(e)@.id == e@.id ==> final(self).wf()),
                None => r is None && final(self)@ == old(self)@,
            },
    {
        match self.owner_index(owner) {
            Some(i) => Some(self.entity_at_mut(i)),
            None => None,
        }
    }

    /// Takes the inputs that client `owner` sent, encoded two bytes each, as
    /// remote inputs of the first entity it owns, in order; without such an
    /// entity nothing changes and `data` is not read.
    pub fn receive_inputs(&mut self, owner: u32, data: &[u8])
        requires
            old(self).wf(),
            first_owned_index(old(self)@.entities, owner) is Some ==> data@.len() % 2 == 0,
        ensures
            final(self).wf(),
            match first_owned_index(old(self)@.entities, owner) {
                Some(i) => final(self)@ == (EntityManagerView {
                    entities: old(self)@.entities.update(
                        i,
                        remote_inputs_view(old(self)@.entities[i], inputs_of_bytes(data@)),
                    ),
                    ..old(self)@
                }),
                None => final(self)@ == old(self)@,
            },
    {
        match self.owner_index(owner) {
            Some(i) => {
                let inputs = decode_inputs(data);
                let ghost ents = self.entities@;
                self.entities[i].remote_inputs(&inputs);
                proof {
                    assert(self.entities@ == ents.update(i as int, self.entities@[i as int]));
                    lemma_map_update(ents, i as int, self.entities@[i as int]);
                    lemma_remote_inputs_keep_id(ents[i as int]@, inputs@);
                    let es = self@.entities;
                    let pre = old(self)@.entities;
                    assert forall|a: int| 0 <= a < pre.len() implies #[trigger] es[a].id == pre[a].id by {
                    }
                    lemma_same_ids_unique(pre, es);
                }
            },
            None => {},
        }
    }

    /// Creates an entity of type `type_id` with a fresh id, the given state
    /// and owner, alive and hidden, with buffers of `buffered_ticks` ticks;
    /// queues its events. Returns its id, or `None` when the id pool is
    /// exhausted. An entity that already has the new id is replaced.
    pub fn create(&mut self, type_id: u8, state: Option<S>, owner: Option<u32>) -> (r: Option<u16>)
        requires
            old(self).wf(),
        ensures
            final(self).wf(),
            r is Some <==> old(self)@.pool.used < ID_LIMIT,
            match r {
                Some(id) => {
                    &&& get_id_post(old(self)@.pool, final(self)@.pool, Some(id))
                    &&& final(self)@.entities == insert_entity(
                        old(self)@.entities,
                        created_view(id, type_id, old(self)@.config.buffered_ticks as nat, owner, state),
                    )
                    &&& final(self)@.events == old(self)@.events + created_events(id, state, old(self)@.tick)
                    &&& final(self)@.config == old(self)@.config
                    &&& final(self)@.tick == old(self)@.tick
                    &&& final(self)@.server_mode == old(self)@.server_mode
                },
                None => final(self)@ == old(self)@,
            },
    {
        let ghost pre = self@;
        match self.id_pool.get_id() {
            Some(id) => {
                let mut entity: Entity<S> = Entity::new(type_id);
                entity.set_buffer_size(self.config.buffered_ticks as usize);
                entity.set_id(id);
                entity.set_alive(true);
                if let Some(o) = owner {
                    entity.set_owner(o);
                }
                let ghost ev_pre = self.events@;
                if let Some(st) = state {
                    if let Some(flags) = entity.set_state(st) {
                        let snapshot = EntityState::clone(entity.state());
                        self.events.push((id, EntityEvent::Flags(flags), snapshot));
                    }
                }
                let snapshot = EntityState::clone(entity.state());
                self.events.push((id, EntityEvent::Created(self.tick), snapshot));
                proof {
                    assert(entity@ == created_view(id, type_id, pre.config.buffered_ticks as nat, owner, state));
                    assert(self.events@ =~= ev_pre + created_events(id, state, pre.tick));
                }
                let ghost ents = self.entities@;
                match self.find(id) {
                    Some(i) => {
                        self.entities.set(i, entity);
                        proof {
                            lemma_map_update(ents, i as int, entity);
                        }
                    },
                    None => {
                        self.entities.push(entity);
                        assert(self@.entities =~= pre.entities.push(entity@));
                    },
                }
                proof {
                    let es = self@.entities;
                    if has_id(pre.entities, id) {
                        assert forall|a: int| 0 <= a < pre.entities.len() implies #[trigger] es[a].id
                            == pre.entities[a].id by {
                        }
                        lemma_same_ids_unique(pre.entities, es);
                    } else {
                        lemma_push_fresh_unique(pre.entities, entity@);
                    }
                }
                Some(id)
            },
            None => None,
        }
    }

    /// Removes the entity with id `id`, frees its id, marks it dead and
    /// queues its `Destroyed` event; returns it.
    pub fn destroy(&mut self, id: u16) -> (r: Option<Entity<S>>)
        requires
            old(self).wf(),
        ensures
            final(self).wf(),
            match r {
                Some(e) => {
                    let i = index_of_id(old(self)@.entities, id);
                    &&& has_id(old(self)@.entities, id)
                    &&& e@ == (EntityView { alive: false, ..old(self)@.entities[i] })
                    &&& final(self)@.entities == old(self)@.entities.remove(i)
                    &&& release_id_post(old(self)@.pool, final(self)@.pool, id)
                    &&& final(self)@.events == old(self)@.events.push(
                        (id, EntityEvent::Destroyed(old(self)@.tick), e@.state),
                    )
                    &&& final(self)@.config == old(self)@.config
                    &&& final(self)@.tick == old(self)@.tick
                    &&& final(self)@.server_mode == old(self)@.server_mode
                },
                None => !has_id(old(self)@.entities, id) && final(self)@ == old(self)@,
            },
    {
        let ghost pre = self@;
        match self.find(id) {
            Some(i) => {
                let ghost ents = self.entities@;
                let mut entity = self.entities.remove(i);
                proof {
                    assert(self@.entities =~= pre.entities.remove(i as int));
                }
                self.id_pool.release_id(entity.id());
                entity.set_alive(false);
                let snapshot = EntityState::clone(entity.state());
                self.events.push((id, EntityEvent::Destroyed(self.tick), snapshot));
                proof {
                    lemma_remove_unique(pre.entities, i as int);
                }
                Some(entity)
            },
            None => None,
        }
    }

    /// The snapshot for one receiver: the entries of all entities in
    /// iteration order, entity `k` with the encoding of `states[k]`, the
    /// state the receiver gets, when it is visible to the receiver (`None`
    /// when it is not).
    pub fn serialize_state(&self, states: &Vec<Option<S>>) -> (data: Vec<u8>)
        requires
            states@.len() == self@.entities.len(),
        ensures
            data@ == snapshot_bytes(self@, states@),
    {
        let ghost all = snapshot_entries(self@.entities, states@);
        let mut data: Vec<u8> = Vec::new();
        let n = self.entities.len();
        let mut k: usize = 0;
        assert(all.take(0) =~= Seq::<EntryModel>::empty());
        while k < n
            invariant
                n == self@.entities.len(),
                states@.len() == n,
                all == snapshot_entries(self@.entities, states@),
                k <= n,
                data@ == entries_bytes(all.take(k as int)),
            decreases n - k,
        {
            let entry = self.entities[k].serialize_state(&states[k]);
            proof {
                assert(all.take(k + 1) =~= all.take(k as int).push(all[k as int]));
                lemma_entries_bytes_push(all.take(k as int), all[k as int]);
            }
            append_bytes(&mut data, entry.as_slice());
            k = k + 1;
        }
        assert(all.take(n as int) =~= all);
        data
    }

    // Configuration ----------------------------------------------------------

    /// Rewinds every entity to its buffered states of tick `tick`, the
    /// current tick minus the ticks between them.
    pub fn rewind(&mut self, tick: u8)
        requires
            old(self).wf(),
            tick <= old(self)@.tick,
        ensures
            final(self).wf(),
            final(self)@ == (EntityManagerView {
                entities: old(self)@.entities.map_values(
                    |e: EntityView<S>| rewound_view(e, old(self)@.tick - tick),
                ),
                ..old(self)@
            }),
    {
        let offset = (self.tick - tick) as usize;
        self.rewind_all(offset);
    }

    /// Brings every entity back to its most recent buffered states.
    pub fn forward(&mut self)
        requires
            old(self).wf(),
        ensures
            final(self).wf(),
            final(self)@ == (EntityManagerView {
                entities: old(self)@.entities.map_values(|e: EntityView<S>| rewound_view(e, 0)),
                ..old(self)@
            }),
    {
        self.rewind_all(0);
    }

    fn rewind_all(&mut self, offset: usize)
        requires
            old(self).wf(),
        ensures
            final(self).wf(),
            final(self)@ == (EntityManagerView {
                entities: old(self)@.entities.map_values(|e: EntityView<S>| rewound_view(e, offset as int)),
                ..old(self)@
            }),
    {
        let ghost pre = self@;
        let ghost want = pre.entities.map_values(|e: EntityView<S>| rewound_view(e, offset as int));
        let n = self.entities.len();
        let mut i: usize = 0;
        while i < n
            invariant
                n == pre.entities.len(),
                i <= n,
                want == pre.entities.map_values(|e: EntityView<S>| rewound_view(e, offset as int)),
                self.id_pool == old(self).id_pool,
                self.config == pre.config,
                self.tick == pre.tick,
                self.server_mode == pre.server_mode,
                self.events@ == pre.events,
                self@.entities.len() == n,
                forall|j: int| 0 <= j < i ==> #[trigger] self@.entities[j] == want[j],
                forall|j: int| i <= j < n ==> #[trigger] self@.entities[j] == pre.entities[j],
            decreases n - i,
        {
            let ghost ents = self.entities@;
            let ghost before = self@.entities;
            self.entities[i].rewind_state(offset);
            proof {
                assert(self.entities@ == ents.update(i as int, self.entities@[i as int]));
                lemma_map_update(ents, i as int, self.entities@[i as int]);
                assert(self@.entities == before.update(i as int, self.entities@[i as int]@));
                assert(before[i as int] == pre.entities[i as int]);
            }
            i = i + 1;
        }
        proof {
            assert(self@.entities =~= want);
            let es = self@.entities;
            assert forall|a: int| 0 <= a < pre.entities.len() implies #[trigger] es[a].id
                == pre.entities[a].id by {
            }
            lemma_same_ids_unique(pre.entities, es);
        }
    }

    /// Encodes the configuration for sending to a client.
    pub fn serialize_config(&self) -> (data: Vec<u8>)
        ensures
            data@ == config_bytes(self@.config),
    {
        self.config.serialize()
    }

    /// Takes over the configuration at the start of `data`; returns the rest
    /// of `data`, the level description.
    pub fn receive_config<'a>(&mut self, data: &'a [u8]) -> (rest: &'a [u8])
        requires
            old(self).wf(),
            data@.len() >= config_size(),
        ensures
            final(self).wf(),
            final(self)@ == (EntityManagerView { config: config_of_bytes(data@), ..old(self)@ }),
            rest@ == data@.subrange(config_size() as int, data@.len() as int),
    {
        self.config = EntityManagerConfig::from_serialized(data);
        &data[EntityManagerConfig::encoded_size()..data.len()]
    }

    // Receiving snapshots ------------------------------------------------------

    /// Sets `st` on `e` and shows it, queueing the events.
    fn show_with_state(e: &mut Entity<S>, st: &S, tick: u8, events: &mut Vec<EventRecord<S>>)
        ensures
            final(e)@ == show_with_state(old(e)@, *st, tick).0,
            final(events)@ == old(events)@ + show_with_state(old(e)@, *st, tick).1,
    {
        let ghost e0 = e@;
        let ghost ev0 = events@;
        let id = e.id();
        if let Some(flags) = e.set_state(EntityState::clone(st)) {
            events.push((id, EntityEvent::Flags(flags), EntityState::clone(e.state())));
        }
        let ghost ev1 = events@;
        let ev = e.show(tick);
        events.push((id, ev, EntityState::clone(e.state())));
        proof {
            let (a, x) = state_step(e0, *st, true);
            assert(ev1 == ev0 + x);
            assert(events@ =~= ev0 + show_with_state(e0, *st, tick).1);
        }
    }

    /// Applies snapshot entry `rec` with state `st` to entity `e`, queueing
    /// the events.
    fn receive_update(e: &mut Entity<S>, rec: &EntityRecord, st: &Option<S>, tick: u8, events: &mut Vec<EventRecord<S>>)
        ensures
            final(e)@ == received_update(old(e)@, *rec, *st, tick).0,
            final(events)@ == old(events)@ + received_update(old(e)@, *rec, *st, tick).1,
    {
        let ghost e0 = e@;
        let ghost ev0 = events@;
        let id = e.id();
        if e.is_visible() {
            if !rec.visible {
                let ev = e.hide_entity(tick);
                events.push((id, ev, EntityState::clone(e.state())));
            }
        } else if rec.visible {
            if let Some(s) = st {
                Self::show_with_state(e, s, tick, events);
            }
        }
        let ghost e1 = e@;
        let ghost ev1 = events@;
        proof {
            let (a, x) = if e0.visible {
                if !rec.visible {
                    visibility_step(e0, false, tick)
                } else {
                    (e0, Seq::empty())
                }
            } else if rec.visible && st is Some {
                show_with_state(e0, st.unwrap(), tick)
            } else {
                (e0, Seq::empty())
            };
            assert(e1 == a);
            assert(ev1 =~= ev0 + x);
        }
        e.set_alive(true);
        if let Some(s) = st {
            if e.local() {
                e.set_confirmed_state(rec.confirmed_tick, EntityState::clone(s));
            } else {
                if let Some(flags) = e.set_remote_state(EntityState::clone(s)) {
                    events.push((id, EntityEvent::Flags(flags), EntityState::clone(e.state())));
                }
            }
        }
        proof {
            assert(events@ =~= ev0 + received_update(e0, *rec, *st, tick).1);
        }
    }

    /// The entity a snapshot entry `rec` introduces, queueing its events.
    fn receive_new(rec: &EntityRecord, st: &Option<S>, tick: u8, buffer: u8, events: &mut Vec<EventRecord<S>>) -> (e: Entity<S>)
        ensures
            e@ == received_new(*rec, *st, tick, buffer as nat).0,
            final(events)@ == old(events)@ + received_new(*rec, *st, tick, buffer as nat).1,
    {
        let ghost ev0 = events@;
        let mut e: Entity<S> = Entity::new(rec.type_id);
        e.set_buffer_size(buffer as usize);
        e.set_id(rec.id);
        match st {
            Some(s) => {
                Self::show_with_state(&mut e, s, tick, events);
            },
            None => {
                let ev = e.hide_entity(tick);
                events.push((rec.id, ev, EntityState::clone(e.state())));
            },
        }
        let ghost ev1 = events@;
        events.push((rec.id, EntityEvent::Created(tick), EntityState::clone(e.state())));
        proof {
            let e0 = EntityView {
                id: rec.id,
                input_buffer_size: buffer as nat,
                state_buffer_size: buffer as nat,
                ..fresh_view::<S>(rec.type_id)
            };
            let (e1, x) = match st {
                Some(s) => show_with_state(e0, *s, tick),
                None => visibility_step(e0, false, tick),
            };
            assert(ev1 =~= ev0 + x);
            assert(events@ =~= ev0 + received_new(*rec, *st, tick, buffer as nat).1);
        }
        e
    }

    /// Applies the entries of a received snapshot, with their decoded
    /// states: every entity is first marked dead, the entries are applied in
    /// order (creating entities not seen before), and the entities that no
    /// entry mentioned are destroyed. The events go to the event queue.
    pub fn apply_state_records(&mut self, recs: &Vec<EntityRecord>, sts: Vec<Option<S>>)
        requires
            old(self).wf(),
            sts@.len() == recs@.len(),
        ensures
            final(self).wf(),
            apply_records_post(old(self)@, final(self)@, recs@, sts@),
    {
        let ghost pre = self@;
        let tick = self.tick;
        let buffer = self.config.buffered_ticks;

        // Mark all entities as dead
        let n = self.entities.len();
        let mut i: usize = 0;
        while i < n
            invariant
                n == pre.entities.len(),
                i <= n,
                self.id_pool == old(self).id_pool,
                self.config == pre.config,
                self.tick == pre.tick,
                self.server_mode == pre.server_mode,
                self.events@ == pre.events,
                self@.entities.len() == n,
                forall|j: int| 0 <= j < i ==> #[trigger] self@.entities[j] == all_dead(pre.entities)[j],
                forall|j: int| i <= j < n ==> #[trigger] self@.entities[j] == pre.entities[j],
            decreases n - i,
        {
            let ghost ents = self.entities@;
            let ghost before = self@.entities;
            self.entities[i].set_alive(false);
            proof {
                assert(self.entities@ == ents.update(i as int, self.entities@[i as int]));
                lemma_map_update(ents, i as int, self.entities@[i as int]);
                assert(self@.entities == before.update(i as int, self.entities@[i as int]@));
                assert(before[i as int] == pre.entities[i as int]);
                assert(self@.entities[i as int] == all_dead(pre.entities)[i as int]);
            }
            i = i + 1;
        }
        proof {
            assert(self@.entities =~= all_dead(pre.entities));
            lemma_all_dead_unique(pre.entities);
        }

        // Apply the entries
        let ghost start = all_dead(pre.entities);
        let m = recs.len();
        let mut k: usize = 0;
        while k < m
            invariant
                m == recs@.len(),
                sts@.len() == m,
                k <= m,
                self.id_pool == old(self).id_pool,
                self.id_pool.wf(),
                self.config == pre.config,
                self.tick == tick,
                tick == pre.tick,
                buffer == pre.config.buffered_ticks,
                self.server_mode == pre.server_mode,
                ids_unique(self@.entities),
                self@.entities == receive_fold(start, recs@, sts@, tick, buffer as nat, k as nat).0,
                self.events@ == pre.events + receive_fold(start, recs@, sts@, tick, buffer as nat, k as nat).1,
            decreases m - k,
        {
            let rec = &recs[k];
            let st = &sts[k];
            let ghost es = self@.entities;
            let ghost ev = self.events@;
            proof {
                lemma_receive_step_unique(es, *rec, *st, tick, buffer as nat);
            }
            match self.find(rec.id) {
                Some(j) => {
                    let ghost ents = self.entities@;
                    Self::receive_update(&mut self.entities[j], rec, st, tick, &mut self.events);
                    proof {
                        lemma_map_update(ents, j as int, self.entities@[j as int]);
                        assert(self.entities@ == ents.update(j as int, self.entities@[j as int]));
                    }
                },
                None => {
                    let mut e = Self::receive_new(rec, st, tick, buffer, &mut self.events);
                    Self::receive_update(&mut e, rec, st, tick, &mut self.events);
                    self.entities.push(e);
                    proof {
                        assert(self@.entities =~= es.push(e@));
                    }
                },
            }
            proof {
                let (es2, ev2) = receive_step(es, *rec, *st, tick, buffer as nat);
                assert(self@.entities == es2);
                assert(self.events@ =~= pre.events + receive_fold(start, recs@, sts@, tick, buffer as nat, (k + 1) as nat).1);
            }
            k = k + 1;
        }

        // Destroy the dead entities
        let ghost all = self@.entities;
        let ghost ev_base = self.events@;
        let mut old_entities: Vec<Entity<S>> = Vec::new();
        std::mem::swap(&mut old_entities, &mut self.entities);
        let mut kept: Vec<Entity<S>> = Vec::new();
        let total = old_entities.len();
        proof {
            assert(old_entities@.map_values(|e: Entity<S>| e@) == all);
            assert(all.subrange(0, 0) =~= Seq::<EntityView<S>>::empty());
            assert(survivors(all.subrange(0, 0)) =~= Seq::<EntityView<S>>::empty());
            assert(destroyed_events(all.subrange(0, 0), tick) =~= Seq::<EventRecord<S>>::empty());
            assert(kept@.map_values(|e: Entity<S>| e@) =~= Seq::<EntityView<S>>::empty());
            assert(self.events@ =~= ev_base + destroyed_events(all.subrange(0, 0), tick));
            assert(old_entities@.map_values(|e: Entity<S>| e@) =~= all.subrange(0, total as int));
        }
        let mut j: usize = 0;
        while j < total
            invariant
                total == all.len(),
                j <= total,
                old_entities@.map_values(|e: Entity<S>| e@) == all.subrange(j as int, total as int),
                kept@.map_values(|e: Entity<S>| e@) == survivors(all.subrange(0, j as int)),
                self.events@ == ev_base + destroyed_events(all.subrange(0, j as int), tick),
                self.id_pool == old(self).id_pool,
                self.config == pre.config,
                self.tick == tick,
                tick == pre.tick,
                self.server_mode == pre.server_mode,
            decreases total - j,
        {
            let ghost rest = old_entities@;
            assert(rest.map_values(|x: Entity<S>| x@).len() == rest.len());
            let e = old_entities.remove(0);
            let ghost ev_j = self.events@;
            let ghost kv = kept@;
            proof {
                assert(rest.map_values(|x: Entity<S>| x@)[0] == all.subrange(j as int, total as int)[0]);
                assert(e@ == all[j as int]);
                let tail = old_entities@.map_values(|x: Entity<S>| x@);
                let want = all.subrange(j + 1, total as int);
                assert(tail.len() == want.len());
                assert forall|k: int| 0 <= k < tail.len() implies tail[k] == want[k] by {
                    assert(old_entities@[k] == rest[k + 1]);
                    assert(rest.map_values(|x: Entity<S>| x@)[k + 1] == all.subrange(j as int, total as int)[k + 1]);
                }
                assert(tail =~= want);
                let pre_j = all.subrange(0, j as int);
                let post_j = all.subrange(0, j + 1);
                assert(post_j.drop_last() =~= pre_j);
                assert(post_j.last() == all[j as int]);
                reveal_with_fuel(Seq::filter, 1);
                assert(survivors(post_j) == if e@.alive { survivors(pre_j).push(e@) } else { survivors(pre_j) });
                let pd = pre_j.filter(|x: EntityView<S>| !x.alive);
                let qd = post_j.filter(|x: EntityView<S>| !x.alive);
                assert(qd == if !e@.alive { pd.push(e@) } else { pd });
                assert(destroyed_events(post_j, tick) =~= if !e@.alive {
                    destroyed_events(pre_j, tick).push((e@.id, EntityEvent::Destroyed(tick), e@.state))
                } else {
                    destroyed_events(pre_j, tick)
                });
            }
            if e.alive() {
                kept.push(e);
                proof {
                    assert(kept@.map_values(|x: Entity<S>| x@) =~= kv.map_values(|x: Entity<S>| x@).push(e@));
                }
            } else {
                self.events.push((e.id(), EntityEvent::Destroyed(tick), EntityState::clone(e.state())));
            }
            j = j + 1;
        }
        assert(all.subrange(0, total as int) =~= all);
        self.entities = kept;
        proof {
            lemma_survivors_unique(all);
        }
    }

    /// Applies a snapshot received from the server: reads its entries, with
    /// states of `S::encoded_size()` bytes that the game's state type
    /// decodes from the snapshot's bytes at the entry's state offset on, and
    /// applies them as `apply_state_records` does.
    pub fn receive_state(&mut self, data: &[u8])
        requires
            old(self).wf(),
        ensures
            final(self).wf(),
            exists|sts: Seq<Option<S>>|
                #![trigger apply_records_post(old(self)@, final(self)@, records_from(data@, S::wire_size() as nat, 0), sts)]
                {
                    let recs = records_from(data@, S::wire_size() as nat, 0);
                    &&& sts.len() == recs.len()
                    &&& forall|k: int| 0 <= k < recs.len() ==> #[trigger] entry_state(data@, recs[k], sts[k])
                    &&& apply_records_post(old(self)@, final(self)@, recs, sts)
                },
    {
        let size = S::encoded_size();
        let recs = parse_records(data, size);
        let len = data.len();
        proof {
            lemma_state_offsets_in_bounds(data@, size as nat, 0);
        }
        let mut sts: Vec<Option<S>> = Vec::new();
        let n = recs.len();
        let mut k: usize = 0;
        while k < n
            invariant
                n == recs@.len(),
                len == data@.len(),
                recs@ == records_from(data@, size as nat, 0),
                forall|q: int| 0 <= q < n ==> ((#[trigger] recs@[q]).state_at matches Some(at) ==> at <= data@.len()),
                k <= n,
                sts@.len() == k,
                forall|q: int| 0 <= q < k ==> #[trigger] entry_state(data@, recs@[q], sts@[q]),
            decreases n - k,
        {
            match recs[k].state_at {
                Some(at) => {
                    let rest = &data[at..len];
                    let st = S::from_serialized(rest);
                    proof {
                        assert(rest@ == data@.subrange(at as int, len as int));
                    }
                    sts.push(Some(st));
                    assert(entry_state(data@, recs@[k as int], sts@[k as int]));
                },
                None => {
                    sts.push(None);
                },
            }
            k = k + 1;
        }
        let ghost decoded = sts@;
        self.apply_state_records(&recs, sts);
        assert({
            let recs = records_from(data@, S::wire_size() as nat, 0);
            &&& decoded.len() == recs.len()
            &&& forall|q: int| 0 <= q < recs.len() ==> #[trigger] entry_state(data@, recs[q], decoded[q])
            &&& apply_records_post(old(self)@, self@, recs, decoded)
        });
    }
}

} // verus!
