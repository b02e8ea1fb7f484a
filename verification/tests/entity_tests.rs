use lithium::config::EntityManagerConfig;
use lithium::entity::{Entity, EntityEvent, EntityState};
use lithium::input::{decode_inputs, EntityInput};
use lithium::manager::EntityManager;
use lithium::snapshot::{header_size, parse_records, serialize_header, EntityRecord};

#[derive(Debug, Clone, Copy, PartialEq)]
struct TestState {
    x: u8,
    flags: u8,
}

impl EntityState for TestState {
    fn flags_of(&self) -> u8 {
        self.flags
    }

    fn wire_size() -> usize {
        2
    }

    fn default_of() -> Self {
        TestState { x: 0, flags: 0 }
    }

    fn encoded_size() -> usize {
        2
    }

    fn decoded_of(data: &[u8]) -> Self {
        TestState { x: data[0], flags: data[1] }
    }

    fn from_serialized(data: &[u8]) -> Self {
        Self::decoded_of(data)
    }

    fn encoded_of(&self) -> Vec<u8> {
        vec![self.x, self.flags]
    }

    fn serialize(&self) -> Vec<u8> {
        self.encoded_of()
    }

    fn set_to(&mut self, state: &Self) {
        *self = *state;
    }

    fn clone(&self) -> Self {
        *self
    }

    fn default() -> Self {
        TestState { x: 0, flags: 0 }
    }

    fn flags(&self) -> u8 {
        self.flags
    }

    fn with_flags(&self, flags: u8) -> Self {
        TestState { x: self.x, flags }
    }

    fn set_flags(&mut self, flags: u8) {
        *self = self.with_flags(flags);
    }
}

fn st(x: u8, flags: u8) -> TestState {
    TestState { x, flags }
}

fn config() -> EntityManagerConfig {
    EntityManagerConfig { buffered_ticks: 4, interpolation_ticks: 1, tick_rate: 30 }
}

// Entity --------------------------------------------------------------------

#[test]
fn new_entity_is_dead_and_hidden() {
    let e: Entity<TestState> = Entity::new(7);
    assert_eq!(e.type_id(), 7);
    assert_eq!(e.id(), 0);
    assert!(!e.alive());
    assert!(!e.is_visible());
    assert!(!e.local());
    assert_eq!(*e.state(), st(0, 0));
    assert_eq!(e.owner(), None);
}

#[test]
fn set_state_reports_flag_change() {
    let mut e: Entity<TestState> = Entity::new(0);
    assert_eq!(e.set_state(st(3, 1)), Some(1));
    assert!(e.local());
    assert_eq!(e.set_state(st(4, 1)), None);
    assert_eq!(e.last_state().x, 4);
    assert_eq!(e.set_remote_state(st(5, 3)), Some(3));
    assert_eq!(e.last_state().x, 4);
    assert_eq!(e.state().x, 5);
    assert_eq!(e.base_state().x, 5);
    assert_eq!(e.show(9), EntityEvent::Show(9));
    assert!(e.is_visible());
    assert_eq!(e.hide_entity(10), EntityEvent::Hide(10));
    assert!(!e.is_visible());
}

#[test]
fn ownership() {
    let mut e: Entity<TestState> = Entity::new(0);
    assert!(!e.owned_by(3));
    e.set_owner(3);
    assert!(e.owned_by(3));
    assert!(!e.owned_by(4));
    assert_eq!(e.owner(), Some(3));
    e.set_state(st(9, 4));
    // the owner gets the local-control flag set
    assert_eq!(e.state_for(3), st(9, 5));
    assert_eq!(e.state_for(4), st(9, 4));
}

#[test]
fn header_bytes() {
    let mut e: Entity<TestState> = Entity::new(6);
    e.set_id(0x1234);
    assert_eq!(e.serialize_header(true), vec![0x12, 0x34, 6, 0, 1]);
    assert_eq!(e.serialize_header(false), vec![0x12, 0x34, 6, 0, 0]);
    assert_eq!(header_size(), 5);
    assert_eq!(serialize_header(258, 1, 2, true), vec![1, 2, 1, 2, 1]);
}

#[test]
fn remote_inputs_must_be_more_recent() {
    let mut e: Entity<TestState> = Entity::new(0);
    e.remote_input(EntityInput { tick: 10, fields: 1 });
    e.remote_input(EntityInput { tick: 9, fields: 2 });
    e.remote_input(EntityInput { tick: 10, fields: 4 });
    e.remote_input(EntityInput { tick: 11, fields: 3 });
    let inputs: Vec<_> = e.pending_inputs().iter().cloned().collect();
    assert_eq!(inputs, vec![EntityInput { tick: 10, fields: 1 }, EntityInput { tick: 11, fields: 3 }]);
}

#[test]
fn first_remote_input_is_always_taken() {
    let mut e: Entity<TestState> = Entity::new(0);
    // tick 200 is older than tick 0 on the circle, but it is the first input
    e.remote_input(EntityInput { tick: 200, fields: 1 });
    assert_eq!(e.pending_inputs().len(), 1);
}

#[test]
fn input_buffer_drops_oldest() {
    let mut e: Entity<TestState> = Entity::new(0);
    e.set_buffer_size(2);
    for t in 1..=3u8 {
        e.local_input(EntityInput { tick: t, fields: t });
    }
    let inputs: Vec<_> = e.pending_inputs().iter().cloned().collect();
    assert_eq!(inputs, vec![EntityInput { tick: 2, fields: 2 }, EntityInput { tick: 3, fields: 3 }]);
    let bytes = e.serialized_inputs().unwrap();
    assert_eq!(bytes, vec![2, 2, 3, 3]);
    assert_eq!(decode_inputs(&bytes), inputs);
    assert_eq!(e.serialized_inputs(), None);
}

#[test]
fn tick_with_confirmed_state_drops_confirmed_inputs() {
    let mut e: Entity<TestState> = Entity::new(0);
    e.set_state(st(1, 1));
    for t in 5..=8u8 {
        e.local_input(EntityInput { tick: t, fields: 0 });
    }
    e.set_confirmed_state(6, st(20, 1));
    assert_eq!(e.tick_begin(), None);
    assert_eq!(*e.base_state(), st(20, 1));
    assert_eq!(*e.last_state(), st(1, 1));
    let ticks: Vec<u8> = e.pending_inputs().iter().map(|i| i.tick).collect();
    assert_eq!(ticks, vec![7, 8]);
    // client: apply pending inputs elsewhere, then end the tick
    e.tick_end(9, st(22, 1), false);
    assert_eq!(*e.state(), st(22, 1));
    assert_eq!(*e.base_state(), st(20, 1));
    assert_eq!(e.pending_inputs().len(), 2);
    assert_eq!(*e.buffered_state(0), st(22, 1));
}

#[test]
fn tick_without_confirmed_state_restores_base() {
    let mut e: Entity<TestState> = Entity::new(0);
    e.set_state(st(1, 0));
    e.tick_end(0, st(2, 0), false);
    assert_eq!(e.tick_begin(), None);
    assert_eq!(*e.state(), st(1, 0));
    assert_eq!(*e.last_state(), st(2, 0));
    // server: the new state becomes the base and inputs are consumed
    e.remote_input(EntityInput { tick: 1, fields: 1 });
    e.tick_end(1, st(3, 0), true);
    assert_eq!(*e.base_state(), st(3, 0));
    assert_eq!(e.pending_inputs().len(), 0);
}

#[test]
fn state_buffer_and_interpolation() {
    let mut e: Entity<TestState> = Entity::new(0);
    e.set_buffer_size(2);
    e.set_state(st(9, 0));
    // nothing buffered yet: current and previous state
    assert_eq!(*e.buffered_state(0), st(9, 0));
    assert_eq!(e.buffered_states(0), (&st(9, 0), &st(9, 0)));
    e.tick_end(1, st(1, 0), true);
    e.tick_end(2, st(2, 0), true);
    e.tick_end(3, st(3, 0), true);
    // most recent first, only two kept
    assert_eq!(*e.buffered_state(0), st(3, 0));
    assert_eq!(*e.buffered_state(1), st(2, 0));
    assert_eq!(*e.buffered_state(2), st(3, 0));
    assert_eq!(e.buffered_states(0), (&st(3, 0), &st(2, 0)));
    assert_eq!(e.buffered_states(1), (&st(3, 0), &st(9, 0)));
}

// Snapshots -----------------------------------------------------------------

#[test]
fn snapshot_parsing() {
    let data = vec![0, 1, 0, 5, 1, 7, 0, 0, 2, 0, 6, 0, 1, 3, 1, 4, 0];
    let recs = parse_records(&data, 2);
    assert_eq!(
        recs,
        vec![
            EntityRecord { id: 1, type_id: 0, confirmed_tick: 5, visible: true, state_at: Some(5) },
            EntityRecord { id: 2, type_id: 0, confirmed_tick: 6, visible: false, state_at: None },
            EntityRecord { id: 259, type_id: 1, confirmed_tick: 4, visible: false, state_at: None },
        ]
    );
}

#[test]
fn snapshot_parsing_edge_cases() {
    // a trailing partial header is ignored
    assert!(parse_records(&[0, 1, 0, 5], 2).is_empty());
    // a visible entry in a snapshot shorter than one state carries none
    let recs = parse_records(&[0, 1, 0, 5, 1], 8);
    assert_eq!(recs, vec![EntityRecord { id: 1, type_id: 0, confirmed_tick: 5, visible: true, state_at: None }]);
    // a visibility byte other than 1 means hidden
    let recs = parse_records(&[0, 1, 0, 5, 2, 0, 0], 2);
    assert_eq!(recs[0].visible, false);
}

// Manager -------------------------------------------------------------------

#[test]
fn manager_create_and_destroy() {
    let mut m: EntityManager<TestState> = EntityManager::new(config(), true);
    let a = m.create(0, Some(st(5, 2)), Some(9)).unwrap();
    let b = m.create(1, None, None).unwrap();
    assert_eq!((a, b), (0, 1));
    assert_eq!(m.len(), 2);
    let e = m.entity(a).unwrap();
    assert!(e.alive());
    assert_eq!(e.owner(), Some(9));
    assert_eq!(*e.state(), st(5, 2));
    assert_eq!(m.get_entity_id_for_owner(9), Some(0));
    assert_eq!(m.get_entity_id_for_owner(8), None);
    assert_eq!(
        m.take_events(),
        vec![
            (0, EntityEvent::Flags(2), st(5, 2)),
            (0, EntityEvent::Created(0), st(5, 2)),
            (1, EntityEvent::Created(0), st(0, 0)),
        ]
    );
    let gone = m.destroy(a).unwrap();
    assert!(!gone.alive());
    assert!(m.entity(a).is_none());
    assert!(m.destroy(a).is_none());
    assert_eq!(m.take_events(), vec![(0, EntityEvent::Destroyed(0), st(5, 2))]);
    // ids are not re-used at once
    assert_eq!(m.create(0, None, None), Some(2));
}

#[test]
fn manager_owner_lookup_and_mutation() {
    let mut m: EntityManager<TestState> = EntityManager::new(config(), true);
    m.create(0, None, Some(4));
    {
        let e = m.get_entity_for_owner(4).unwrap();
        e.remote_input(EntityInput { tick: 1, fields: 7 });
    }
    assert_eq!(m.entity(0).unwrap().pending_inputs().len(), 1);
    assert!(m.get_entity_for_owner(5).is_none());
}

#[test]
fn manager_receives_client_inputs() {
    let mut m: EntityManager<TestState> = EntityManager::new(config(), true);
    m.create(0, None, Some(4));
    // tick 0 is older than tick 1 and is dropped
    m.receive_inputs(4, &[1, 7, 0, 8, 2, 9]);
    let inputs: Vec<EntityInput> = m.entity(0).unwrap().pending_inputs().iter().cloned().collect();
    assert_eq!(inputs, vec![EntityInput { tick: 1, fields: 7 }, EntityInput { tick: 2, fields: 9 }]);
    assert_eq!(m.entity(0).unwrap().serialize_header(false)[3], 2);
    // a client without an entity: nothing is read
    m.receive_inputs(5, &[3]);
    assert_eq!(m.entity(0).unwrap().pending_inputs().len(), 2);
}

#[test]
fn inputs_sent_by_client_are_taken_by_server() {
    let mut client_entity: Entity<TestState> = Entity::new(0);
    for t in [254u8, 255, 0, 1] {
        client_entity.local_input(EntityInput { tick: t, fields: t / 2 });
    }
    let sent = client_entity.serialized_inputs().unwrap();
    let mut server: EntityManager<TestState> = EntityManager::new(config(), true);
    server.create(0, None, Some(6));
    server.receive_inputs(6, &sent);
    let taken: Vec<EntityInput> = server.entity(0).unwrap().pending_inputs().iter().cloned().collect();
    // the buffer keeps the last four inputs, across the tick wrap
    assert_eq!(taken, client_entity.pending_inputs().iter().cloned().collect::<Vec<_>>());
    assert_eq!(server.entity(0).unwrap().serialize_header(true)[3], 1);
}

#[test]
fn manager_rewind_and_forward() {
    let mut m: EntityManager<TestState> = EntityManager::new(config(), true);
    m.create(0, Some(st(0, 0)), None);
    for t in 1..=3u8 {
        m.entity_at_mut(0).tick_begin();
        m.entity_at_mut(0).tick_end(t, st(t * 10, 0), true);
        m.advance_tick();
    }
    assert_eq!(m.tick(), 3);
    // one tick back: the states of the tick before the last
    m.rewind(2);
    let e = m.entity(0).unwrap();
    assert_eq!((*e.state(), *e.base_state(), *e.last_state()), (st(20, 0), st(20, 0), st(10, 0)));
    m.forward();
    let e = m.entity(0).unwrap();
    assert_eq!((*e.state(), *e.base_state(), *e.last_state()), (st(30, 0), st(30, 0), st(20, 0)));
    // further back than the buffer reaches: current and previous state
    m.rewind(0);
    let e = m.entity(0).unwrap();
    assert_eq!((*e.state(), *e.last_state()), (st(30, 0), st(20, 0)));
}

#[test]
fn server_tick_without_inputs_keeps_state() {
    let mut e: Entity<TestState> = Entity::new(0);
    e.set_state(st(4, 0));
    e.tick_begin();
    e.tick_end(1, st(5, 0), true);
    // the next tick has nothing to apply
    assert_eq!(e.tick_begin(), None);
    assert_eq!(e.pending_inputs().len(), 0);
    let base = *e.base_state();
    assert_eq!(base, st(5, 0));
    e.tick_end(2, base, true);
    assert_eq!(*e.state(), st(5, 0));
    assert_eq!(*e.buffered_state(0), *e.state());
}

#[test]
fn client_takes_sent_state_of_remote_entity() {
    let mut server: EntityManager<TestState> = EntityManager::new(config(), true);
    server.create(2, Some(st(1, 0)), None);
    let mut client: EntityManager<TestState> = EntityManager::new(config(), false);
    client.receive_state(&server.serialize_state(&vec![Some(st(1, 0))]));
    assert_eq!(*client.entity(0).unwrap().state(), st(1, 0));
    // a later snapshot with a new state replaces it, keeping the old one
    // as the previous state
    client.receive_state(&server.serialize_state(&vec![Some(st(7, 2))]));
    let e = client.entity(0).unwrap();
    assert_eq!((*e.state(), *e.last_state()), (st(7, 2), st(1, 0)));
}

#[test]
fn manager_ticks_wrap() {
    let mut m: EntityManager<TestState> = EntityManager::new(config(), false);
    for _ in 0..255 {
        m.advance_tick();
    }
    assert_eq!(m.tick(), 255);
    m.advance_tick();
    assert_eq!(m.tick(), 0);
}

#[test]
fn manager_config_roundtrip() {
    let server: EntityManager<TestState> = EntityManager::new(config(), true);
    let mut data = server.serialize_config();
    data.extend_from_slice(&[42, 43]);
    let mut client: EntityManager<TestState> =
        EntityManager::new(EntityManagerConfig { buffered_ticks: 0, interpolation_ticks: 0, tick_rate: 0 }, false);
    let rest = client.receive_config(&data);
    assert_eq!(rest, &[42, 43]);
    assert_eq!(*client.config(), config());
}

#[test]
fn manager_reset() {
    let mut m: EntityManager<TestState> = EntityManager::new(config(), true);
    m.create(0, None, None);
    m.advance_tick();
    m.reset();
    assert_eq!(m.len(), 0);
    assert_eq!(m.tick(), 0);
    assert_eq!(m.create(0, None, None), Some(0));
}

fn snapshot(server: &EntityManager<TestState>, owner: u32) -> Vec<u8> {
    let mut states = Vec::new();
    for i in 0..server.len() {
        states.push(Some(server.entity_at(i).state_for(owner)));
    }
    server.serialize_state(&states)
}

#[test]
fn server_snapshot_bytes() {
    let mut server: EntityManager<TestState> = EntityManager::new(config(), true);
    server.create(3, Some(st(10, 0)), Some(1));
    server.create(4, Some(st(20, 0)), None);
    server.entity_at_mut(0).remote_input(EntityInput { tick: 7, fields: 0 });
    server.entity_at_mut(0).tick_end(0, st(11, 0), true);
    // entity 0 visible with its state for the owner, entity 1 hidden
    let data = server.serialize_state(&vec![Some(server.entity_at(0).state_for(1)), None]);
    assert_eq!(data, vec![0, 0, 3, 7, 1, 11, 1, 0, 1, 4, 0, 0]);
    assert_eq!(server.entity_at(1).serialize_state(&None), vec![0, 1, 4, 0, 0]);
    assert_eq!(server.entity_at(1).serialize_state(&Some(st(9, 8))), vec![0, 1, 4, 0, 1, 9, 8]);

    // the client holds the same entities, visible as sent
    let mut client: EntityManager<TestState> = EntityManager::new(config(), false);
    client.receive_state(&data);
    assert_eq!(client.len(), 2);
    assert!(client.entity(0).unwrap().is_visible());
    assert!(!client.entity(1).unwrap().is_visible());
    assert!(client.entity(0).unwrap().alive() && client.entity(1).unwrap().alive());
    assert_eq!(*client.entity(0).unwrap().state(), st(11, 1));
}

#[test]
fn client_mirrors_server_snapshot() {
    let mut server: EntityManager<TestState> = EntityManager::new(config(), true);
    server.create(3, Some(st(10, 0)), Some(1));
    server.create(4, Some(st(20, 0)), Some(2));
    let mut client: EntityManager<TestState> = EntityManager::new(config(), false);
    client.receive_state(&snapshot(&server, 1));
    assert_eq!(client.len(), 2);
    let own = client.entity(0).unwrap();
    assert_eq!(own.type_id(), 3);
    assert!(own.is_visible());
    assert!(own.local());
    assert_eq!(*own.state(), st(10, 1));
    let other = client.entity(1).unwrap();
    assert!(!other.local());
    assert_eq!(*other.state(), st(20, 0));
    let evs: Vec<(u16, EntityEvent)> = client.take_events().into_iter().map(|(i, e, _)| (i, e)).collect();
    assert_eq!(
        evs,
        vec![
            (0, EntityEvent::Flags(1)),
            (0, EntityEvent::Show(0)),
            (0, EntityEvent::Created(0)),
            (1, EntityEvent::Show(0)),
            (1, EntityEvent::Created(0)),
        ]
    );

    // The local entity takes a newer server state as confirmed state.
    server.destroy(1);
    // the probe restarts at the last id handed out, which is free again
    assert_eq!(server.create(3, Some(st(11, 0)), Some(1)), Some(1));
    let data = vec![0, 0, 3, 9, 1, 12, 0];
    client.receive_state(&data);
    assert_eq!(client.len(), 1);
    let own = client.entity(0).unwrap();
    // flags of the received state (0) would clear the local flag, so the
    // state is kept as confirmed state for the next tick
    assert_eq!(*own.state(), st(10, 1));
    let evs: Vec<(u16, EntityEvent)> = client.take_events().into_iter().map(|(i, e, _)| (i, e)).collect();
    assert_eq!(evs, vec![(1, EntityEvent::Destroyed(0))]);
}

#[test]
fn client_hides_and_shows() {
    let mut client: EntityManager<TestState> = EntityManager::new(config(), false);
    // hidden entity: header only
    client.receive_state(&[0, 5, 2, 0, 0]);
    assert!(!client.entity(5).unwrap().is_visible());
    // becomes visible with a state
    client.receive_state(&[0, 5, 2, 0, 1, 8, 0]);
    let e = client.entity(5).unwrap();
    assert!(e.is_visible());
    assert_eq!(*e.state(), st(8, 0));
    // hidden again
    client.receive_state(&[0, 5, 2, 0, 0]);
    assert!(!client.entity(5).unwrap().is_visible());
    let evs: Vec<EntityEvent> = client.take_events().into_iter().map(|(_, e, _)| e).collect();
    assert_eq!(
        evs,
        vec![EntityEvent::Hide(0), EntityEvent::Created(0), EntityEvent::Show(0), EntityEvent::Hide(0)]
    );
    // an empty snapshot destroys everything
    client.receive_state(&[]);
    assert_eq!(client.len(), 0);
}
