use lithium::delay::StateDelay;
use lithium::frame::FramePacer;
use lithium::keyboard::{KeyCode, KeyboardState};
use lithium::network::Message;
use lithium::particles::ParticleSlots;
use lithium::session::{client_action, game_step, ClientAction, ClientNetEvent, GameAction, GameNetEvent, GameState};

#[test]
fn frame_pacer_ticks_every_fps_over_rate_frames() {
    let mut p = FramePacer::new();
    let mut ticks = Vec::new();
    for frame in 0..10u32 {
        let due = p.tick_due();
        if due {
            ticks.push(frame);
        }
        // 60 frames and 20 ticks per second: three frames per tick
        p.end_frame(due, 60, 20);
    }
    assert_eq!(ticks, vec![0, 3, 6, 9]);
}

#[test]
fn frame_pacer_edge_cases() {
    let mut p = FramePacer::new();
    // a due tick that did not run stays due
    p.end_frame(false, 60, 20);
    assert!(p.tick_due());
    // more ticks than frames per second: a tick every frame
    p.end_frame(true, 30, 60);
    assert_eq!(p.frames_left(), 0);
    assert!(p.tick_due());
    p.end_frame(true, 60, 60);
    assert!(p.tick_due());
    p.end_frame(true, 60, 15);
    assert_eq!(p.frames_left(), 3);
    assert!(!p.tick_due());
}

#[test]
fn particle_slots_reuse_freed_slots_first() {
    let mut s = ParticleSlots::new(3);
    assert_eq!(s.len(), 3);
    assert_eq!(s.get(), Some(0));
    assert_eq!(s.get(), Some(1));
    assert_eq!(s.get(), Some(2));
    assert_eq!(s.get(), None);
    assert_eq!(s.max_used(), 3);
    // slot 1 ends, the others live on
    s.sweep(&vec![true, false, true]);
    assert!(!s.is_active(1));
    assert!(s.is_active(0) && s.is_active(2));
    assert_eq!(s.max_used(), 3);
    assert_eq!(s.get(), Some(1));
    // the last two end: the bound drops to just above slot 0
    s.sweep(&vec![true, false, false]);
    assert_eq!(s.max_used(), 1);
    // the slot freed last comes back first
    assert_eq!(s.get(), Some(2));
    assert_eq!(s.max_used(), 3);
    assert_eq!(s.get(), Some(1));
    assert_eq!(s.get(), None);
}

#[test]
fn particle_slots_empty() {
    let mut s = ParticleSlots::new(0);
    assert_eq!(s.get(), None);
    s.sweep(&vec![]);
    assert_eq!(s.max_used(), 0);
}

#[test]
fn keyboard_press_and_release() {
    let mut k = KeyboardState::new();
    let w = KeyCode::W.code();
    assert_eq!(w, 25);
    assert!(!k.key_down(w));
    k.set_key(w, true);
    assert!(k.key_down(w) && k.key_pressed(w) && !k.key_released(w));
    k.end_frame();
    assert!(k.key_down(w) && !k.key_pressed(w) && !k.key_released(w));
    k.set_key(w, false);
    assert!(!k.key_down(w) && !k.key_pressed(w) && k.key_released(w));
    k.end_frame();
    assert!(!k.key_released(w));
}

#[test]
fn keyboard_buttons_and_quit() {
    let mut k = KeyboardState::new();
    assert_eq!(k.input_buttons(), 0);
    k.set_key(1, true);
    k.set_key(84, true);
    assert_eq!(k.input_buttons(), 5);
    k.set_key(83, true);
    assert_eq!(k.input_buttons(), 7);
    assert!(!k.quit_requested());
    k.set_key(KeyCode::LCtrl.code(), true);
    k.set_key(KeyCode::C.code(), true);
    assert!(k.quit_requested());
    k.release_all();
    assert_eq!(k.input_buttons(), 0);
    assert!(!k.quit_requested());
}

#[test]
fn state_delay_gives_states_back_delay_ticks_later() {
    let mut d: StateDelay<u32> = StateDelay::new(2);
    assert_eq!(d.push(1, 10), None);
    assert_eq!(d.push(2, 20), None);
    assert_eq!(d.push(3, 30), Some((1, 10)));
    assert_eq!(d.push(4, 40), Some((2, 20)));
    assert_eq!(d.len(), 2);
    d.clear();
    assert_eq!(d.len(), 0);
    assert_eq!(d.push(5, 50), None);
}

#[test]
fn state_delay_of_zero_passes_through() {
    let mut d: StateDelay<u32> = StateDelay::new(0);
    assert_eq!(d.push(7, 70), Some((7, 70)));
    assert_eq!(d.len(), 0);
}

#[test]
fn client_reacts_to_network_events() {
    assert_eq!(client_action(ClientNetEvent::Connection), ClientAction::Connect);
    assert_eq!(client_action(ClientNetEvent::Message(Message::ServerConfig)), ClientAction::ApplyConfig);
    assert_eq!(client_action(ClientNetEvent::Message(Message::ServerState)), ClientAction::ApplyState);
    assert_eq!(client_action(ClientNetEvent::Message(Message::ServerEvents)), ClientAction::ApplyEvents);
    assert_eq!(client_action(ClientNetEvent::Message(Message::ClientInput)), ClientAction::ReportUnknown);
    assert_eq!(client_action(ClientNetEvent::ConnectionLost), ClientAction::Disconnect(true));
    assert_eq!(client_action(ClientNetEvent::ConnectionClosed(false)), ClientAction::Disconnect(false));
    assert_eq!(client_action(ClientNetEvent::ConnectionFailed), ClientAction::ConnectFailed);
    assert_eq!(client_action(ClientNetEvent::Other), ClientAction::Ignore);
}

#[test]
fn game_client_takes_snapshots_only_once_configured() {
    let s = GameState::Disconnected;
    // no snapshot and no configuration before a connection
    assert_eq!(game_step(s, GameNetEvent::Message(Some(1))), (s, GameAction::Ignore));
    assert_eq!(game_step(s, GameNetEvent::Message(Some(0))), (s, GameAction::Ignore));
    let (s, a) = game_step(s, GameNetEvent::Connection);
    assert_eq!((s, a), (GameState::Pending, GameAction::Reset));
    // a snapshot before the configuration is dropped
    assert_eq!(game_step(s, GameNetEvent::Message(Some(1))), (s, GameAction::Ignore));
    let (s, a) = game_step(s, GameNetEvent::Message(Some(0)));
    assert_eq!((s, a), (GameState::Connected, GameAction::ApplyConfig));
    assert_eq!(game_step(s, GameNetEvent::Message(Some(1))), (s, GameAction::ApplyState));
    assert_eq!(game_step(s, GameNetEvent::Message(Some(0))), (s, GameAction::Ignore));
    assert_eq!(game_step(s, GameNetEvent::Message(None)), (s, GameAction::Ignore));
    assert_eq!(game_step(s, GameNetEvent::Tick), (s, GameAction::TickEntities));
    assert_eq!(game_step(s, GameNetEvent::Close), (s, GameAction::ReportClosed));
    assert_eq!(game_step(s, GameNetEvent::ConnectionLost), (GameState::Disconnected, GameAction::Disconnect));
}
