//! A client's reactions to what its network reports: the engine's client,
//! which dispatches on the kind of each message, and the game client, which
//! accepts a configuration only while a connection is pending and snapshots
//! only once it is configured.
use vstd::prelude::*;
use crate::network::Message;

verus! {

/// What the client's network reports.
#[derive(Debug, Clone, Copy, PartialEq, Eq, Structural)]
pub enum ClientNetEvent {
    /// The connection to the server is made.
    Connection,
    /// A message of the given kind arrived.
    Message(Message),
    /// The connection dropped.
    ConnectionLost,
    /// The connection was closed, by the remote side when the flag is set.
    ConnectionClosed(bool),
    /// The connection could not be made.
    ConnectionFailed,
    /// Anything else.
    Other,
}

/// What the client does in response.
#[derive(Debug, Clone, Copy, PartialEq, Eq, Structural)]
pub enum ClientAction {
    /// Reset the entities, then tell the game it is connected.
    Connect,
    /// Take over the configuration and describe the level to the game.
    ApplyConfig,
    /// Apply the entity snapshot.
    ApplyState,
    /// Keep the events received.
    ApplyEvents,
    /// Report a message of no kind the client takes, and drop it.
    ReportUnknown,
    /// Reset the entities, tell the game it is disconnected (by the remote
    /// side when the flag is set) and close the connection.
    Disconnect(bool),
    /// Tell the game the connection could not be made.
    ConnectFailed,
    /// Nothing to do.
    Ignore,
}

/// The client's reaction to `event`.
pub open spec fn client_reaction(event: ClientNetEvent) -> ClientAction {
    match event {
        ClientNetEvent::Connection => ClientAction::Connect,
        ClientNetEvent::Message(m) => match m {
            Message::ServerConfig => ClientAction::ApplyConfig,
            Message::ServerState => ClientAction::ApplyState,
            Message::ServerEvents => ClientAction::ApplyEvents,
            _ => ClientAction::ReportUnknown,
        },
        ClientNetEvent::ConnectionLost => ClientAction::Disconnect(true),
        ClientNetEvent::ConnectionClosed(by_remote) => ClientAction::Disconnect(by_remote),
        ClientNetEvent::ConnectionFailed => ClientAction::ConnectFailed,
        ClientNetEvent::Other => ClientAction::Ignore,
    }
}

/// The client's reaction to `event`.
pub fn client_action(event: ClientNetEvent) -> (a: ClientAction)
    ensures
        a == client_reaction(event),
{
    match event {
        ClientNetEvent::Connection => ClientAction::Connect,
        ClientNetEvent::Message(m) => match m {
            Message::ServerConfig => ClientAction::ApplyConfig,
            Message::ServerState => ClientAction::ApplyState,
            Message::ServerEvents => ClientAction::ApplyEvents,
            _ => ClientAction::ReportUnknown,
        },
        ClientNetEvent::ConnectionLost => ClientAction::Disconnect(true),
        ClientNetEvent::ConnectionClosed(by_remote) => ClientAction::Disconnect(by_remote),
        ClientNetEvent::ConnectionFailed => ClientAction::ConnectFailed,
        ClientNetEvent::Other => ClientAction::Ignore,
    }
}

/// The connection state of the game client.
#[derive(Debug, Clone, Copy, PartialEq, Eq, Structural)]
pub enum GameState {
    Disconnected,
    /// Connected, waiting for the server's configuration.
    Pending,
    /// Configured: snapshots are applied.
    Connected,
}

/// What the game client's network reports.
#[derive(Debug, Clone, Copy, PartialEq, Eq, Structural)]
pub enum GameNetEvent {
    Connection,
    /// A message, with its first byte when it has one.
    Message(Option<u8>),
    /// The network's tick.
    Tick,
    Close,
    ConnectionLost,
    Other,
}

/// What the game client does in response.
#[derive(Debug, Clone, Copy, PartialEq, Eq, Structural)]
pub enum GameAction {
    /// Reset the entities for a new connection.
    Reset,
    /// Take over the configuration that follows the first byte.
    ApplyConfig,
    /// Apply the snapshot that follows the first byte.
    ApplyState,
    /// Tick the entities.
    TickEntities,
    /// Report that the connection was closed.
    ReportClosed,
    /// Go back to the default level and reset the entities.
    Disconnect,
    /// Nothing to do.
    Ignore,
}

/// The game client's next state and action in state `state` on `event`:
/// a message of kind 0 is the configuration, taken only while pending; a
/// message of kind 1 is a snapshot, taken only when configured.
pub open spec fn game_transition(state: GameState, event: GameNetEvent) -> (GameState, GameAction) {
    match event {
        GameNetEvent::Connection => (GameState::Pending, GameAction::Reset),
        GameNetEvent::Message(Some(kind)) => match state {
            GameState::Pending => if kind == 0 {
                (GameState::Connected, GameAction::ApplyConfig)
            } else {
                (state, GameAction::Ignore)
            },
            GameState::Connected => if kind == 1 {
                (state, GameAction::ApplyState)
            } else {
                (state, GameAction::Ignore)
            },
            GameState::Disconnected => (state, GameAction::Ignore),
        },
        GameNetEvent::Message(None) => (state, GameAction::Ignore),
        GameNetEvent::Tick => (state, GameAction::TickEntities),
        GameNetEvent::Close => (state, GameAction::ReportClosed),
        GameNetEvent::ConnectionLost => (GameState::Disconnected, GameAction::Disconnect),
        GameNetEvent::Other => (state, GameAction::Ignore),
    }
}

/// The game client's next state and action in state `state` on `event`.
pub fn game_step(state: GameState, event: GameNetEvent) -> (r: (GameState, GameAction))
    ensures
        r == game_transition(state, event),
{
    match event {
        GameNetEvent::Connection => (GameState::Pending, GameAction::Reset),
        GameNetEvent::Message(Some(kind)) => match state {
            GameState::Pending => if kind == 0 {
                (GameState::Connected, GameAction::ApplyConfig)
            } else {
                (state, GameAction::Ignore)
            },
            GameState::Connected => if kind == 1 {
                (state, GameAction::ApplyState)
            } else {
                (state, GameAction::Ignore)
            },
            GameState::Disconnected => (state, GameAction::Ignore),
        },
        GameNetEvent::Message(None) => (state, GameAction::Ignore),
        GameNetEvent::Tick => (state, GameAction::TickEntities),
        GameNetEvent::Close => (state, GameAction::ReportClosed),
        GameNetEvent::ConnectionLost => (GameState::Disconnected, GameAction::Disconnect),
        GameNetEvent::Other => (state, GameAction::Ignore),
    }
}

/// The game client applies a snapshot only once configured, takes a
/// configuration only while a connection is pending, and becomes configured
/// only by taking one; a lost connection always leaves it disconnected.
pub proof fn lemma_snapshots_need_config(state: GameState, event: GameNetEvent)
    ensures
        game_transition(state, event).1 == GameAction::ApplyState ==> state == GameState::Connected,
        game_transition(state, event).1 == GameAction::ApplyConfig ==> state == GameState::Pending,
        game_transition(state, event).0 == GameState::Connected ==> state == GameState::Connected
            || game_transition(state, event).1 == GameAction::ApplyConfig,
        event == GameNetEvent::ConnectionLost ==> game_transition(state, event).0 == GameState::Disconnected,
{
}

/// A closed connection is reported to the game with the side that closed
/// it, for either flag; a dropped connection counts as closed by the
/// remote side.
pub proof fn lemma_disconnect_reports_side(by_remote: bool)
    ensures
        client_reaction(ClientNetEvent::ConnectionClosed(by_remote)) == ClientAction::Disconnect(by_remote),
        client_reaction(ClientNetEvent::ConnectionLost) == ClientAction::Disconnect(true),
        client_reaction(ClientNetEvent::ConnectionClosed(by_remote)) != client_reaction(
            ClientNetEvent::ConnectionClosed(!by_remote),
        ),
{
}

/// Every network tick ticks the entities, in every connection state, also
/// when playing without a server, and leaves the state as it is.
pub proof fn lemma_every_tick_ticks(state: GameState)
    ensures
        game_transition(state, GameNetEvent::Tick) == (state, GameAction::TickEntities),
{
}

/// Messages are dispatched by their kind alone: a configuration, a
/// snapshot or events from the server are taken, any other kind is
/// reported; a new connection always resets the entities and connects.
pub proof fn lemma_messages_dispatch_by_kind(m: Message)
    ensures
        (client_reaction(ClientNetEvent::Message(m)) == ClientAction::ApplyConfig) <==> m == Message::ServerConfig,
        (client_reaction(ClientNetEvent::Message(m)) == ClientAction::ApplyState) <==> m == Message::ServerState,
        (client_reaction(ClientNetEvent::Message(m)) == ClientAction::ApplyEvents) <==> m == Message::ServerEvents,
        (client_reaction(ClientNetEvent::Message(m)) == ClientAction::ReportUnknown) <==> (m != Message::ServerConfig
            && m != Message::ServerState && m != Message::ServerEvents),
        client_reaction(ClientNetEvent::Connection) == ClientAction::Connect,
{
}

/// A new connection from any state waits for the configuration and resets
/// the entities; closing is only reported and changes no state.
pub proof fn lemma_connection_resets(state: GameState)
    ensures
        game_transition(state, GameNetEvent::Connection) == (GameState::Pending, GameAction::Reset),
        game_transition(state, GameNetEvent::Close) == (state, GameAction::ReportClosed),
{
}

} // verus!
