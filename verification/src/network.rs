//! Network message kinds and their one-byte framing.
use vstd::prelude::*;

verus! {

/// The kind of a network message, carried in its first byte.
#[derive(Debug, Clone, Copy, PartialEq, Eq, Structural)]
pub enum Message {
    ServerConfig,
    ServerState,
    ServerEvents,
    ClientInput,
    ClientEvents,
    Unknown,
}

/// The byte that tags a message of kind `m`.
pub open spec fn message_byte(m: Message) -> u8 {
    match m {
        Message::ServerConfig => 0,
        Message::ServerState => 1,
        Message::ServerEvents => 2,
        Message::ClientInput => 3,
        Message::ClientEvents => 4,
        Message::Unknown => 255,
    }
}

/// The kind of message that tag byte `id` announces.
pub open spec fn message_of_byte(id: u8) -> Message {
    if id == 0 {
        Message::ServerConfig
    } else if id == 1 {
        Message::ServerState
    } else if id == 2 {
        Message::ServerEvents
    } else if id == 3 {
        Message::ClientInput
    } else if id == 4 {
        Message::ClientEvents
    } else {
        Message::Unknown
    }
}

impl Message {
    /// Reads a message kind from its tag byte; bytes without a kind give
    /// `Unknown`.
    pub fn from_u8(id: u8) -> (m: Message)
        ensures
            m == message_of_byte(id),
    {
        match id {
            0 => Message::ServerConfig,
            1 => Message::ServerState,
            2 => Message::ServerEvents,
            3 => Message::ClientInput,
            4 => Message::ClientEvents,
            _ => Message::Unknown,
        }
    }

    /// The tag byte of this message kind.
    pub fn to_u8(&self) -> (b: u8)
        ensures
            b == message_byte(*self),
    {
        match self {
            Message::ServerConfig => 0,
            Message::ServerState => 1,
            Message::ServerEvents => 2,
            Message::ClientInput => 3,
            Message::ClientEvents => 4,
            Message::Unknown => 255,
        }
    }
}

/// Frames `data` as a message of kind `typ`: the tag byte, then the data.
pub fn frame_message(typ: Message, data: &[u8]) -> (msg: Vec<u8>)
    ensures
        msg@ == seq![message_byte(typ)] + data@,
{
    let mut msg: Vec<u8> = Vec::new();
    msg.push(typ.to_u8());
    let mut i: usize = 0;
    while i < data.len()
        invariant
            i <= data.len(),
            msg@ == seq![message_byte(typ)] + data@.subrange(0, i as int),
        decreases data.len() - i,
    {
        msg.push(data[i]);
        i = i + 1;
        assert(data@.subrange(0, i as int) =~= data@.subrange(0, i - 1).push(data@[i - 1]));
    }
    assert(data@.subrange(0, data.len() as int) =~= data@);
    msg
}

/// Splits a received message into its kind and its payload. An empty
/// message has no kind.
pub fn split_message(msg: &[u8]) -> (r: Option<(Message, &[u8])>)
    ensures
        match r {
            None => msg@.len() == 0,
            Some((m, payload)) => {
                &&& msg@.len() > 0
                &&& m == message_of_byte(msg@[0])
                &&& payload@ == msg@.subrange(1, msg@.len() as int)
            },
        },
{
    if msg.len() == 0 {
        None
    } else {
        Some((Message::from_u8(msg[0]), &msg[1..msg.len()]))
    }
}

/// Every message kind survives a trip through its tag byte.
pub proof fn lemma_message_byte_roundtrip(m: Message)
    ensures
        message_of_byte(message_byte(m)) == m,
{
}

/// A tag byte survives a trip through its message kind exactly when it is
/// one of the six tag bytes in use.
pub proof fn lemma_byte_message_roundtrip(b: u8)
    ensures
        message_byte(message_of_byte(b)) == b <==> (b <= 4 || b == 255),
{
}

/// Splitting a framed message gives back its kind and its data.
pub proof fn lemma_frame_split(typ: Message, data: Seq<u8>)
    ensures
        ({
            let msg = seq![message_byte(typ)] + data;
            &&& msg.len() > 0
            &&& message_of_byte(msg[0]) == typ
            &&& msg.subrange(1, msg.len() as int) == data
        }),
{
    let msg = seq![message_byte(typ)] + data;
    assert(msg.subrange(1, msg.len() as int) =~= data);
}

} // verus!
