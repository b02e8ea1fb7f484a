//! The entity manager's configuration and its three-byte wire format.
use vstd::prelude::*;

verus! {

/// Configuration that the server sends to each client on connection.
#[derive(Debug, Clone, Copy, PartialEq, Eq, Structural)]
pub struct EntityManagerConfig {
    /// Number of buffered ticks for client side rendering / server side
    /// rewinding.
    pub buffered_ticks: u8,
    /// Number of interpolation ticks for client side rendering.
    pub interpolation_ticks: u8,
    /// Ticks per second.
    pub tick_rate: u8,
}

/// The encoding of a configuration: its three fields in declaration order.
pub open spec fn config_bytes(c: EntityManagerConfig) -> Seq<u8> {
    seq![c.buffered_ticks, c.interpolation_ticks, c.tick_rate]
}

/// The configuration that the first three bytes of `data` encode.
pub open spec fn config_of_bytes(data: Seq<u8>) -> EntityManagerConfig {
    EntityManagerConfig { buffered_ticks: data[0], interpolation_ticks: data[1], tick_rate: data[2] }
}

/// Number of bytes in an encoded configuration.
pub open spec fn config_size() -> nat {
    3
}

impl EntityManagerConfig {
    /// Number of bytes in an encoded configuration.
    pub fn encoded_size() -> (n: usize)
        ensures
            n == config_size(),
    {
        3
    }

    /// Decodes a configuration from the start of `data`.
    pub fn from_serialized(data: &[u8]) -> (c: Self)
        requires
            data@.len() >= config_size(),
        ensures
            c == config_of_bytes(data@),
    {
        EntityManagerConfig {
            buffered_ticks: data[0],
            interpolation_ticks: data[1],
            tick_rate: data[2],
        }
    }

    /// Encodes this configuration.
    pub fn serialize(&self) -> (data: Vec<u8>)
        ensures
            data@ == config_bytes(*self),
    {
        let mut data: Vec<u8> = Vec::new();
        data.push(self.buffered_ticks);
        data.push(self.interpolation_ticks);
        data.push(self.tick_rate);
        assert(data@ =~= config_bytes(*self));
        data
    }
}

/// Decoding what was encoded gives back the configuration, whatever bytes
/// follow it.
pub proof fn lemma_config_roundtrip(c: EntityManagerConfig, rest: Seq<u8>)
    ensures
        config_of_bytes(config_bytes(c) + rest) == c,
        (config_bytes(c) + rest).len() >= config_size(),
{
}

} // verus!
