//! Channel layout and connection gating.
//!
//! Messages travel over named logical channels, each with its own delivery
//! class: lifecycle and chat are reliable, high-frequency state is not.
//! A connection is accepted only when both ends speak the same protocol.
use vstd::prelude::*;

verus! {

/// The protocol identifier both ends must present; a mismatch refuses the
/// connection.
pub const PROTOCOL_ID: u64 = 7;

/// Whether a connection presenting `client_protocol` may be accepted.
pub fn protocol_accepts(client_protocol: u64) -> (r: bool)
    ensures
        r == (client_protocol == PROTOCOL_ID),
{
    client_protocol == PROTOCOL_ID
}

/// The server-to-client channels.
#[derive(Clone, Copy, PartialEq, Eq, Structural, Debug)]
pub enum ServerChannel {
    /// Lifecycle events: reliable and ordered.
    ServerMessages,
    /// The one-shot host flag: reliable.
    Host,
    /// Player snapshots: unreliable, high-frequency.
    NetworkedEntities,
    /// Non-player snapshots: unreliable, high-frequency.
    NonNetworkedEntities,
    /// Chat lines: reliable.
    ChatChannel,
}

/// The client-to-server channels.
#[derive(Clone, Copy, PartialEq, Eq, Structural, Debug)]
pub enum ClientChannel {
    /// Translation inputs: unreliable, freshest wins.
    Input,
    /// Look rotations: unreliable, freshest wins.
    Rots,
    /// Discrete actions: reliable.
    Command,
    /// Chat lines: reliable.
    Chat,
}

/// Delivery class of a server-to-client channel.
pub open spec fn spec_server_channel_reliable(c: ServerChannel) -> bool {
    match c {
        ServerChannel::ServerMessages => true,
        ServerChannel::Host => true,
        ServerChannel::NetworkedEntities => false,
        ServerChannel::NonNetworkedEntities => false,
        ServerChannel::ChatChannel => true,
    }
}

/// Delivery class of a client-to-server channel.
pub open spec fn spec_client_channel_reliable(c: ClientChannel) -> bool {
    match c {
        ClientChannel::Input => false,
        ClientChannel::Rots => false,
        ClientChannel::Command => true,
        ClientChannel::Chat => true,
    }
}

impl ServerChannel {
    /// Whether the channel is delivered reliably.
    pub fn is_reliable(&self) -> (r: bool)
        ensures
            r == spec_server_channel_reliable(*self),
    {
        match self {
            ServerChannel::ServerMessages => true,
            ServerChannel::Host => true,
            ServerChannel::NetworkedEntities => false,
            ServerChannel::NonNetworkedEntities => false,
            ServerChannel::ChatChannel => true,
        }
    }
}

impl ClientChannel {
    /// Whether the channel is delivered reliably.
    pub fn is_reliable(&self) -> (r: bool)
        ensures
            r == spec_client_channel_reliable(*self),
    {
        match self {
            ClientChannel::Input => false,
            ClientChannel::Rots => false,
            ClientChannel::Command => true,
            ClientChannel::Chat => true,
        }
    }
}

} // verus!
