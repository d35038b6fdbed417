//! Shared configuration and the protocol declaration: the replication
//! interval and tick rate that server and clients must agree on, the logical
//! channel's ordering requirement, and the registration of the component
//! kinds that snapshots may carry.

use crate::codec::{
    carrier_name_bytes, label_name_bytes, name_carrier, name_label, name_payload,
    payload_name_bytes, TypeRegistry,
};
use vstd::prelude::*;

verus! {

/// Fixed simulation tick rate, in ticks per second.
pub const FIXED_TIMESTEP_HZ: u64 = 64;

/// How often the server sends replication updates, in milliseconds.
pub const SERVER_REPLICATION_INTERVAL_MS: u64 = 100;

/// The address the server listens on: four address octets and a port.
#[derive(Clone, Copy, Debug, PartialEq, Eq, Structural)]
pub struct ServerAddress {
    pub octet0: u8,
    pub octet1: u8,
    pub octet2: u8,
    pub octet3: u8,
    pub port: u16,
}

/// The loopback address and port the server binds.
pub fn server_address() -> (a: ServerAddress)
    ensures
        a == (ServerAddress { octet0: 127, octet1: 0, octet2: 0, octet3: 1, port: 5000 }),
{
    ServerAddress { octet0: 127, octet1: 0, octet2: 0, octet3: 1, port: 5000 }
}

/// Whether client and server run in one process or separately.
#[derive(Clone, Copy, Debug, PartialEq, Eq, Structural)]
pub enum SimulationMode {
    Separate,
    HostServer,
}

/// Tick configuration: the duration of one simulation tick.
#[derive(Clone, Copy, Debug, PartialEq, Eq, Structural)]
pub struct TickConfig {
    pub tick_duration_ns: u64,
}

/// The configuration shared between client and server builds.
#[derive(Clone, Copy, Debug, PartialEq, Eq, Structural)]
pub struct SharedConfig {
    pub server_replication_send_interval_ms: u64,
    pub tick: TickConfig,
    pub mode: SimulationMode,
}

/// The shared configuration both sides must be built with: updates every
/// 100 ms, a tick of exactly 1/64 s, and separate client and server
/// processes.
pub fn shared_config() -> (c: SharedConfig)
    ensures
        c == (SharedConfig {
            server_replication_send_interval_ms: SERVER_REPLICATION_INTERVAL_MS,
            tick: TickConfig { tick_duration_ns: 1_000_000_000u64 / FIXED_TIMESTEP_HZ },
            mode: SimulationMode::Separate,
        }),
        c.tick.tick_duration_ns == 15_625_000,
{
    SharedConfig {
        server_replication_send_interval_ms: SERVER_REPLICATION_INTERVAL_MS,
        tick: TickConfig { tick_duration_ns: 1_000_000_000u64 / FIXED_TIMESTEP_HZ },
        mode: SimulationMode::Separate,
    }
}

/// How the server accepts connections; the transport itself is an external
/// collaborator.
#[derive(Clone, Copy, Debug, PartialEq, Eq, Structural)]
pub enum TransportKind {
    UdpSocket,
    Steam,
}

/// What the server process is configured with: the shared part, the socket
/// it opens, and how often replication updates are sent.
#[derive(Clone, Copy, Debug, PartialEq, Eq, Structural)]
pub struct ServerConfig {
    pub shared: SharedConfig,
    pub transport: TransportKind,
    pub address: ServerAddress,
    pub replication_send_interval_ms: u64,
}

/// Build the server configuration: a UDP socket on the loopback address,
/// the shared client/server settings, and updates to the clients every
/// 100 ms.
pub fn build_server_config() -> (c: ServerConfig)
    ensures
        c == (ServerConfig {
            shared: (SharedConfig {
                server_replication_send_interval_ms: SERVER_REPLICATION_INTERVAL_MS,
                tick: TickConfig { tick_duration_ns: 15_625_000 },
                mode: SimulationMode::Separate,
            }),
            transport: TransportKind::UdpSocket,
            address: (ServerAddress { octet0: 127, octet1: 0, octet2: 0, octet3: 1, port: 5000 }),
            replication_send_interval_ms: SERVER_REPLICATION_INTERVAL_MS,
        }),
{
    ServerConfig {
        shared: shared_config(),
        transport: TransportKind::UdpSocket,
        address: server_address(),
        replication_send_interval_ms: SERVER_REPLICATION_INTERVAL_MS,
    }
}

/// Ordering and reliability required of a logical transport channel.
#[derive(Clone, Copy, Debug, PartialEq, Eq, Structural)]
pub enum ChannelMode {
    OrderedReliable,
    UnorderedUnreliable,
}

/// In which direction a channel replicates component data.
#[derive(Clone, Copy, Debug, PartialEq, Eq, Structural)]
pub enum ChannelDirection {
    ServerToClient,
    ClientToServer,
    Bidirectional,
}

/// What the core demands of one logical channel; the transport layer owns
/// the wire protocol that satisfies it.
#[derive(Clone, Copy, Debug, PartialEq, Eq, Structural)]
pub struct ChannelSettings {
    pub mode: ChannelMode,
    pub direction: ChannelDirection,
}

/// The one channel this protocol declares.
pub struct Channel1;

impl Channel1 {
    /// Replication traffic must arrive ordered and reliably, and flows from
    /// the server to the clients only.
    pub fn settings(&self) -> (s: ChannelSettings)
        ensures
            s == (ChannelSettings {
                mode: ChannelMode::OrderedReliable,
                direction: ChannelDirection::ServerToClient,
            }),
    {
        ChannelSettings {
            mode: ChannelMode::OrderedReliable,
            direction: ChannelDirection::ServerToClient,
        }
    }
}

/// The shared protocol declaration: registering the component kinds must
/// happen before any snapshot is serialized or decoded.
pub struct SharedPlugin;

impl SharedPlugin {
    /// Register the three replicable component kinds — payload, carrier and
    /// label — with the type registry that the snapshot codec consults.
    pub fn build_registry(&self) -> (reg: TypeRegistry)
        ensures
            reg.kinds@.len() == 3,
            reg.kinds@[0]@ == name_payload(),
            reg.kinds@[1]@ == name_carrier(),
            reg.kinds@[2]@ == name_label(),
    {
        let mut reg = TypeRegistry { kinds: Vec::new() };
        reg.kinds.push(payload_name_bytes());
        reg.kinds.push(carrier_name_bytes());
        reg.kinds.push(label_name_bytes());
        reg
    }
}

} // verus!
