//! Runtime checks of the shared configuration and protocol declaration.

use room_replication::config::{
    build_server_config, server_address, shared_config, Channel1, ChannelDirection, ChannelMode,
    SharedPlugin, SimulationMode, TransportKind,
};

#[test]
fn shared_config_values_are_fixed() {
    let c = shared_config();
    assert_eq!(c.server_replication_send_interval_ms, 100);
    assert_eq!(c.tick.tick_duration_ns, 15_625_000);
    assert!(matches!(c.mode, SimulationMode::Separate));
}

#[test]
fn server_binds_loopback_port_5000() {
    let a = server_address();
    assert_eq!((a.octet0, a.octet1, a.octet2, a.octet3), (127, 0, 0, 1));
    assert_eq!(a.port, 5000);
}

#[test]
fn server_config_opens_a_udp_socket_with_shared_settings() {
    let c = build_server_config();
    assert_eq!(c.shared, shared_config());
    assert!(matches!(c.transport, TransportKind::UdpSocket));
    assert_eq!(c.address, server_address());
    assert_eq!(c.replication_send_interval_ms, 100);
}

#[test]
fn channel_is_ordered_reliable_server_to_client() {
    let s = Channel1.settings();
    assert!(matches!(s.mode, ChannelMode::OrderedReliable));
    assert!(matches!(s.direction, ChannelDirection::ServerToClient));
}

#[test]
fn protocol_registers_the_three_component_kinds() {
    let reg = SharedPlugin.build_registry();
    assert_eq!(reg.kinds.len(), 3);
    assert_eq!(reg.kinds[0], b"payload".to_vec());
    assert_eq!(reg.kinds[1], b"carrier".to_vec());
    assert_eq!(reg.kinds[2], b"label".to_vec());
}
