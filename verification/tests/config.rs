use reliable_rs::config::EndpointConfig;

#[test]
fn test_default_config() {
    let config = EndpointConfig::default();
    assert!(config.validate().is_ok());
}

#[test]
fn test_config_with_name() {
    let config = EndpointConfig::with_name("test_endpoint");
    assert_eq!(config.name, "test_endpoint");
}

#[test]
fn test_invalid_config() {
    let mut config = EndpointConfig::default();
    config.max_packet_size = 0;
    assert!(config.validate().is_err());
}

#[test]
fn test_default_values() {
    let config = EndpointConfig::default();
    assert_eq!(config.name, "endpoint");
    assert_eq!(config.max_packet_size, 16384);
    assert_eq!(config.fragment_above, 1024);
    assert_eq!(config.max_fragments, 16);
    assert_eq!(config.fragment_size, 1024);
    assert_eq!(config.ack_buffer_size, 256);
    assert_eq!(config.sent_packets_buffer_size, 256);
    assert_eq!(config.received_packets_buffer_size, 256);
    assert_eq!(config.fragment_reassembly_buffer_size, 64);
    assert_eq!(config.packet_header_size, 28);
    assert_eq!(config.outgoing_queue_size, 256);
    assert_eq!(config.incoming_queue_size, 256);
    assert_eq!(config.max_datagram_size(), 1024 + 5 + 9);
}

#[test]
fn test_validate_messages() {
    let mut config = EndpointConfig::default();
    config.max_packet_size = 0;
    assert_eq!(config.validate(), Err("max_packet_size must be > 0".to_string()));

    let mut config = EndpointConfig::default();
    config.fragment_size = 0;
    assert_eq!(config.validate(), Err("fragment_size must be > 0".to_string()));

    let mut config = EndpointConfig::default();
    config.max_fragments = 0;
    assert_eq!(config.validate(), Err("max_fragments must be > 0".to_string()));

    let mut config = EndpointConfig::default();
    config.fragment_above = config.max_packet_size + 1;
    assert_eq!(
        config.validate(),
        Err("fragment_above must be <= max_packet_size".to_string())
    );

    let mut config = EndpointConfig::default();
    config.max_fragments = 10;
    config.fragment_size = 10;
    config.max_packet_size = 200;
    config.fragment_above = 100;
    assert_eq!(
        config.validate(),
        Err("max_packet_size (200) exceeds max fragmented size (100)".to_string())
    );

    let mut config = EndpointConfig::default();
    config.sent_packets_buffer_size = 100;
    assert_eq!(
        config.validate(),
        Err("sent_packets_buffer_size must be a power of two".to_string())
    );

    let mut config = EndpointConfig::default();
    config.sent_packets_buffer_size = 16;
    assert_eq!(
        config.validate(),
        Err("sent_packets_buffer_size must be >= 32".to_string())
    );

    let mut config = EndpointConfig::default();
    config.received_packets_buffer_size = 0;
    assert_eq!(
        config.validate(),
        Err("received_packets_buffer_size must be a power of two".to_string())
    );

    let mut config = EndpointConfig::default();
    config.fragment_reassembly_buffer_size = 3;
    assert_eq!(
        config.validate(),
        Err("fragment_reassembly_buffer_size must be a power of two".to_string())
    );

    let mut config = EndpointConfig::default();
    config.ack_buffer_size = 31;
    assert_eq!(
        config.validate(),
        Err("ack_buffer_size must be >= 32".to_string())
    );

    let mut config = EndpointConfig::default();
    config.outgoing_queue_size = 12;
    assert_eq!(
        config.validate(),
        Err("outgoing_queue_size must be a positive power of two".to_string())
    );

    let mut config = EndpointConfig::default();
    config.incoming_queue_size = 0;
    assert_eq!(
        config.validate(),
        Err("incoming_queue_size must be a positive power of two".to_string())
    );
}

#[test]
fn test_first_failure_reported() {
    let mut config = EndpointConfig::default();
    config.sent_packets_buffer_size = 3;
    config.incoming_queue_size = 3;
    assert_eq!(
        config.validate(),
        Err("sent_packets_buffer_size must be a power of two".to_string())
    );
    assert!(config.validate_queues().is_err());
    config.sent_packets_buffer_size = 64;
    assert!(config.validate_limits().is_ok());
}

#[test]
fn test_clone_keeps_fields() {
    let mut config = EndpointConfig::with_name("a");
    config.fragment_size = 77;
    let copy = config.clone();
    assert_eq!(copy.name, "a");
    assert_eq!(copy.fragment_size, 77);
}
