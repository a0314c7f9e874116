use reliable_rs::config::EndpointConfig;
use reliable_rs::endpoint::Endpoint;

#[test]
fn test_basic_communication() {
    let config = EndpointConfig::default();
    let mut client = Endpoint::new(config.clone(), 0);
    let mut server = Endpoint::new(config, 0);

    client.send_packet(b"Hello, Server!");

    let mut packet_count = 0usize;
    client.drain_outgoing(|_, data| {
        packet_count += 1;
        server.receive_packet(data);
    });
    assert_eq!(packet_count, 1);

    let mut received: Vec<(u16, Vec<u8>)> = Vec::new();
    server.drain_incoming(|seq, data| received.push((seq, data.to_vec())));
    assert_eq!(received.len(), 1);
    assert_eq!(&received[0].1, b"Hello, Server!");
}

#[test]
fn test_bidirectional_communication() {
    let config = EndpointConfig::default();
    let mut client = Endpoint::new(config.clone(), 0);
    let mut server = Endpoint::new(config, 0);

    for round in 0..10 {
        client.send_packet(format!("ping {}", round).as_bytes());
        client.drain_outgoing(|_, data| {
            server.receive_packet(data);
        });

        server.send_packet(format!("pong {}", round).as_bytes());
        server.drain_outgoing(|_, data| {
            client.receive_packet(data);
        });

        let mut client_count = 0usize;
        client.drain_incoming(|_, _| client_count += 1);
        let mut server_count = 0usize;
        server.drain_incoming(|_, _| server_count += 1);

        assert_eq!(client_count, 1);
        assert_eq!(server_count, 1);

        client.clear_acks();
        server.clear_acks();
    }
}

#[test]
fn test_acknowledgment_system() {
    let config = EndpointConfig::default();
    let mut client = Endpoint::new(config.clone(), 0);
    let mut server = Endpoint::new(config, 0);

    for i in 0..10 {
        client.send_packet(&[i as u8; 32]);
    }

    client.drain_outgoing(|_, data| {
        server.receive_packet(data);
    });
    server.drain_incoming(|_, _| {});

    server.send_packet(b"response");

    server.drain_outgoing(|_, data| {
        client.receive_packet(data);
    });
    client.drain_incoming(|_, _| {});

    let acks = client.get_acks();
    assert_eq!(acks.len(), 10);

    for i in 0..10 {
        assert!(acks.contains(&(i as u16)));
    }
}

#[test]
fn test_large_packet_fragmentation() {
    let mut config = EndpointConfig::default();
    config.fragment_above = 100;
    config.fragment_size = 100;
    config.max_fragments = 64;
    config.max_packet_size = config.max_fragments * config.fragment_size;

    let mut client = Endpoint::new(config.clone(), 0);
    let mut server = Endpoint::new(config, 0);

    let large_data: Vec<u8> = (0..5000).map(|i| (i % 256) as u8).collect();

    client.send_packet(&large_data);

    let mut frag_count = 0usize;
    client.drain_outgoing(|_, data| {
        frag_count += 1;
        server.receive_packet(data);
    });
    assert!(frag_count > 1);

    let mut received: Vec<(u16, Vec<u8>)> = Vec::new();
    server.drain_incoming(|seq, data| received.push((seq, data.to_vec())));
    assert_eq!(received.len(), 1);
    assert_eq!(received[0].1, large_data);
}

#[test]
fn test_out_of_order_fragments() {
    let mut config = EndpointConfig::default();
    config.fragment_above = 50;
    config.fragment_size = 50;
    config.max_packet_size = config.max_fragments * config.fragment_size;

    let mut client = Endpoint::new(config.clone(), 0);
    let mut server = Endpoint::new(config, 0);

    let data: Vec<u8> = (0..200).map(|i| i as u8).collect();
    client.send_packet(&data);

    let mut packets: Vec<(u16, Vec<u8>)> = Vec::new();
    client.drain_outgoing(|seq, d| packets.push((seq, d.to_vec())));

    packets.reverse();

    for (_, packet_data) in &packets {
        server.receive_packet(packet_data);
    }

    let mut received: Vec<(u16, Vec<u8>)> = Vec::new();
    server.drain_incoming(|seq, d| received.push((seq, d.to_vec())));
    assert_eq!(received.len(), 1);
    assert_eq!(received[0].1, data);
}

#[test]
fn test_duplicate_packet_handling() {
    let config = EndpointConfig::default();
    let mut client = Endpoint::new(config.clone(), 0);
    let mut server = Endpoint::new(config, 0);

    client.send_packet(b"test");
    let mut packets: Vec<(u16, Vec<u8>)> = Vec::new();
    client.drain_outgoing(|seq, d| packets.push((seq, d.to_vec())));

    for _ in 0..5 {
        server.receive_packet(&packets[0].1);
    }

    let mut received_count = 0usize;
    server.drain_incoming(|_, _| received_count += 1);
    assert_eq!(received_count, 1);

    assert!(server.counters().packets_stale > 0 || server.counters().packets_received == 1);
}

#[test]
fn test_statistics_tracking() {
    let config = EndpointConfig::default();
    let mut client = Endpoint::new(config.clone(), 0);
    let mut server = Endpoint::new(config, 0);

    // Time stamps in milliseconds: one tick is ~16 ms (60 FPS).
    let mut time = 0u64;

    for _ in 0..100 {
        time += 16;

        client.send_packet(b"ping");
        client.drain_outgoing(|_, data| {
            server.receive_packet(data);
        });
        server.drain_incoming(|_, _| {});

        server.send_packet(b"pong");
        server.drain_outgoing(|_, data| {
            client.receive_packet(data);
        });
        client.drain_incoming(|_, _| {});
        client.clear_acks();

        client.update(time);
        server.update(time);
    }

    assert_eq!(client.counters().packets_sent, 100);
    assert_eq!(server.counters().packets_sent, 100);
    assert!(client.counters().packets_acked > 0);
}

#[test]
fn test_endpoint_reset() {
    let config = EndpointConfig::default();
    let mut endpoint = Endpoint::new(config, 0);

    for i in 0..50 {
        endpoint.send_packet(&[i; 32]);
    }
    endpoint.drain_outgoing(|_, _| {});

    assert_eq!(endpoint.next_packet_sequence(), 50);
    assert_eq!(endpoint.counters().packets_sent, 50);

    endpoint.reset();

    assert_eq!(endpoint.next_packet_sequence(), 0);
    assert_eq!(endpoint.counters().packets_sent, 0);
    assert_eq!(endpoint.packet_loss_sample(), None);
}

#[test]
fn integration_test_sequence_wrap_around() {
    let config = EndpointConfig::default();
    let mut client = Endpoint::new(config.clone(), 0);
    let mut server = Endpoint::new(config, 0);

    for i in 0..65540u32 {
        client.send_packet(&(i as u32).to_le_bytes());

        if i % 100 == 0 {
            client.drain_outgoing(|_, data| {
                server.receive_packet(data);
            });
            server.drain_incoming(|_, _| {});
        }
    }

    assert!(client.next_packet_sequence() < 100);
}

#[test]
fn test_max_packet_size_enforcement() {
    let mut config = EndpointConfig::default();
    config.max_packet_size = 100;
    config.fragment_above = 100;

    let mut endpoint = Endpoint::new(config, 0);

    let large_data = vec![0u8; 200];
    endpoint.send_packet(&large_data);

    let mut count = 0usize;
    endpoint.drain_outgoing(|_, _| count += 1);
    assert_eq!(count, 0);
    assert_eq!(endpoint.counters().packets_too_large_to_send, 1);
}
