use reliable_rs::config::EndpointConfig;
use reliable_rs::endpoint::Endpoint;
use reliable_rs::fragment::FragmentHeader;
use reliable_rs::PacketHeader;

fn create_test_endpoint(name: &str) -> Endpoint {
    let config = EndpointConfig::with_name(name);
    Endpoint::new(config, 0)
}

#[test]
fn test_send_receive_basic() {
    let mut client = create_test_endpoint("client");
    let mut server = create_test_endpoint("server");

    let data = b"Hello, Server!";
    client.send_packet(data);

    let mut outgoing_count = 0usize;
    client.drain_outgoing(|_, wire| {
        outgoing_count += 1;
        server.receive_packet(wire);
    });
    assert_eq!(outgoing_count, 1);

    let mut incoming: Vec<(u16, Vec<u8>)> = Vec::new();
    server.drain_incoming(|seq, d| incoming.push((seq, d.to_vec())));
    assert_eq!(incoming.len(), 1);
    assert_eq!(&incoming[0].1, data);
}

#[test]
fn test_ack_system() {
    let mut client = create_test_endpoint("client");
    let mut server = create_test_endpoint("server");

    client.send_packet(b"ping");
    client.drain_outgoing(|_, data| {
        server.receive_packet(data);
    });

    server.send_packet(b"pong");
    server.drain_outgoing(|_, data| {
        client.receive_packet(data);
    });

    let acks = client.get_acks();
    assert_eq!(acks.len(), 1);
    assert_eq!(acks[0], 0);
}

#[test]
fn test_fragmentation() {
    let mut config = EndpointConfig::default();
    config.fragment_above = 100;
    config.fragment_size = 100;
    config.max_packet_size = config.max_fragments * config.fragment_size;

    let mut client = Endpoint::new(config.clone(), 0);
    let mut server = Endpoint::new(config, 0);

    let data = vec![42u8; 500];
    client.send_packet(&data);

    let mut frag_count = 0usize;
    client.drain_outgoing(|_, wire| {
        frag_count += 1;
        server.receive_packet(wire);
    });
    assert!(frag_count > 1);
    assert_eq!(client.counters().fragments_sent, frag_count as u64);

    let mut incoming: Vec<(u16, Vec<u8>)> = Vec::new();
    server.drain_incoming(|seq, d| incoming.push((seq, d.to_vec())));
    assert_eq!(incoming.len(), 1);
    assert_eq!(incoming[0].1, data);
}

#[test]
fn test_fragmentation_out_of_order() {
    let mut config = EndpointConfig::default();
    config.fragment_above = 100;
    config.fragment_size = 100;
    config.max_packet_size = config.max_fragments * config.fragment_size;

    let mut client = Endpoint::new(config.clone(), 0);
    let mut server = Endpoint::new(config, 0);

    let data: Vec<u8> = (0..500).map(|i| (i % 256) as u8).collect();
    client.send_packet(&data);

    let mut outgoing: Vec<(u16, Vec<u8>)> = Vec::new();
    client.drain_outgoing(|seq, d| outgoing.push((seq, d.to_vec())));
    assert!(outgoing.len() > 1);

    outgoing.reverse();

    for (_, wire) in &outgoing {
        server.receive_packet(wire);
    }

    let mut incoming: Vec<(u16, Vec<u8>)> = Vec::new();
    server.drain_incoming(|seq, d| incoming.push((seq, d.to_vec())));
    assert_eq!(incoming.len(), 1);
    assert_eq!(incoming[0].1, data);
}

#[test]
fn endpoint_test_sequence_wrap_around() {
    let mut endpoint = create_test_endpoint("test");

    for _ in 0..65534 {
        endpoint.send_packet(b"x");
        endpoint.drain_outgoing(|_, _| {});
    }

    endpoint.send_packet(b"wrap1");
    endpoint.send_packet(b"wrap2");

    let mut count = 0usize;
    endpoint.drain_outgoing(|_, _| count += 1);
    assert_eq!(count, 2);
}

#[test]
fn endpoint_test_reset() {
    let mut endpoint = create_test_endpoint("test");

    endpoint.send_packet(b"data");
    endpoint.drain_outgoing(|_, _| {});

    endpoint.reset();

    assert_eq!(endpoint.next_packet_sequence(), 0);
    assert_eq!(endpoint.counters().packets_sent, 0);
}

#[test]
fn test_rtt_samples_are_send_times() {
    let mut client = create_test_endpoint("client");
    let mut server = create_test_endpoint("server");

    client.update(10);
    client.send_packet(b"ping");
    let mut ping: Vec<Vec<u8>> = Vec::new();
    client.drain_outgoing(|_, d| ping.push(d.to_vec()));

    server.update(50);
    assert!(server.receive_packet(&ping[0]).is_empty());
    server.send_packet(b"pong");
    let mut pong: Vec<Vec<u8>> = Vec::new();
    server.drain_outgoing(|_, d| pong.push(d.to_vec()));

    client.update(100);
    let samples = client.receive_packet(&pong[0]);
    assert_eq!(samples, vec![10u64]);
    assert_eq!(client.counters().packets_acked, 1);
    // A second copy acknowledges nothing new.
    let again = client.receive_packet(&pong[0]);
    assert!(again.is_empty());
    assert_eq!(client.counters().packets_stale, 1);
}

#[test]
fn test_regular_datagram_wire_format() {
    let mut client = create_test_endpoint("client");
    client.send_packet(b"abc");
    let out = client.take_outgoing_packets();
    assert_eq!(out.len(), 1);
    // prefix: ack fits in a byte (0), all ack bytes 0xFF (none received
    // yet: ack_bits all zero, so all four bytes are present).
    assert_eq!(out[0].0, 0);
    let wire = &out[0].1;
    assert_eq!(wire.len(), 3 + 1 + 4 + 3);
    assert_eq!(&wire[wire.len() - 3..], b"abc");
    assert_eq!(wire[0] & 1, 0);
}

#[test]
fn test_too_many_fragments_sends_nothing() {
    let mut config = EndpointConfig::default();
    config.fragment_above = 1;
    config.fragment_size = 1;
    config.max_fragments = 300;
    config.max_packet_size = 300;
    let mut client = Endpoint::new(config, 0);
    // 300 one-byte fragments exceed the 255 a fragment header can count.
    client.send_packet(&[1u8; 300]);
    assert!(client.take_outgoing_packets().is_empty());
    assert_eq!(client.counters().fragments_sent, 0);
    assert_eq!(client.counters().packets_sent, 1);
    assert_eq!(client.next_packet_sequence(), 1);
}

#[test]
fn test_receive_invalid_and_too_large() {
    let mut server = create_test_endpoint("server");
    server.receive_packet(&[]);
    assert_eq!(server.counters().packets_invalid, 0);
    server.receive_packet(&[0u8, 1]);
    assert_eq!(server.counters().packets_invalid, 1);
    let big = vec![0u8; 16384 + 9 + 1];
    server.receive_packet(&big);
    assert_eq!(server.counters().packets_too_large_to_receive, 1);
    server.receive_packet(&[1u8, 0, 0]);
    assert_eq!(server.counters().fragments_invalid, 1);
}

#[test]
fn test_ack_buffer_bounded() {
    let mut config = EndpointConfig::default();
    config.ack_buffer_size = 32;
    let mut client = Endpoint::new(config.clone(), 0);
    let mut server = Endpoint::new(config, 0);
    for _ in 0..33 {
        client.send_packet(b"p");
    }
    client.drain_outgoing(|_, d| {
        server.receive_packet(d);
    });
    server.send_packet(b"r");
    server.drain_outgoing(|_, d| {
        client.receive_packet(d);
    });
    // One header acknowledges the 32 newest, newest first.
    let expected: Vec<u16> = (1..33u16).rev().collect();
    assert_eq!(client.get_acks(), &expected[..]);
    assert_eq!(client.counters().packets_acked, 32);
    // The buffer is full: a further acknowledgement is counted, not recorded.
    client.send_packet(b"q");
    client.drain_outgoing(|_, d| {
        server.receive_packet(d);
    });
    server.send_packet(b"s");
    server.drain_outgoing(|_, d| {
        client.receive_packet(d);
    });
    assert_eq!(client.get_acks().len(), 32);
    assert_eq!(client.counters().packets_acked, 33);
    client.clear_acks();
    assert!(client.get_acks().is_empty());
}

#[test]
fn test_packet_loss_and_traffic() {
    let mut config = EndpointConfig::default();
    config.sent_packets_buffer_size = 32;
    let mut client = Endpoint::new(config, 0);
    assert_eq!(client.packet_loss_sample(), None);
    for t in 0..32u64 {
        client.update(t);
        client.send_packet(b"12");
    }
    // Older half: 16 samples from sequence 1 to 16, none acknowledged.
    assert_eq!(client.packet_loss_sample(), Some((16, 16)));
    let totals = client.sent_traffic(false).unwrap();
    assert_eq!(totals.bytes, 32 * (28 + 2));
    assert_eq!(totals.first_time, 0);
    assert_eq!(totals.last_time, 31);
    assert_eq!(client.sent_traffic(true), None);
    assert_eq!(client.received_traffic(), None);
}

#[test]
fn test_oversized_reassembly_dropped() {
    let mut config = EndpointConfig::default();
    config.fragment_above = 10;
    config.fragment_size = 10;
    config.max_fragments = 4;
    config.max_packet_size = 40;
    let mut sender = Endpoint::new(config.clone(), 0);
    sender.send_packet(&[7u8; 40]);
    let wires: Vec<Vec<u8>> = sender.take_outgoing_packets().into_iter().map(|(_, w)| w).collect();
    let mut receiver_config = config.clone();
    receiver_config.max_packet_size = 30;
    receiver_config.fragment_above = 10;
    let mut receiver = Endpoint::new(receiver_config, 0);
    for w in &wires {
        receiver.receive_packet(w);
    }
    // The last fragment completes 40 bytes, more than a 30-byte packet:
    // dropped and counted, nothing delivered.
    assert_eq!(receiver.counters().packets_too_large_to_receive, 1);
    assert_eq!(receiver.counters().packets_received, 0);
    assert_eq!(receiver.counters().fragments_received, 4);
    assert!(receiver.take_incoming_packets().is_empty());
    // A repeat of the last fragment starts a fresh packet that waits for the rest.
    receiver.receive_packet(&wires[3]);
    assert_eq!(receiver.counters().packets_too_large_to_receive, 1);
}

#[test]
fn test_fragment_datagram_wire_format() {
    let mut config = EndpointConfig::default();
    config.fragment_above = 100;
    config.fragment_size = 100;
    config.max_packet_size = config.max_fragments * config.fragment_size;
    let mut client = Endpoint::new(config, 0);
    let data: Vec<u8> = (0..250).map(|i| i as u8).collect();
    client.send_packet(&data);
    let out = client.take_outgoing_packets();
    assert_eq!(out.len(), 3);
    let mut rebuilt: Vec<u8> = Vec::new();
    for (i, (seq, wire)) in out.iter().enumerate() {
        assert_eq!(*seq, 0);
        let (fh, n) = FragmentHeader::read(wire).unwrap();
        assert_eq!(n, 5);
        assert_eq!(fh.sequence, 0);
        assert_eq!(fh.fragment_id as usize, i);
        assert_eq!(fh.num_fragments, 3);
        let mut pos = n;
        if i == 0 {
            let (ph, m) = PacketHeader::read(&wire[pos..]).unwrap();
            assert_eq!(ph.sequence, 0);
            assert_eq!(ph.ack, 65535);
            pos += m;
        }
        rebuilt.extend_from_slice(&wire[pos..]);
    }
    assert_eq!(rebuilt, data);
}

#[test]
fn test_fits_machine_check() {
    let config = EndpointConfig::default();
    assert!(reliable_rs::endpoint::fits_machine_check(&config));
    let mut huge = EndpointConfig::default();
    huge.fragment_size = usize::MAX;
    assert!(!reliable_rs::endpoint::fits_machine_check(&huge));
    let mut wide = EndpointConfig::default();
    wide.max_fragments = usize::MAX;
    assert!(!reliable_rs::endpoint::fits_machine_check(&wide));
}
