use netsim::sim::InertPoller;
use netsim::sim::NodeBuilder;
use netsim::sim::Sim;
use netsim::sim::UdpSocket;

#[test]
fn network_split_udp() {
    let mut sim = Sim::new(321);
    let node1 = NodeBuilder::with_ip("10.12.1.1").unwrap().build(&mut sim).unwrap();
    let node2 = NodeBuilder::with_ip("10.13.1.1").unwrap().build(&mut sim).unwrap();
    let group = vec![node1.ip(&sim)];
    sim.network().separate(&group);

    let socket1 = UdpSocket::bind_str(&mut sim, node1, "0.0.0.0:123").unwrap();
    let socket2 = UdpSocket::bind_str(&mut sim, node2, "0.0.0.0:123").unwrap();
    for _ in 0..1000 {
        let sent = socket2.send_to_str(&mut sim, b"hello", "10.12.1.1:123").unwrap();
        assert_eq!(sent, 5);
    }
    let mut inert = InertPoller {};
    node1.make_steps(&mut sim, None, &mut inert);
    node2.make_steps(&mut sim, None, &mut inert);
    node1.make_steps(&mut sim, None, &mut inert);
    // the partition let nothing through
    assert!(socket1.recv_from(&mut sim, 10).is_none());
}

#[test]
fn separate_then_repair() {
    let mut sim = Sim::new(7);
    let a = NodeBuilder::with_ip("10.0.0.1").unwrap().build(&mut sim).unwrap();
    let b = NodeBuilder::with_ip("10.0.0.2").unwrap().build(&mut sim).unwrap();
    let c = NodeBuilder::with_ip("10.0.0.3").unwrap().build(&mut sim).unwrap();
    let group = vec![a.ip(&sim), b.ip(&sim)];

    let sa = UdpSocket::bind_str(&mut sim, a, "0.0.0.0:80").unwrap();
    let sb = UdpSocket::bind_str(&mut sim, b, "0.0.0.0:80").unwrap();
    let sc = UdpSocket::bind_str(&mut sim, c, "0.0.0.0:80").unwrap();
    let _ = (sa, sc);

    sim.network().separate(&group);
    // a send within the group can be delivered; one across cannot
    let mut inert = InertPoller {};
    sb.send_to_str(&mut sim, b"in", "10.0.0.1:80").unwrap();
    sb.send_to_str(&mut sim, b"out", "10.0.0.3:80").unwrap();
    sim.make_steps(&mut inert);
    assert!(sc.recv_from(&mut sim, 10).is_none());

    // repairing the group restores links within it and leaves the
    // cross-group cut as it was
    sim.network().repair(&group);
    sb.send_to_str(&mut sim, b"out", "10.0.0.3:80").unwrap();
    sim.make_steps(&mut inert);
    assert!(sc.recv_from(&mut sim, 10).is_none());

    sim.repair_all();
    let mut got = false;
    for _ in 0..50 {
        sb.send_to_str(&mut sim, b"now", "10.0.0.3:80").unwrap();
        sim.make_steps(&mut inert);
        if sc.recv_from(&mut sim, 10).is_some() {
            got = true;
            break;
        }
    }
    assert!(got);
}

#[test]
fn drop_rate() {
    let mut sim = Sim::new(123);
    let node1 = NodeBuilder::with_ip("10.12.1.1")
        .unwrap()
        .udp_recv_buffer_size(1000000)
        .build(&mut sim)
        .unwrap();
    let node2 = NodeBuilder::with_ip("10.12.1.2").unwrap().build(&mut sim).unwrap();
    let _ = node1;
    let receiver = UdpSocket::bind_str(&mut sim, node1, "0.0.0.0:80").unwrap();
    let sender = UdpSocket::bind_str(&mut sim, node2, "0.0.0.0:80").unwrap();

    let total = 2000usize;
    let mut inert = InertPoller {};
    for _ in 0..total {
        let sent = sender.send_to_str(&mut sim, b"hello", "10.12.1.1:80").unwrap();
        assert_eq!(sent, 5);
    }
    sim.make_steps(&mut inert);
    let mut received = 0usize;
    while receiver.recv_from(&mut sim, 10).is_some() {
        received += 1;
    }
    let dropped = total - received;
    // the loss rate is five percent; allow a generous statistical
    // margin for two thousand samples
    assert!(dropped >= total / 50, "dropped only {} of {}", dropped, total);
    assert!(dropped <= total / 10, "dropped {} of {}", dropped, total);
}

#[test]
fn same_seed_same_trace() {
    let run = || {
        let mut sim = Sim::new(123);
        let node1 = NodeBuilder::with_ip("10.12.1.1")
            .unwrap()
            .udp_recv_buffer_size(100000)
            .build(&mut sim)
            .unwrap();
        let node2 = NodeBuilder::with_ip("10.12.1.2").unwrap().build(&mut sim).unwrap();
        let receiver = UdpSocket::bind_str(&mut sim, node1, "0.0.0.0:80").unwrap();
        let sender = UdpSocket::bind_str(&mut sim, node2, "0.0.0.0:80").unwrap();
        let mut inert = InertPoller {};
        for i in 0..200u8 {
            sender.send_to_str(&mut sim, &[i, i, i], "10.12.1.1:80").unwrap();
        }
        sim.make_steps(&mut inert);
        let mut trace: Vec<(Vec<u8>, u16)> = Vec::new();
        while let Some((data, from)) = receiver.recv_from(&mut sim, 10) {
            trace.push((data, from.port));
        }
        (trace, node1.time(&sim), node2.time(&sim))
    };
    let first = run();
    let second = run();
    assert_eq!(first, second);
}

#[test]
fn loopback_delivery_keeps_send_order() {
    // loopback deliveries all fall due at the same instant; ties are
    // broken by insertion order, so datagrams arrive as sent
    let mut sim = Sim::new(123);
    let node = NodeBuilder::with_ip("10.12.1.1").unwrap().build(&mut sim).unwrap();
    let socket = UdpSocket::bind_str(&mut sim, node, "0.0.0.0:80").unwrap();
    socket.send_to_str(&mut sim, b"first", "10.12.1.1:80").unwrap();
    socket.send_to_str(&mut sim, b"second", "10.12.1.1:80").unwrap();
    socket.send_to_str(&mut sim, b"third", "10.12.1.1:80").unwrap();
    let mut inert = InertPoller {};
    sim.make_steps(&mut inert);
    assert_eq!(socket.recv_from(&mut sim, 10).unwrap().0, b"first".to_vec());
    assert_eq!(socket.recv_from(&mut sim, 10).unwrap().0, b"second".to_vec());
    assert_eq!(socket.recv_from(&mut sim, 10).unwrap().0, b"third".to_vec());
    assert!(socket.recv_from(&mut sim, 10).is_none());
}
