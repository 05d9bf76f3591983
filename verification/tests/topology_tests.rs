use netsim::addr::to_ip_addr;
use netsim::addr::IpAddr;
use netsim::topology::NetworkTopology;

fn ip(s: &str) -> IpAddr {
    to_ip_addr(s).unwrap()
}

#[test]
fn works() {
    let mut topology = NetworkTopology::new();

    let first = ip("192.168.1.2");
    let second = ip("192.168.1.3");
    let third = ip("10.133.14.2");

    topology.register_node(first);
    assert!(topology.node_registered(first));
    assert_eq!(topology.hops(first, first), Some(0));

    topology.register_node(second);
    assert!(topology.node_registered(second));
    assert!(topology.node_registered(first));

    assert_eq!(topology.hops(first, second), Some(1));
    assert!(topology.hops(first, third).is_none());
    assert!(topology.hops(second, third).is_none());

    topology.register_node(third);
    assert_eq!(topology.hops(first, third), Some(1));
    assert_eq!(topology.hops(second, third), Some(1));
    assert_eq!(topology.hops(third, first), Some(1));
    assert_eq!(topology.hops(third, second), Some(1));

    topology.separate(&vec![first, second]);
    assert_eq!(topology.hops(first, second), Some(1));
    assert_eq!(topology.hops(second, first), Some(1));
    assert_eq!(topology.hops(first, first), Some(0));
    assert_eq!(topology.hops(second, second), Some(0));
    assert_eq!(topology.hops(first, third), None);
    assert_eq!(topology.hops(second, third), None);
    assert_eq!(topology.hops(third, first), None);
    assert_eq!(topology.hops(third, second), None);

    topology.separate(&vec![first]);
    assert_eq!(topology.hops(first, first), Some(0));
    assert_eq!(topology.hops(first, second), None);
    assert_eq!(topology.hops(first, third), None);
    assert_eq!(topology.hops(second, third), None);
    assert_eq!(topology.hops(second, first), None);
    assert_eq!(topology.hops(third, first), None);
    assert_eq!(topology.hops(third, second), None);

    topology.repair(&vec![first, third]);
    assert_eq!(topology.hops(first, first), Some(0));
    assert_eq!(topology.hops(first, third), Some(1));
    assert_eq!(topology.hops(third, first), Some(1));
    assert_eq!(topology.hops(third, third), Some(0));
    assert_eq!(topology.hops(second, second), Some(0));
    assert_eq!(topology.hops(first, second), None);
    assert_eq!(topology.hops(second, first), None);
    assert_eq!(topology.hops(second, third), None);
    assert_eq!(topology.hops(third, second), None);

    topology.repair_all();
    for a in &[first, second, third] {
        for b in &[first, second, third] {
            let hops = if a == b { 0 } else { 1 };
            assert_eq!(topology.hops(*a, *b), Some(hops));
        }
    }
}
