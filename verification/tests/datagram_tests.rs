use netsim::addr::to_socket_addr;
use netsim::datagram::Buffer;
use netsim::datagram::Datagram;

fn dgram(size: usize) -> Datagram {
    let addr = to_socket_addr("1.1.1.1:8080").unwrap();
    Datagram { from: addr, to: addr, data: vec![0u8; size] }
}

#[test]
fn datagram_basic() {
    let mut buffer = Buffer::with_capacity(10);

    assert!(buffer.add_datagram(dgram(1)));
    assert!(!buffer.add_datagram(dgram(10)));

    assert_eq!(buffer.take_datagram(), Some(dgram(1)));
    assert_eq!(buffer.take_datagram(), None);

    assert!(buffer.add_datagram(dgram(9)));
    assert!(!buffer.add_datagram(dgram(2)));
    assert!(buffer.add_datagram(dgram(1)));

    assert_eq!(buffer.take_datagram(), Some(dgram(9)));
    assert_eq!(buffer.take_datagram(), Some(dgram(1)));
    assert_eq!(buffer.take_datagram(), None);
}
