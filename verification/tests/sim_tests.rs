use std::cell::Cell;
use std::cell::RefCell;
use std::collections::HashMap;
use std::rc::Rc;

use netsim::addr::to_socket_addr;
use netsim::runtime::TaskId;
use netsim::sim::NodeBuilder;
use netsim::sim::NodeHandle;
use netsim::sim::Sim;
use netsim::sim::TaskPoller;
use netsim::sim::UdpSocket;
use netsim::Timestamp;

struct Tasks {
    bodies: HashMap<(usize, TaskId), Box<dyn FnMut(&mut Sim, NodeHandle, TaskId) -> bool>>,
}

impl Tasks {
    fn new() -> Tasks {
        Tasks { bodies: HashMap::new() }
    }

    fn add(
        &mut self,
        node: NodeHandle,
        task: TaskId,
        body: Box<dyn FnMut(&mut Sim, NodeHandle, TaskId) -> bool>,
    ) {
        self.bodies.insert((node.node, task), body);
    }
}

impl TaskPoller for Tasks {
    fn poll_task(&mut self, sim: &mut Sim, node: NodeHandle, task: TaskId) -> bool {
        match self.bodies.get_mut(&(node.node, task)) {
            Some(f) => f(sim, node, task),
            None => true,
        }
    }
}

#[test]
fn communication() {
    let mut sim = Sim::new(123);
    let socket1 = "10.12.1.1:123";
    let socket2 = "10.12.1.2:345";
    let node1 = NodeBuilder::with_ip("10.12.1.1").unwrap().build(&mut sim).unwrap();
    let node2 = NodeBuilder::with_ip("10.12.1.2").unwrap().build(&mut sim).unwrap();
    let mut tasks = Tasks::new();
    let flag = Rc::new(Cell::new(false));

    let t1 = node1.spawn(&mut sim);
    {
        let flag = flag.clone();
        let sock: Rc<RefCell<Option<UdpSocket>>> = Rc::new(RefCell::new(None));
        tasks.add(node1, t1, Box::new(move |sim, _node, task| {
            if sock.borrow().is_none() {
                *sock.borrow_mut() = Some(UdpSocket::bind_str(sim, _node, socket1).unwrap());
            }
            let s = sock.borrow().unwrap();
            match s.recv_from(sim, 10) {
                Some((data, sender)) => {
                    assert_eq!(data.len(), 5);
                    assert_eq!(sender, to_socket_addr(socket2).unwrap());
                    assert_eq!(&data, b"hello");
                    flag.set(true);
                    true
                },
                None => {
                    s.register_recv_waiter(sim, task);
                    false
                },
            }
        }));
    }
    let t2 = node2.spawn(&mut sim);
    tasks.add(node2, t2, Box::new(move |sim, node, _task| {
        let socket = UdpSocket::bind_str(sim, node, socket2).unwrap();
        let bytes = socket.send_to_str(sim, b"hello", socket1).unwrap();
        assert_eq!(bytes, 5);
        true
    }));
    node1.make_steps(&mut sim, None, &mut tasks);
    node2.make_steps(&mut sim, None, &mut tasks);
    node1.make_steps(&mut sim, None, &mut tasks);
    assert_eq!(flag.get(), true);
}

fn looped_case(bind: &'static str, send_to: &'static str) {
    let mut sim = Sim::new(123);
    let node = NodeBuilder::with_ip("10.12.1.1").unwrap().build(&mut sim).unwrap();
    let mut tasks = Tasks::new();
    let flag = Rc::new(Cell::new(false));
    let t = node.spawn(&mut sim);
    {
        let flag = flag.clone();
        let sock: Rc<RefCell<Option<UdpSocket>>> = Rc::new(RefCell::new(None));
        tasks.add(node, t, Box::new(move |sim, node, task| {
            if sock.borrow().is_none() {
                let s = UdpSocket::bind_str(sim, node, bind).unwrap();
                s.send_to_str(sim, b"hello", send_to).unwrap();
                *sock.borrow_mut() = Some(s);
            }
            let s = sock.borrow().unwrap();
            match s.recv_from(sim, 5) {
                Some((data, from)) => {
                    assert_eq!(data.len(), 5);
                    assert_eq!(&data, b"hello");
                    assert_eq!(from, to_socket_addr("10.12.1.1:80").unwrap());
                    flag.set(true);
                    true
                },
                None => {
                    s.register_recv_waiter(sim, task);
                    false
                },
            }
        }));
    }
    sim.make_steps(&mut tasks);
    assert_eq!(flag.get(), true);
    assert_eq!(node.time(&sim), Timestamp::from_secs(0));
}

#[test]
fn looped_own_to_own() {
    looped_case("10.12.1.1:80", "10.12.1.1:80");
}

#[test]
fn looped_loopback_to_own() {
    looped_case("127.0.0.1:80", "10.12.1.1:80");
}

#[test]
fn looped_loopback_to_loopback() {
    looped_case("127.0.0.1:80", "127.0.0.1:80");
}

#[test]
fn looped_own_to_loopback() {
    looped_case("10.12.1.1:80", "127.0.0.1:80");
}

#[test]
fn bind_on_same_addr() {
    let mut sim = Sim::new(123);
    let node = NodeBuilder::with_ip("10.12.1.1").unwrap().build(&mut sim).unwrap();
    let _socket1 = UdpSocket::bind_str(&mut sim, node, "10.12.1.1:80").unwrap();
    let try_bind2 = UdpSocket::bind_str(&mut sim, node, "10.12.1.1:80");
    assert!(try_bind2.is_err());
}

#[test]
fn bind_on_other_ip() {
    let mut sim = Sim::new(123);
    let node = NodeBuilder::with_ip("10.12.1.2").unwrap().build(&mut sim).unwrap();
    let try_bind = UdpSocket::bind_str(&mut sim, node, "10.12.1.1");
    assert!(try_bind.is_err());
    // with an explicit port the address is still not this node's
    let try_bind = UdpSocket::bind_str(&mut sim, node, "10.12.1.1:80");
    assert!(try_bind.is_err());
}

#[test]
fn bind_on_zero() {
    let mut sim = Sim::new(123);
    let node = NodeBuilder::with_ip("10.12.1.1").unwrap().build(&mut sim).unwrap();
    let socket = UdpSocket::bind_str(&mut sim, node, "0.0.0.0:0").unwrap();
    assert!(socket.local_addr().port != 0);
    assert_eq!(socket.local_addr().ip, node.ip(&sim));

    let socket = UdpSocket::bind_str(&mut sim, node, "0.0.0.0:123").unwrap();
    assert_eq!(socket.local_addr().port, 123);
    assert_eq!(socket.local_addr().ip, node.ip(&sim));
}

#[test]
fn multicast() {
    let mut sim = Sim::new(123);
    let node = NodeBuilder::with_ip("10.12.1.1").unwrap().build(&mut sim).unwrap();
    let multicast = UdpSocket::bind_str(&mut sim, node, "224.255.0.1");
    assert!(multicast.is_err());
    let multicast = UdpSocket::bind_str(&mut sim, node, "224.255.0.1:80");
    assert!(multicast.is_err());
}

#[test]
fn bad_send_to() {
    let mut sim = Sim::new(123);
    let node = NodeBuilder::with_ip("10.12.1.1").unwrap().build(&mut sim).unwrap();
    let socket = UdpSocket::bind_str(&mut sim, node, "0.0.0.0:0").unwrap();
    assert!(socket.send_to_str(&mut sim, b"some message", "224.13.3.1:80").is_err());
    assert!(socket.send_to_str(&mut sim, b"some message", "0.0.0.0:80").is_err());
}

#[test]
fn auto_port_selection() {
    let mut sim = Sim::new(123);
    let node = NodeBuilder::with_ip("10.12.1.1").unwrap().build(&mut sim).unwrap();
    let socket = UdpSocket::bind_str(&mut sim, node, "10.12.1.1:0").unwrap();
    assert!(socket.local_addr().port != 0);
    socket.close(&mut sim);

    let mut ports: Vec<u16> = Vec::new();
    let mut sockets: Vec<UdpSocket> = Vec::new();
    for _ in 1..=(u16::MAX as usize) + 100 {
        let socket = UdpSocket::bind_str(&mut sim, node, "10.12.1.1:0");
        if let Ok(socket) = socket {
            ports.push(socket.local_addr().port);
            sockets.push(socket);
        }
    }
    ports.sort();
    assert_eq!(ports.len(), u16::MAX as usize);
    for i in 0..ports.len() {
        assert_eq!(ports[i], (i + 1) as u16);
    }
}

#[test]
fn bad_ip() {
    assert!(NodeBuilder::with_ip("aba").is_err());
    assert!(NodeBuilder::with_ip("127.0.0.1").is_err());
    assert!(NodeBuilder::with_ip("224.255.0.1").is_err());
    assert!(NodeBuilder::with_ip("0.0.0.0").is_err());
}

#[test]
fn nodes_with_equal_ips() {
    let mut sim = Sim::new(123);
    let ip = "10.12.1.1";
    NodeBuilder::with_ip(ip).unwrap().build(&mut sim).unwrap();
    assert!(NodeBuilder::with_ip(ip).unwrap().build(&mut sim).is_none());
}

#[test]
fn spawn_basic() {
    let mut sim = Sim::new(123);
    let node = NodeBuilder::with_ip("1.1.1.1").unwrap().build(&mut sim).unwrap();
    let mut tasks = Tasks::new();
    let produced: Rc<Cell<Option<u32>>> = Rc::new(Cell::new(None));
    let result: Rc<Cell<Option<u32>>> = Rc::new(Cell::new(None));

    let t0 = node.spawn(&mut sim);
    {
        let produced = produced.clone();
        let result = result.clone();
        let spawned: Rc<Cell<Option<TaskId>>> = Rc::new(Cell::new(None));
        tasks.add(node, t0, Box::new(move |sim, node, _task| {
            if spawned.get().is_none() {
                let sub = node.spawn(sim);
                spawned.set(Some(sub));
            }
            match produced.get() {
                Some(x) => {
                    result.set(Some(x));
                    true
                },
                None => false,
            }
        }));
    }
    // the subtask gets the next id of this node's scheduler
    {
        let produced = produced.clone();
        tasks.add(node, t0 + 1, Box::new(move |sim, node, _task| {
            produced.set(Some(10));
            // wake the parent, as completing a join does
            node.wake(sim, 0);
            true
        }));
    }
    node.make_steps(&mut sim, None, &mut tasks);
    assert_eq!(result.get(), Some(10));
}

#[test]
fn node_alternation() {
    let mut sim = Sim::new(123);
    let node1 = NodeBuilder::with_ip("1.1.1.1").unwrap().build(&mut sim).unwrap();
    let node2 = NodeBuilder::with_ip("1.1.1.2").unwrap().build(&mut sim).unwrap();
    let mut tasks = Tasks::new();
    let cnt = Rc::new(Cell::new(0usize));

    for node in [node1, node2] {
        let t = node.spawn(&mut sim);
        // the parent task spawns one subtask and finishes; the
        // subtask body is registered under the next id up front
        tasks.add(node, t, Box::new(move |sim, node, _task| {
            let _sub = node.spawn(sim);
            true
        }));
        let cnt2 = cnt.clone();
        tasks.add(node, t + 1, Box::new(move |_sim, _node, _task| {
            cnt2.set(cnt2.get() + 1);
            true
        }));
    }

    node1.make_steps(&mut sim, None, &mut tasks);
    assert_eq!(cnt.get(), 1);

    node2.make_steps(&mut sim, None, &mut tasks);
    assert_eq!(cnt.get(), 2);
}

#[test]
fn closed_socket_frees_port_and_address() {
    let mut sim = Sim::new(123);
    let node = NodeBuilder::with_ip("10.12.1.1").unwrap().build(&mut sim).unwrap();

    let first = UdpSocket::bind_str(&mut sim, node, "10.12.1.1:80").unwrap();
    assert!(UdpSocket::bind_str(&mut sim, node, "10.12.1.1:80").is_err());
    first.close(&mut sim);
    // the port is free again, and the address can be bound anew
    let second = UdpSocket::bind_str(&mut sim, node, "10.12.1.1:80").unwrap();
    assert_eq!(second.local_addr().port, 80);
}

#[test]
fn port_account_balances() {
    // every port is free or bound, never both: take the two smallest
    // ports automatically, give one back, and the pool hands it out
    // again before the next one
    let mut sim = Sim::new(123);
    let node = NodeBuilder::with_ip("10.12.1.1").unwrap().build(&mut sim).unwrap();
    let a = UdpSocket::bind_str(&mut sim, node, "0.0.0.0:0").unwrap();
    let b = UdpSocket::bind_str(&mut sim, node, "0.0.0.0:0").unwrap();
    assert_eq!(a.local_addr().port, 1);
    assert_eq!(b.local_addr().port, 2);
    a.close(&mut sim);
    let c = UdpSocket::bind_str(&mut sim, node, "0.0.0.0:0").unwrap();
    assert_eq!(c.local_addr().port, 1);
    let d = UdpSocket::bind_str(&mut sim, node, "0.0.0.0:0").unwrap();
    assert_eq!(d.local_addr().port, 3);
}

#[test]
fn send_truncates_to_send_buffer() {
    let mut sim = Sim::new(123);
    let node = NodeBuilder::with_ip("10.12.1.1")
        .unwrap()
        .udp_send_buffer_size(4)
        .build(&mut sim)
        .unwrap();
    let socket = UdpSocket::bind_str(&mut sim, node, "0.0.0.0:80").unwrap();
    let sent = socket.send_to_str(&mut sim, b"hello world", "10.12.1.1:80").unwrap();
    assert_eq!(sent, 4);
    let mut inert = netsim::sim::InertPoller {};
    sim.make_steps(&mut inert);
    let (data, _) = socket.recv_from(&mut sim, 10).unwrap();
    assert_eq!(&data, b"hell");
}

#[test]
fn recv_truncates_to_caller_buffer() {
    let mut sim = Sim::new(123);
    let node = NodeBuilder::with_ip("10.12.1.1").unwrap().build(&mut sim).unwrap();
    let socket = UdpSocket::bind_str(&mut sim, node, "0.0.0.0:80").unwrap();
    socket.send_to_str(&mut sim, b"hello", "10.12.1.1:80").unwrap();
    let mut inert = netsim::sim::InertPoller {};
    sim.make_steps(&mut inert);
    // UDP semantics: what does not fit the caller's buffer is gone
    let (data, _) = socket.recv_from(&mut sim, 2).unwrap();
    assert_eq!(&data, b"he");
    assert!(socket.recv_from(&mut sim, 10).is_none());
}

#[test]
fn bind_first_workable_candidate() {
    let mut sim = Sim::new(123);
    let node = NodeBuilder::with_ip("10.12.1.1").unwrap().build(&mut sim).unwrap();
    // the first candidate is another host's address; the second works
    let candidates = vec![
        to_socket_addr("10.9.9.9:80").unwrap(),
        to_socket_addr("10.12.1.1:81").unwrap(),
    ];
    let sock = UdpSocket::bind_addrs(&mut sim, node, &candidates).unwrap();
    assert_eq!(sock.local_addr(), to_socket_addr("10.12.1.1:81").unwrap());
    // an exhausted list fails with the bind error
    let none: Vec<netsim::addr::SockAddr> = Vec::new();
    assert_eq!(
        UdpSocket::bind_addrs(&mut sim, node, &none).unwrap_err(),
        netsim::SimError::AddrInUse,
    );
}

#[test]
fn send_to_no_addresses() {
    let mut sim = Sim::new(123);
    let node = NodeBuilder::with_ip("10.12.1.1").unwrap().build(&mut sim).unwrap();
    let sock = UdpSocket::bind_str(&mut sim, node, "0.0.0.0:80").unwrap();
    let none: Vec<netsim::addr::SockAddr> = Vec::new();
    assert_eq!(
        sock.send_to_addrs(&mut sim, b"hello", &none).unwrap_err(),
        netsim::SimError::AddrNotAvailable,
    );
    let one = vec![to_socket_addr("10.12.1.1:80").unwrap()];
    assert_eq!(sock.send_to_addrs(&mut sim, b"hello", &one).unwrap(), 5);
}
