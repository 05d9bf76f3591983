//! Nodes and the simulation driver.
//!
//! A node is a simulated host: a unique address, a cooperative task
//! scheduler, a logical clock with its timers, and a pool of free
//! ports.  The simulation owns the nodes and the shared network, and
//! drives them — visiting nodes in ascending address order — until no
//! node can advance.  Binding, sending and receiving UDP datagrams go
//! through socket handles tied to a node.
//!
//! Ports obey a strict account: on every node, the free ports and the
//! ports of its live sockets always partition `1..=65535`.

use vstd::prelude::*;

use crate::addr::spec_ip_key;
use crate::addr::spec_parse_ipv4;
use crate::addr::spec_parse_sockaddr;
use vstd::string::StringSliceAdditionalSpecFns;
use crate::addr::spec_is_loopback;
use crate::addr::spec_is_multicast;
use crate::addr::spec_is_unspecified;
use crate::addr::IpAddr;
use crate::addr::SockAddr;
use crate::net::Network;
use crate::net::UpdSocketData;
use crate::ports::FreePorts;
use crate::runtime::Runtime;
use crate::runtime::TaskId;
use crate::timers::TimeDriver;
use crate::SimError;
use crate::Timestamp;

verus! {

/// The default byte size of a socket's send buffer.
pub const DEFAULT_UDP_SEND_BUF_SIZE: usize = 4096;

/// The default byte size of a socket's receive buffer.
pub const DEFAULT_UDP_RECV_BUF_SIZE: usize = 4096;

/// The immutable description of a node: its address and its socket
/// buffer sizes.
#[derive(Clone, Copy, PartialEq, Eq, Structural, Debug)]
pub struct NodeInfo {
    pub ip: IpAddr,
    pub udp_send_buffer_size: usize,
    pub udp_recv_buffer_size: usize,
}

/// A simulated host: scheduler, clock, free ports and description.
#[verifier::ext_equal]
pub struct Node {
    runtime: Runtime,
    time_driver: TimeDriver,
    info: NodeInfo,
    free_ports: FreePorts,
}

impl Node {
    /// The node's scheduler.
    pub closed spec fn spec_runtime(self) -> Runtime {
        self.runtime
    }

    /// The node's clock and timers.
    pub closed spec fn spec_driver(self) -> TimeDriver {
        self.time_driver
    }

    /// The node's description.
    pub closed spec fn spec_info(self) -> NodeInfo {
        self.info
    }

    /// The node's free ports.
    pub closed spec fn spec_ports(self) -> FreePorts {
        self.free_ports
    }

    /// A fresh node: empty scheduler, clock at zero, every port free.
    pub fn new(info: NodeInfo) -> (r: Node)
        ensures
            r.spec_runtime().wf(),
            r.spec_runtime().spec_queue() =~= Seq::<TaskId>::empty(),
            r.spec_runtime().spec_live_seq() =~= Seq::<TaskId>::empty(),
            r.spec_driver().wf(),
            r.spec_driver().spec_time().nanos == 0,
            r.spec_driver().spec_pending() =~= Seq::<usize>::empty(),
            r.spec_ports().wf(),
            r.spec_ports().spec_len() == 65535,
            forall|p: u16| r.spec_ports().spec_contains(p) <==> p >= 1,
            r.spec_info() == info,
    {
        Node {
            runtime: Runtime::new(),
            time_driver: TimeDriver::new(),
            info,
            free_ports: FreePorts::new_full(),
        }
    }
}

/// A handle to a node inside a simulation: its slot in the node
/// arena.
#[derive(Clone, Copy, PartialEq, Eq, Structural, Debug)]
pub struct NodeHandle {
    pub node: usize,
}

/// A handle to a bound UDP socket: the socket's slot in the network
/// arena, its owning node's slot, and its bound address.
#[derive(Clone, Copy, PartialEq, Eq, Structural, Debug)]
pub struct UdpSocket {
    pub slot: usize,
    pub node: usize,
    pub addr: SockAddr,
}

/// How many live sockets the node in slot `owner` has.
pub open spec fn spec_live_socket_count(sockets: Seq<UpdSocketData>, owner: int) -> int
    decreases sockets.len(),
{
    if sockets.len() == 0 {
        0
    } else {
        spec_live_socket_count(sockets.drop_last(), owner) + if sockets.last().alive
            && sockets.last().owner == owner {
            1int
        } else {
            0int
        }
    }
}

/// Appending a socket adds its own contribution to the count.
proof fn lemma_count_push(sockets: Seq<UpdSocketData>, v: UpdSocketData, owner: int)
    ensures
        spec_live_socket_count(sockets.push(v), owner) == spec_live_socket_count(sockets, owner)
            + if v.alive && v.owner == owner {
            1int
        } else {
            0int
        },
{
    assert(sockets.push(v).drop_last() =~= sockets);
}

/// Replacing one socket changes the count by the difference of the
/// two contributions.
proof fn lemma_count_update(sockets: Seq<UpdSocketData>, i: int, v: UpdSocketData, owner: int)
    requires
        0 <= i < sockets.len(),
    ensures
        spec_live_socket_count(sockets.update(i, v), owner) == spec_live_socket_count(
            sockets,
            owner,
        ) - (if sockets[i].alive && sockets[i].owner == owner {
            1int
        } else {
            0int
        }) + (if v.alive && v.owner == owner {
            1int
        } else {
            0int
        }),
    decreases sockets.len(),
{
    if i == sockets.len() - 1 {
        assert(sockets.update(i, v).drop_last() =~= sockets.drop_last());
        assert(sockets.update(i, v).last() == v);
    } else {
        lemma_count_update(sockets.drop_last(), i, v, owner);
        assert(sockets.update(i, v).drop_last() =~= sockets.drop_last().update(i, v));
        assert(sockets.update(i, v).last() == sockets.last());
        assert(sockets.drop_last()[i] == sockets[i]);
    }
}

/// Two socket arenas with pointwise equal liveness and owners have
/// equal counts.
proof fn lemma_count_pointwise(s1: Seq<UpdSocketData>, s2: Seq<UpdSocketData>, owner: int)
    requires
        s1.len() == s2.len(),
        forall|t: int|
            0 <= t < s1.len() ==> (#[trigger] s1[t]).alive == s2[t].alive && s1[t].owner
                == s2[t].owner,
    ensures
        spec_live_socket_count(s1, owner) == spec_live_socket_count(s2, owner),
    decreases s1.len(),
{
    if s1.len() > 0 {
        lemma_count_pointwise(s1.drop_last(), s2.drop_last(), owner);
        assert(s1[s1.len() - 1].alive == s2[s2.len() - 1].alive);
    }
}

/// The simulation: the node arena, the visiting order (node slots
/// sorted by ascending address), and the shared network.
pub struct Sim {
    nodes: Vec<Node>,
    order: Vec<usize>,
    network: Network,
}

impl Sim {
    /// The nodes, by slot.
    pub closed spec fn spec_nodes(self) -> Seq<Node> {
        self.nodes@
    }

    /// The node slots in ascending address order.
    pub closed spec fn spec_order(self) -> Seq<usize> {
        self.order@
    }

    /// The shared network.
    pub closed spec fn spec_network(self) -> Network {
        self.network
    }

    /// Whether `h` names a node of this simulation.
    pub open spec fn spec_node_valid(self, h: NodeHandle) -> bool {
        h.node < self.spec_nodes().len()
    }

    /// Whether `sock` names a live, registered socket of this
    /// simulation.
    pub open spec fn spec_socket_valid(self, sock: UdpSocket) -> bool {
        &&& sock.slot < self.spec_network().spec_sockets().len()
        &&& self.spec_network().spec_sockets()[sock.slot as int].alive
        &&& self.spec_network().spec_sockets()[sock.slot as int].owner == sock.node
        &&& self.spec_network().spec_sockets()[sock.slot as int].local_addr == sock.addr
        &&& self.spec_network().spec_udp_entry(sock.addr, sock.slot)
        &&& sock.node < self.spec_nodes().len()
    }

    /// The well-formedness of the whole simulation: each component is
    /// well-formed; node addresses are distinct and registered with
    /// the topology; the visiting order enumerates the nodes by
    /// ascending address; pending timers never lie in a node's past;
    /// and ports are accounted for — on every node the free ports and
    /// the ports of its live sockets partition `1..=65535`.
    pub closed spec fn wf(self) -> bool {
        &&& self.network.wf()
        &&& forall|n: int|
            0 <= n < self.nodes@.len() ==> (#[trigger] self.nodes@[n]).runtime.wf()
        &&& forall|n: int|
            0 <= n < self.nodes@.len() ==> (#[trigger] self.nodes@[n]).time_driver.wf()
        &&& forall|n: int|
            0 <= n < self.nodes@.len() ==> (#[trigger] self.nodes@[n]).free_ports.wf()
        &&& forall|i: int, j: int|
            0 <= i < j < self.nodes@.len() ==> (#[trigger] self.nodes@[i]).info.ip != (
            #[trigger] self.nodes@[j]).info.ip
        &&& forall|n: int|
            0 <= n < self.nodes@.len() ==> !spec_is_loopback((#[trigger] self.nodes@[n]).info.ip)
                && !spec_is_multicast(self.nodes@[n].info.ip) && !spec_is_unspecified(
                self.nodes@[n].info.ip,
            )
        &&& forall|n: int|
            0 <= n < self.nodes@.len() ==> self.network.spec_topology().spec_registered(
                (#[trigger] self.nodes@[n]).info.ip,
            )
        &&& self.order@.len() == self.nodes@.len()
        &&& forall|k: int| 0 <= k < self.order@.len() ==> #[trigger] self.order@[k] < self.nodes@.len()
        &&& forall|k1: int, k2: int|
            0 <= k1 < k2 < self.order@.len() ==> spec_ip_key(
                self.nodes@[#[trigger] self.order@[k1] as int].info.ip,
            ) < spec_ip_key(self.nodes@[#[trigger] self.order@[k2] as int].info.ip)
        &&& forall|n: int, k: int|
            #![trigger self.nodes@[n].time_driver.spec_pending()[k]]
            0 <= n < self.nodes@.len() && 0 <= k < self.nodes@[n].time_driver.spec_pending().len()
                ==> self.nodes@[n].time_driver.spec_slots()[
                self.nodes@[n].time_driver.spec_pending()[k] as int
            ].timestamp.nanos >= self.nodes@[n].time_driver.spec_time().nanos
        &&& forall|n: int|
            0 <= n < self.nodes@.len() ==> (#[trigger] self.nodes@[n]).free_ports.spec_len()
                + spec_live_socket_count(self.network.spec_sockets(), n) == 65535
        &&& forall|s: int|
            0 <= s < self.network.spec_sockets().len() && (
            #[trigger] self.network.spec_sockets()[s]).alive ==> {
                &&& self.network.spec_sockets()[s].owner < self.nodes@.len()
                &&& self.network.spec_sockets()[s].local_addr.ip == self.nodes@[
                    self.network.spec_sockets()[s].owner as int
                ].info.ip
                &&& self.network.spec_sockets()[s].local_addr.port >= 1
                &&& !self.nodes@[self.network.spec_sockets()[s].owner as int].free_ports
                    .spec_contains(self.network.spec_sockets()[s].local_addr.port)
            }
        &&& forall|i: int|
            0 <= i < self.network.spec_registry().len() ==> (
            #[trigger] self.network.spec_registry()[i]).1 is Udp
        &&& forall|s1: int, s2: int|
            0 <= s1 < s2 < self.network.spec_sockets().len() && (
            #[trigger] self.network.spec_sockets()[s1]).alive && (
            #[trigger] self.network.spec_sockets()[s2]).alive
                && self.network.spec_sockets()[s1].owner == self.network.spec_sockets()[s2].owner
                ==> self.network.spec_sockets()[s1].local_addr.port
                != self.network.spec_sockets()[s2].local_addr.port
    }

    /// A fresh simulation: no nodes, a fresh network seeded with
    /// `seed`.
    pub fn new(seed: u64) -> (r: Sim)
        ensures
            r.wf(),
            r.spec_nodes().len() == 0,
            r.spec_network().spec_events().len() == 0,
            r.spec_network().spec_sockets().len() == 0,
            forall|x: IpAddr| !r.spec_network().spec_topology().spec_registered(x),
    {
        Sim { nodes: Vec::new(), order: Vec::new(), network: Network::new(seed) }
    }

    /// How many nodes the simulation holds.
    pub fn node_count(&self) -> (r: usize)
        ensures
            r == self.spec_nodes().len(),
    {
        self.nodes.len()
    }

    /// How many socket slots the network arena holds.
    pub fn socket_count(&self) -> (r: usize)
        ensures
            r == self.spec_network().spec_sockets().len(),
    {
        self.network.socket_count()
    }

    /// Whether the socket in slot `s` is still bound to its handle.
    pub fn socket_alive(&self, s: usize) -> (r: bool)
        requires
            s < self.spec_network().spec_sockets().len(),
        ensures
            r == self.spec_network().spec_sockets()[s as int].alive,
    {
        self.network.socket_alive(s)
    }

    /// The handle of the node at `ip`, if one was added.
    pub fn node(&self, ip: IpAddr) -> (r: Option<NodeHandle>)
        ensures
            r is Some ==> self.spec_node_valid(r->0) && self.spec_nodes()[
                r->0.node as int
            ].spec_info().ip == ip,
            r is None ==> forall|n: int|
                0 <= n < self.spec_nodes().len() ==> (#[trigger] self.spec_nodes()[n]).spec_info().ip
                    != ip,
    {
        let count = self.nodes.len();
        for n in 0..count
            invariant
                count == self.nodes@.len(),
                forall|j: int| 0 <= j < n ==> (#[trigger] self.nodes@[j]).info.ip != ip,
        {
            if self.nodes[n].info.ip == ip {
                return Some(NodeHandle { node: n });
            }
        }
        None
    }

    /// Add a node.  Its address must be new: a duplicate is refused
    /// with `None`.  On success the address joins the topology, linked
    /// with every node so far.
    pub fn add_node(&mut self, node: Node) -> (r: Option<NodeHandle>)
        requires
            old(self).wf(),
            !spec_is_loopback(node.spec_info().ip),
            !spec_is_multicast(node.spec_info().ip),
            !spec_is_unspecified(node.spec_info().ip),
            node.spec_runtime().wf(),
            node.spec_driver().wf(),
            node.spec_driver().spec_pending() =~= Seq::<usize>::empty(),
            node.spec_ports().wf(),
            node.spec_ports().spec_len() == 65535,
        ensures
            final(self).wf(),
            (r is None) <==> (exists|n: int|
                0 <= n < old(self).spec_nodes().len() && (#[trigger] old(self).spec_nodes()[n])
                    .spec_info().ip == node.spec_info().ip),
            r is None ==> *final(self) == *old(self),
            r is Some ==> {
                &&& r->0.node == old(self).spec_nodes().len()
                &&& final(self).spec_nodes() == old(self).spec_nodes().push(node)
                &&& final(self).spec_network().spec_events() == old(self).spec_network().spec_events()
                &&& final(self).spec_network().spec_sockets() == old(self).spec_network().spec_sockets()
                &&& final(self).spec_network().spec_registry() == old(self).spec_network().spec_registry()
                &&& forall|x: IpAddr|
                    final(self).spec_network().spec_topology().spec_registered(x) <==> old(self).spec_network().spec_topology().spec_registered(x) || x == node.spec_info().ip
                &&& forall|a: IpAddr, b: IpAddr|
                    final(self).spec_network().spec_topology().spec_link(a, b) <==> old(self).spec_network().spec_topology().spec_link(a, b) || (a == node.spec_info().ip
                        && final(self).spec_network().spec_topology().spec_registered(b)) || (b
                        == node.spec_info().ip && final(self).spec_network().spec_topology().spec_registered(a))
            },
    {
        let ip = node.info.ip;
        let count = self.nodes.len();
        for n in 0..count
            invariant
                count == self.nodes@.len(),
                *self == *old(self),
                old(self).wf(),
                ip == node.spec_info().ip,
                forall|j: int| 0 <= j < n ==> (#[trigger] self.nodes@[j]).info.ip != ip,
        {
            if self.nodes[n].info.ip == ip {
                proof {
                    assert((self.nodes@[n as int]).info.ip == ip);
                }
                return None;
            }
        }
        let idx = self.nodes.len();
        let ghost pre = *self;
        // insert the new slot into the visiting order, keeping it
        // sorted by ascending address
        let mut pos: usize = 0;
        let olen = self.order.len();
        while pos < olen
            invariant
                *self == pre,
                pre.wf(),
                olen == self.order@.len(),
                pos <= olen,
                forall|k: int|
                    0 <= k < pos ==> spec_ip_key(
                        self.nodes@[#[trigger] self.order@[k] as int].info.ip,
                    ) < spec_ip_key(ip),
                forall|j: int| 0 <= j < self.nodes@.len() ==> (#[trigger] self.nodes@[j]).info.ip != ip,
            ensures
                *self == pre,
                pos <= olen,
                forall|k: int|
                    0 <= k < pos ==> spec_ip_key(
                        self.nodes@[#[trigger] self.order@[k] as int].info.ip,
                    ) < spec_ip_key(ip),
                pos < olen ==> spec_ip_key(ip) < spec_ip_key(
                    self.nodes@[self.order@[pos as int] as int].info.ip,
                ),
            decreases olen - pos,
        {
            let o = self.order[pos];
            if !self.nodes[o].info.ip.lt(&ip) {
                proof {
                    assert(self.nodes@[o as int].info.ip != ip);
                    assert(spec_ip_key(self.nodes@[o as int].info.ip) != spec_ip_key(ip));
                }
                break ;
            }
            pos = pos + 1;
        }
        proof {
            assert forall|k: int|
                pos <= k < self.order@.len() implies spec_ip_key(ip) < spec_ip_key(
                self.nodes@[#[trigger] self.order@[k] as int].info.ip,
            ) by {
                if k == pos {
                } else {
                    assert(spec_ip_key(self.nodes@[self.order@[pos as int] as int].info.ip)
                        < spec_ip_key(self.nodes@[self.order@[k] as int].info.ip));
                }
            }
        }
        self.nodes.push(node);
        let ghost order_pre = self.order@;
        self.order.insert(pos, idx);
        self.network.register_node(ip);
        proof {
            order_pre.insert_ensures(pos as int, idx);
            // the port account of every node, the new one included
            assert forall|n: int|
                0 <= n < self.nodes@.len() implies (#[trigger] self.nodes@[n]).free_ports.spec_len()
                + spec_live_socket_count(self.network.spec_sockets(), n) == 65535 by {
                if n < idx {
                    assert(self.nodes@[n] == pre.nodes@[n]);
                } else {
                    lemma_count_zero(self.network.spec_sockets(), n);
                }
            }
            // the visiting order stays sorted
            assert forall|k1: int, k2: int|
                0 <= k1 < k2 < self.order@.len() implies spec_ip_key(
                self.nodes@[#[trigger] self.order@[k1] as int].info.ip,
            ) < spec_ip_key(self.nodes@[#[trigger] self.order@[k2] as int].info.ip) by {
                let a0: int = if k1 < pos {
                    k1
                } else {
                    k1 - 1
                };
                let b0: int = if k2 < pos {
                    k2
                } else {
                    k2 - 1
                };
                if k1 == pos {
                    assert(self.order@[k2] == order_pre[b0]);
                } else if k2 == pos {
                    assert(self.order@[k1] == order_pre[a0]);
                } else {
                    assert(self.order@[k1] == order_pre[a0]);
                    assert(self.order@[k2] == order_pre[b0]);
                }
            }
        }
        Some(NodeHandle { node: idx })
    }
}

/// A node that owns no live socket counts zero.
proof fn lemma_count_zero(sockets: Seq<UpdSocketData>, n: int)
    requires
        forall|s: int|
            0 <= s < sockets.len() && (#[trigger] sockets[s]).alive ==> sockets[s].owner != n,
    ensures
        spec_live_socket_count(sockets, n) == 0,
    decreases sockets.len(),
{
    if sockets.len() > 0 {
        lemma_count_zero(sockets.drop_last(), n);
        assert(sockets[sockets.len() - 1] == sockets.last());
    }
}

/// The embedding's side of a poll: the driver names a node and a task
/// id, the poller runs that task until it yields, and reports whether
/// it finished.  A task may spawn, bind, send, receive, register
/// waiters and take join decisions through the crate's public
/// operations — doing so keeps the contract below without further
/// ado.  A task must not drive the simulation (step nodes or advance
/// clocks) from inside a poll: the network is already borrowed there,
/// as re-entrancy is the one thing the shared-state design forbids.
pub trait TaskPoller {
    fn poll_task(&mut self, sim: &mut Sim, node: NodeHandle, task: TaskId) -> (done: bool)
        requires
            old(sim).wf(),
            node.node < old(sim).spec_nodes().len(),
        ensures
            final(sim).wf(),
            final(sim).spec_nodes().len() >= old(sim).spec_nodes().len(),
            forall|k: int|
                0 <= k < old(sim).spec_nodes().len()
                    ==> (#[trigger] final(sim).spec_nodes()[k]).spec_driver().spec_time() == old(sim).spec_nodes()[k].spec_driver().spec_time(),
    ;
}

/// A poller for tasks that finish on their first poll — and the
/// degenerate embedding used when nothing was spawned.
pub struct InertPoller {}

impl TaskPoller for InertPoller {
    fn poll_task(&mut self, sim: &mut Sim, node: NodeHandle, task: TaskId) -> (done: bool) {
        true
    }
}

/// Everything of the simulation except node `n`'s scheduler is as it
/// was, node `n`'s scheduler is well-formed, and its clock, ports and
/// description are untouched.
pub closed spec fn runtime_only_change(pre: Sim, post: Sim, n: int) -> bool {
    &&& 0 <= n < pre.nodes@.len()
    &&& post.network == pre.network
    &&& post.order@ == pre.order@
    &&& post.nodes@.len() == pre.nodes@.len()
    &&& forall|k: int| 0 <= k < pre.nodes@.len() && k != n ==> post.nodes@[k] == pre.nodes@[k]
    &&& post.nodes@[n].info == pre.nodes@[n].info
    &&& post.nodes@[n].free_ports == pre.nodes@[n].free_ports
    &&& post.nodes@[n].time_driver == pre.nodes@[n].time_driver
    &&& post.nodes@[n].runtime.wf()
}

/// A change confined to one node's scheduler preserves the
/// simulation's well-formedness.
proof fn lemma_wf_after_runtime_change(pre: Sim, post: Sim, n: int)
    requires
        pre.wf(),
        runtime_only_change(pre, post, n),
    ensures
        post.wf(),
{
    assert forall|k: int| 0 <= k < post.nodes@.len() implies (#[trigger] post.nodes@[k]).runtime.wf()
        && post.nodes@[k].time_driver.wf() && post.nodes@[k].free_ports.wf() by {
        if k != n {
            assert(post.nodes@[k] == pre.nodes@[k]);
        }
    }
    assert forall|k: int, j: int|
        #![trigger post.nodes@[k].time_driver.spec_pending()[j]]
        0 <= k < post.nodes@.len() && 0 <= j < post.nodes@[k].time_driver.spec_pending().len()
            implies post.nodes@[k].time_driver.spec_slots()[
            post.nodes@[k].time_driver.spec_pending()[j] as int
        ].timestamp.nanos >= post.nodes@[k].time_driver.spec_time().nanos by {
        assert(post.nodes@[k].time_driver == pre.nodes@[k].time_driver);
        assert(pre.nodes@[k].time_driver.spec_slots()[
            pre.nodes@[k].time_driver.spec_pending()[j] as int
        ].timestamp.nanos >= pre.nodes@[k].time_driver.spec_time().nanos);
    }
    assert forall|k: int|
        0 <= k < post.nodes@.len() implies (#[trigger] post.nodes@[k]).free_ports.spec_len()
        + spec_live_socket_count(post.network.spec_sockets(), k) == 65535 by {
        assert(post.nodes@[k].free_ports == pre.nodes@[k].free_ports);
    }
}

impl NodeHandle {
    /// The node's address.
    pub fn ip(&self, sim: &Sim) -> (r: IpAddr)
        requires
            sim.spec_node_valid(*self),
        ensures
            r == sim.spec_nodes()[self.node as int].spec_info().ip,
    {
        sim.nodes_ref(self.node).info.ip
    }

    /// The node's logical time.
    pub fn time(&self, sim: &Sim) -> (r: Timestamp)
        requires
            sim.spec_node_valid(*self),
        ensures
            r == sim.spec_nodes()[self.node as int].spec_driver().spec_time(),
    {
        sim.nodes_ref(self.node).time_driver.time()
    }

    /// The node's description.
    pub fn info(&self, sim: &Sim) -> (r: NodeInfo)
        requires
            sim.spec_node_valid(*self),
        ensures
            r == sim.spec_nodes()[self.node as int].spec_info(),
    {
        *&sim.nodes_ref(self.node).info
    }

    /// Whether the node's scheduler has queued work.
    pub fn has_work(&self, sim: &Sim) -> (r: bool)
        requires
            sim.spec_node_valid(*self),
        ensures
            r == (sim.spec_nodes()[self.node as int].spec_runtime().spec_queue().len() > 0),
    {
        sim.nodes_ref(self.node).runtime.has_work()
    }

    /// Register a new task on this node and queue it for its first
    /// poll; the task's body lives with the embedding, keyed by the
    /// returned id.
    pub fn spawn(&self, sim: &mut Sim) -> (id: TaskId)
        requires
            old(sim).wf(),
            old(sim).spec_node_valid(*self),
            old(sim).spec_nodes()[self.node as int].spec_runtime().spec_next_id() < TaskId::MAX,
        ensures
            final(sim).wf(),
            final(sim).spec_nodes().len() == old(sim).spec_nodes().len(),
            runtime_only_change(*old(sim), *final(sim), self.node as int),
            id == old(sim).spec_nodes()[self.node as int].spec_runtime().spec_next_id(),
            final(sim).spec_nodes()[self.node as int].spec_runtime().spec_queue() == old(sim).spec_nodes()[self.node as int].spec_runtime().spec_queue().push(id),
            forall|q: TaskId|
                final(sim).spec_nodes()[self.node as int].spec_runtime().spec_live(q) <==> old(sim).spec_nodes()[self.node as int].spec_runtime().spec_live(q) || q == id,
    {
        let ghost pre = *sim;
        let n = self.node;
        let id = sim.node_runtime(n).submit();
        proof {
            lemma_wf_after_runtime_change(pre, *sim, n as int);
        }
        id
    }

    /// Queue a task of this node for another poll — what waking it
    /// does.
    pub fn wake(&self, sim: &mut Sim, task: TaskId)
        requires
            old(sim).wf(),
            old(sim).spec_node_valid(*self),
        ensures
            final(sim).wf(),
            runtime_only_change(*old(sim), *final(sim), self.node as int),
            final(sim).spec_nodes()[self.node as int].spec_runtime().spec_queue() == old(sim).spec_nodes()[self.node as int].spec_runtime().spec_queue().push(task),
    {
        let ghost pre = *sim;
        let n = self.node;
        sim.node_runtime(n).push_task(task);
        proof {
            lemma_wf_after_runtime_change(pre, *sim, n as int);
        }
    }

    /// Add a timer due `duration` from now on this node's clock; the
    /// returned id identifies the timer from then on.
    pub fn add_timer(&self, sim: &mut Sim, duration: Timestamp) -> (id: usize)
        requires
            old(sim).wf(),
            old(sim).spec_node_valid(*self),
            old(sim).spec_nodes()[self.node as int].spec_driver().spec_time().nanos
                + duration.nanos <= u64::MAX,
        ensures
            final(sim).wf(),
            final(sim).spec_nodes().len() == old(sim).spec_nodes().len(),
            final(sim).spec_network() == old(sim).spec_network(),
            forall|k: int|
                0 <= k < old(sim).spec_nodes().len() && k != self.node as int
                    ==> final(sim).spec_nodes()[k] == old(sim).spec_nodes()[k],
            final(sim).spec_nodes()[self.node as int].spec_runtime() == old(sim).spec_nodes()[
                self.node as int
            ].spec_runtime(),
            final(sim).spec_nodes()[self.node as int].spec_ports() == old(sim).spec_nodes()[
                self.node as int
            ].spec_ports(),
            final(sim).spec_nodes()[self.node as int].spec_driver().spec_time() == old(sim).spec_nodes()[self.node as int].spec_driver().spec_time(),
            id == old(sim).spec_nodes()[self.node as int].spec_driver().spec_slots().len(),
            final(sim).spec_nodes()[self.node as int].spec_driver().spec_slots() == old(sim).spec_nodes()[self.node as int].spec_driver().spec_slots().push(
                crate::timers::TimerSlot {
                    timestamp: Timestamp {
                        nanos: (old(sim).spec_nodes()[self.node as int].spec_driver().spec_time()
                            .nanos + duration.nanos) as u64,
                    },
                    waiter: None,
                },
            ),
            final(sim).spec_nodes()[self.node as int].spec_driver().spec_pending() == old(sim).spec_nodes()[self.node as int].spec_driver().spec_pending().push(id),
    {
        let ghost pre = *sim;
        let n = self.node;
        let at = sim.nodes_ref(n).time_driver.time();
        let due = Timestamp { nanos: at.nanos + duration.nanos };
        let id = sim.node_driver(n).add_timer(due);
        proof {
            let d0 = pre.nodes@[n as int].time_driver;
            let d1 = sim.nodes@[n as int].time_driver;
            assert forall|j: int|
                0 <= j < d1.spec_pending().len() implies d1.spec_slots()[
                #[trigger] d1.spec_pending()[j] as int
            ].timestamp.nanos >= d1.spec_time().nanos by {
                if j < d0.spec_pending().len() {
                    assert(d1.spec_pending()[j] == d0.spec_pending()[j]);
                    assert(d0.spec_slots()[d0.spec_pending()[j] as int].timestamp.nanos
                        >= d0.spec_time().nanos);
                } else {
                    assert(d1.spec_pending()[j] == id);
                    assert(d1.spec_slots()[id as int].timestamp == due);
                }
            }
            lemma_wf_after_driver_change(pre, *sim, n as int);
        }
        id
    }

    /// Register `task` as the waiter of timer `id` on this node,
    /// replacing any previous waiter.
    pub fn register_timer_waiter(&self, sim: &mut Sim, id: usize, task: TaskId)
        requires
            old(sim).wf(),
            old(sim).spec_node_valid(*self),
            id < old(sim).spec_nodes()[self.node as int].spec_driver().spec_slots().len(),
        ensures
            final(sim).wf(),
            final(sim).spec_nodes().len() == old(sim).spec_nodes().len(),
            final(sim).spec_network() == old(sim).spec_network(),
            forall|k: int|
                0 <= k < old(sim).spec_nodes().len() && k != self.node as int
                    ==> final(sim).spec_nodes()[k] == old(sim).spec_nodes()[k],
            final(sim).spec_nodes()[self.node as int].spec_driver().spec_time() == old(sim).spec_nodes()[self.node as int].spec_driver().spec_time(),
            final(sim).spec_nodes()[self.node as int].spec_driver().spec_pending() == old(sim).spec_nodes()[self.node as int].spec_driver().spec_pending(),
            final(sim).spec_nodes()[self.node as int].spec_driver().spec_slots() == old(sim).spec_nodes()[self.node as int].spec_driver().spec_slots().update(
                id as int,
                crate::timers::TimerSlot {
                    timestamp: old(sim).spec_nodes()[self.node as int].spec_driver().spec_slots()[
                        id as int
                    ].timestamp,
                    waiter: Some(task),
                },
            ),
            final(sim).spec_nodes()[self.node as int].spec_runtime() == old(sim).spec_nodes()[
                self.node as int
            ].spec_runtime(),
    {
        let ghost pre = *sim;
        let n = self.node;
        sim.node_driver(n).register_waiter(id, task);
        proof {
            let d0 = pre.nodes@[n as int].time_driver;
            let d1 = sim.nodes@[n as int].time_driver;
            assert forall|j: int|
                0 <= j < d1.spec_pending().len() implies d1.spec_slots()[
                #[trigger] d1.spec_pending()[j] as int
            ].timestamp.nanos >= d1.spec_time().nanos by {
                assert(d1.spec_pending()[j] == d0.spec_pending()[j]);
                assert(d0.spec_pending()[j] < d0.spec_slots().len());
                assert(d0.spec_slots()[d0.spec_pending()[j] as int].timestamp.nanos
                    >= d0.spec_time().nanos);
                if d0.spec_pending()[j] == id {
                    assert(d1.spec_slots()[id as int].timestamp == d0.spec_slots()[
                        id as int
                    ].timestamp);
                } else {
                    assert(d1.spec_slots()[d0.spec_pending()[j] as int] == d0.spec_slots()[
                        d0.spec_pending()[j] as int
                    ]);
                }
            }
            lemma_wf_after_driver_change(pre, *sim, n as int);
        }
    }

    /// Whether timer `id` on this node has come due.
    pub fn timer_elapsed(&self, sim: &Sim, id: usize) -> (r: bool)
        requires
            sim.spec_node_valid(*self),
            id < sim.spec_nodes()[self.node as int].spec_driver().spec_slots().len(),
        ensures
            r == (sim.spec_nodes()[self.node as int].spec_driver().spec_slots()[
                id as int
            ].timestamp.nanos <= sim.spec_nodes()[self.node as int].spec_driver().spec_time().nanos),
    {
        sim.nodes_ref(self.node).time_driver.timer_elapsed(id)
    }
}

/// Everything of the simulation except node `n`'s clock is as it was,
/// the clock is well-formed with its pending timers in the future,
/// and the node's scheduler, ports and description are untouched.
pub closed spec fn driver_only_change(pre: Sim, post: Sim, n: int) -> bool {
    &&& 0 <= n < pre.nodes@.len()
    &&& post.network == pre.network
    &&& post.order@ == pre.order@
    &&& post.nodes@.len() == pre.nodes@.len()
    &&& forall|k: int| 0 <= k < pre.nodes@.len() && k != n ==> post.nodes@[k] == pre.nodes@[k]
    &&& post.nodes@[n].info == pre.nodes@[n].info
    &&& post.nodes@[n].free_ports == pre.nodes@[n].free_ports
    &&& post.nodes@[n].runtime == pre.nodes@[n].runtime
    &&& post.nodes@[n].time_driver.wf()
    &&& forall|j: int|
        0 <= j < post.nodes@[n].time_driver.spec_pending().len()
            ==> post.nodes@[n].time_driver.spec_slots()[
            #[trigger] post.nodes@[n].time_driver.spec_pending()[j] as int
        ].timestamp.nanos >= post.nodes@[n].time_driver.spec_time().nanos
}

/// A change confined to one node's clock — keeping pending timers in
/// that clock's future — preserves the simulation's well-formedness.
proof fn lemma_wf_after_driver_change(pre: Sim, post: Sim, n: int)
    requires
        pre.wf(),
        driver_only_change(pre, post, n),
    ensures
        post.wf(),
{
    assert forall|k: int| 0 <= k < post.nodes@.len() implies (#[trigger] post.nodes@[k]).runtime.wf()
        && post.nodes@[k].time_driver.wf() && post.nodes@[k].free_ports.wf() by {
        if k != n {
            assert(post.nodes@[k] == pre.nodes@[k]);
        } else {
            assert(post.nodes@[k].runtime == pre.nodes@[k].runtime);
        }
    }
    assert forall|k: int, j: int|
        #![trigger post.nodes@[k].time_driver.spec_pending()[j]]
        0 <= k < post.nodes@.len() && 0 <= j < post.nodes@[k].time_driver.spec_pending().len()
            implies post.nodes@[k].time_driver.spec_slots()[
            post.nodes@[k].time_driver.spec_pending()[j] as int
        ].timestamp.nanos >= post.nodes@[k].time_driver.spec_time().nanos by {
        if k != n {
            assert(post.nodes@[k].time_driver == pre.nodes@[k].time_driver);
            assert(pre.nodes@[k].time_driver.spec_slots()[
                pre.nodes@[k].time_driver.spec_pending()[j] as int
            ].timestamp.nanos >= pre.nodes@[k].time_driver.spec_time().nanos);
        }
    }
    assert forall|k: int|
        0 <= k < post.nodes@.len() implies (#[trigger] post.nodes@[k]).free_ports.spec_len()
        + spec_live_socket_count(post.network.spec_sockets(), k) == 65535 by {
        assert(post.nodes@[k].free_ports == pre.nodes@[k].free_ports);
    }
}

impl Sim {
    /// A shared borrow of the node in slot `n`.
    fn nodes_ref(&self, n: usize) -> (r: &Node)
        requires
            n < self.spec_nodes().len(),
        ensures
            *r == self.spec_nodes()[n as int],
    {
        &self.nodes[n]
    }

    /// A mutable borrow of the scheduler of the node in slot `n`.
    fn node_runtime(&mut self, n: usize) -> (r: &mut Runtime)
        requires
            n < old(self).spec_nodes().len(),
        ensures
            *r == old(self).spec_nodes()[n as int].spec_runtime(),
            final(self).spec_network() == old(self).spec_network(),
            final(self).spec_order() == old(self).spec_order(),
            final(self).spec_nodes() == old(self).spec_nodes().update(
                n as int,
                final(self).spec_nodes()[n as int],
            ),
            final(self).spec_nodes().len() == old(self).spec_nodes().len(),
            final(self).spec_nodes()[n as int].spec_runtime() == *final(r),
            final(self).spec_nodes()[n as int].spec_driver() == old(self).spec_nodes()[
                n as int
            ].spec_driver(),
            final(self).spec_nodes()[n as int].spec_ports() == old(self).spec_nodes()[
                n as int
            ].spec_ports(),
            final(self).spec_nodes()[n as int].spec_info() == old(self).spec_nodes()[
                n as int
            ].spec_info(),
            forall|k: int|
                0 <= k < old(self).spec_nodes().len() && k != n as int
                    ==> final(self).spec_nodes()[k] == old(self).spec_nodes()[k],
    {
        &mut self.nodes[n].runtime
    }

    /// Return a port to node `n`'s pool.
    fn return_port_on(&mut self, n: usize, p: u16)
        requires
            n < old(self).spec_nodes().len(),
            old(self).spec_nodes()[n as int].spec_ports().wf(),
            !old(self).spec_nodes()[n as int].spec_ports().spec_contains(p),
            p >= 1,
        ensures
            final(self).spec_network() == old(self).spec_network(),
            final(self).spec_order() == old(self).spec_order(),
            final(self).spec_nodes().len() == old(self).spec_nodes().len(),
            forall|k: int|
                0 <= k < old(self).spec_nodes().len() && k != n as int
                    ==> final(self).spec_nodes()[k] == old(self).spec_nodes()[k],
            final(self).spec_nodes()[n as int].spec_runtime() == old(self).spec_nodes()[
                n as int
            ].spec_runtime(),
            final(self).spec_nodes()[n as int].spec_driver() == old(self).spec_nodes()[
                n as int
            ].spec_driver(),
            final(self).spec_nodes()[n as int].spec_info() == old(self).spec_nodes()[
                n as int
            ].spec_info(),
            final(self).spec_nodes()[n as int].spec_ports().wf(),
            final(self).spec_nodes()[n as int].spec_ports().spec_len() == old(self).spec_nodes()[
                n as int
            ].spec_ports().spec_len() + 1,
            forall|q: u16|
                final(self).spec_nodes()[n as int].spec_ports().spec_contains(q) <==> old(self).spec_nodes()[n as int].spec_ports().spec_contains(q) || q == p,
    {
        self.nodes[n].free_ports.return_port(p)
    }

    /// A mutable borrow of the clock of the node in slot `n`.
    fn node_driver(&mut self, n: usize) -> (r: &mut TimeDriver)
        requires
            n < old(self).spec_nodes().len(),
        ensures
            *r == old(self).spec_nodes()[n as int].spec_driver(),
            final(self).spec_network() == old(self).spec_network(),
            final(self).spec_order() == old(self).spec_order(),
            final(self).spec_nodes().len() == old(self).spec_nodes().len(),
            final(self).spec_nodes()[n as int].spec_driver() == *final(r),
            final(self).spec_nodes()[n as int].spec_runtime() == old(self).spec_nodes()[
                n as int
            ].spec_runtime(),
            final(self).spec_nodes()[n as int].spec_ports() == old(self).spec_nodes()[
                n as int
            ].spec_ports(),
            final(self).spec_nodes()[n as int].spec_info() == old(self).spec_nodes()[
                n as int
            ].spec_info(),
            forall|k: int|
                0 <= k < old(self).spec_nodes().len() && k != n as int
                    ==> final(self).spec_nodes()[k] == old(self).spec_nodes()[k],
    {
        &mut self.nodes[n].time_driver
    }
}

/// A node with nothing left to do: no queued task, no pending timer,
/// and no delivery scheduled anywhere on the network.
pub open spec fn spec_node_idle(sim: Sim, n: int) -> bool {
    &&& sim.spec_nodes()[n].spec_runtime().spec_queue().len() == 0
    &&& sim.spec_nodes()[n].spec_driver().spec_pending().len() == 0
    &&& sim.spec_network().spec_events().len() == 0
}

/// A node that cannot make a step: no queued id maps to a live task,
/// no timer is pending, and no delivery is scheduled anywhere on the
/// network.  (Stale queued ids do not count: a step only drains
/// them.)
pub open spec fn spec_node_quiet(sim: Sim, n: int) -> bool {
    &&& crate::runtime::spec_first_live(
        sim.spec_nodes()[n].spec_runtime().spec_queue(),
        sim.spec_nodes()[n].spec_runtime().spec_live_seq(),
    ) is None
    &&& sim.spec_nodes()[n].spec_driver().spec_pending().len() == 0
    &&& sim.spec_network().spec_events().len() == 0
}

/// What an advance step does, witnessed by the instant `ts` it chose:
/// `ts` is the earliest instant any timer or delivery was due, every
/// delivery due by `ts` has been made, and node `n`'s clock moved to
/// `ts` — unless `ts` lay in the node's past, in which case its clock
/// stands where it was.
pub open spec fn spec_advanced_to(pre: Sim, post: Sim, n: int, ts: Timestamp) -> bool {
    &&& (forall|k: int|
        0 <= k < pre.spec_nodes()[n].spec_driver().spec_pending().len() ==> ts.nanos
            <= pre.spec_nodes()[n].spec_driver().spec_slots()[
            #[trigger] pre.spec_nodes()[n].spec_driver().spec_pending()[k] as int
        ].timestamp.nanos)
    &&& (forall|k: int|
        0 <= k < pre.spec_network().spec_events().len() ==> ts.nanos <= (
        #[trigger] pre.spec_network().spec_events()[k]).timestamp.nanos)
    &&& ((exists|k: int|
        0 <= k < pre.spec_nodes()[n].spec_driver().spec_pending().len()
            && pre.spec_nodes()[n].spec_driver().spec_slots()[
            #[trigger] pre.spec_nodes()[n].spec_driver().spec_pending()[k] as int
        ].timestamp == ts) || (exists|k: int|
        0 <= k < pre.spec_network().spec_events().len() && (
        #[trigger] pre.spec_network().spec_events()[k]).timestamp == ts))
    &&& (forall|k: int|
        0 <= k < post.spec_network().spec_events().len() ==> (
        #[trigger] post.spec_network().spec_events()[k]).timestamp.nanos > ts.nanos)
    &&& (ts.nanos >= pre.spec_nodes()[n].spec_driver().spec_time().nanos ==> {
        &&& post.spec_nodes()[n].spec_driver().spec_time() == ts
        &&& (forall|k: int|
            0 <= k < post.spec_nodes()[n].spec_driver().spec_pending().len()
                ==> post.spec_nodes()[n].spec_driver().spec_slots()[
                #[trigger] post.spec_nodes()[n].spec_driver().spec_pending()[k] as int
            ].timestamp.nanos > ts.nanos)
    })
    &&& (ts.nanos < pre.spec_nodes()[n].spec_driver().spec_time().nanos
        ==> post.spec_nodes()[n].spec_driver() == pre.spec_nodes()[n].spec_driver())
    &&& post.spec_network().spec_registry() == pre.spec_network().spec_registry()
    &&& post.spec_network().spec_topology() == pre.spec_network().spec_topology()
    &&& post.spec_network().spec_sockets().len() == pre.spec_network().spec_sockets().len()
    &&& (forall|s: int|
        0 <= s < pre.spec_network().spec_sockets().len() && !crate::net::spec_due_to(
            pre.spec_network(),
            ts,
            s,
        ) ==> (#[trigger] post.spec_network().spec_sockets()[s]) == pre.spec_network()
            .spec_sockets()[s])
    &&& (forall|s: int|
        0 <= s < pre.spec_network().spec_sockets().len() && #[trigger] crate::net::spec_due_to(
            pre.spec_network(),
            ts,
            s,
        ) ==> post.spec_network().spec_sockets()[s].recv_buf@ == crate::net::spec_deliver_into(
            pre.spec_network().spec_sockets()[s].recv_buf@,
            pre.spec_network().spec_sockets()[s].recv_buf.spec_capacity(),
            crate::net::spec_event_datagrams(
                crate::net::spec_deliveries(
                    pre.spec_network().spec_events(),
                    ts,
                    pre.spec_network().spec_sockets()[s].local_addr,
                ),
            ),
        ))
}

/// The only change between `pre` and `post` is that node `n`'s poll
/// queue was drained of stale ids: live tasks, clocks, ports and the
/// network are as they were.
pub closed spec fn drained_only(pre: Sim, post: Sim, n: int) -> bool {
    &&& runtime_only_change(pre, post, n)
    &&& post.nodes@[n].runtime.spec_live_seq() == pre.nodes@[n].runtime.spec_live_seq()
    &&& post.nodes@[n].runtime.spec_next_id() == pre.nodes@[n].runtime.spec_next_id()
    &&& post.nodes@[n].runtime.spec_queue().len() == 0
}

impl NodeHandle {
    /// The earliest instant at which this node can do anything: now,
    /// if its scheduler has queued work; otherwise the earlier of its
    /// next timer and the network's next delivery.
    pub fn next_event_timestamp(&self, sim: &Sim) -> (r: Option<Timestamp>)
        requires
            sim.wf(),
            sim.spec_node_valid(*self),
        ensures
            sim.spec_nodes()[self.node as int].spec_runtime().spec_queue().len() > 0 ==> r == Some(
                sim.spec_nodes()[self.node as int].spec_driver().spec_time(),
            ),
            sim.spec_nodes()[self.node as int].spec_runtime().spec_queue().len() == 0 ==> {
                &&& (r is None <==> sim.spec_nodes()[self.node as int].spec_driver().spec_pending()
                    .len() == 0 && sim.spec_network().spec_events().len() == 0)
                &&& (r is Some ==> (forall|k: int|
                    0 <= k < sim.spec_nodes()[self.node as int].spec_driver().spec_pending().len()
                        ==> r->0.nanos <= sim.spec_nodes()[self.node as int].spec_driver()
                        .spec_slots()[
                        #[trigger] sim.spec_nodes()[self.node as int].spec_driver().spec_pending()[
                            k
                        ] as int
                    ].timestamp.nanos))
                &&& (r is Some ==> (forall|k: int|
                    0 <= k < sim.spec_network().spec_events().len() ==> r->0.nanos <= (
                    #[trigger] sim.spec_network().spec_events()[k]).timestamp.nanos))
                &&& (r is Some ==> ((exists|k: int|
                    0 <= k < sim.spec_nodes()[self.node as int].spec_driver().spec_pending().len()
                        && sim.spec_nodes()[self.node as int].spec_driver().spec_slots()[
                        #[trigger] sim.spec_nodes()[self.node as int].spec_driver().spec_pending()[
                            k
                        ] as int
                    ].timestamp == r->0) || (exists|k: int|
                    0 <= k < sim.spec_network().spec_events().len() && (
                    #[trigger] sim.spec_network().spec_events()[k]).timestamp == r->0)))
            },
    {
        let n = self.node;
        if self.has_work(sim) {
            return Some(self.time(sim));
        }
        let next_timer = sim.nodes_ref(n).time_driver.next_timer();
        let next_net = sim.network_ref().next_event_timestamp();
        match (next_timer, next_net) {
            (None, None) => None,
            (Some(t), None) => Some(t),
            (None, Some(e)) => Some(e),
            (Some(t), Some(e)) => if t.nanos <= e.nanos {
                Some(t)
            } else {
                Some(e)
            },
        }
    }

    /// Make one step, but only up to `cap` when one is given: poll the
    /// first live queued task, or else advance the node — deliveries
    /// first, then the clock — to the next event no later than the
    /// cap.  Reports whether anything was done.
    pub(crate) fn next_step_bounded<P: TaskPoller>(
        &self,
        sim: &mut Sim,
        cap: Option<Timestamp>,
        poller: &mut P,
    ) -> (r: bool)
        requires
            old(sim).wf(),
            old(sim).spec_node_valid(*self),
        ensures
            final(sim).wf(),
            final(sim).spec_nodes().len() >= old(sim).spec_nodes().len(),
            !r ==> drained_only(*old(sim), *final(sim), self.node as int),
            (!r && cap is None) ==> spec_node_idle(*final(sim), self.node as int),
            !r ==> (forall|k: int|
                0 <= k < final(sim).spec_nodes()[self.node as int].spec_driver().spec_pending()
                    .len() ==> (cap is Some ==> final(sim).spec_nodes()[self.node as int]
                    .spec_driver().spec_slots()[
                    #[trigger] final(sim).spec_nodes()[self.node as int].spec_driver()
                        .spec_pending()[k] as int
                ].timestamp.nanos > cap->0.nanos)),
            !r ==> (forall|k: int|
                0 <= k < final(sim).spec_network().spec_events().len() ==> (cap is Some ==> (
                #[trigger] final(sim).spec_network().spec_events()[k]).timestamp.nanos
                    > cap->0.nanos)),
            (forall|k: int|
                0 <= k < old(sim).spec_nodes().len() ==> (#[trigger] final(sim).spec_nodes()[k])
                    .spec_driver().spec_time().nanos >= old(sim).spec_nodes()[k].spec_driver()
                    .spec_time().nanos),
            (cap is Some ==> (old(sim).spec_nodes()[self.node as int].spec_driver().spec_time()
                .nanos <= cap->0.nanos ==> final(sim).spec_nodes()[self.node as int].spec_driver()
                .spec_time().nanos <= cap->0.nanos)),
            // without a cap, a step is made exactly when one is there
            // to make, and an advance step is witnessed by its instant
            cap is None ==> r == !spec_node_quiet(*old(sim), self.node as int),
            (cap is None && crate::runtime::spec_first_live(
                old(sim).spec_nodes()[self.node as int].spec_runtime().spec_queue(),
                old(sim).spec_nodes()[self.node as int].spec_runtime().spec_live_seq(),
            ) is None && !spec_node_quiet(*old(sim), self.node as int)) ==> exists|ts: Timestamp|
                #[trigger] spec_advanced_to(*old(sim), *final(sim), self.node as int, ts),
    {
        let n = self.node;
        let ghost pre = *sim;
        let taken = sim.node_runtime(n).take_task();
        proof {
            lemma_wf_after_runtime_change(pre, *sim, n as int);
        }
        match taken {
            Some(tid) => {
                let ghost mid = *sim;
                let done = poller.poll_task(sim, *self, tid);
                let ghost after_poll = *sim;
                if done {
                    sim.node_runtime(n).remove_task(tid);
                    proof {
                        lemma_wf_after_runtime_change(after_poll, *sim, n as int);
                    }
                }
                proof {
                    assert forall|k: int|
                        0 <= k < pre.spec_nodes().len() implies (#[trigger] sim.spec_nodes()[k])
                        .spec_driver().spec_time().nanos >= pre.spec_nodes()[k].spec_driver()
                        .spec_time().nanos by {
                        if k == n as int {
                            assert(mid.spec_nodes()[k].spec_driver() == pre.spec_nodes()[
                                k
                            ].spec_driver());
                        } else {
                            assert(mid.spec_nodes()[k] == pre.spec_nodes()[k]);
                        }
                        assert(after_poll.spec_nodes()[k].spec_driver().spec_time()
                            == mid.spec_nodes()[k].spec_driver().spec_time());
                        assert(sim.spec_nodes()[k].spec_driver() == after_poll.spec_nodes()[
                            k
                        ].spec_driver());
                    }
                    assert(!spec_node_quiet(pre, n as int));
                }
                true
            },
            None => {
                proof {
                    crate::runtime::lemma_after_take_empty(
                        pre.nodes@[n as int].runtime.spec_queue(),
                        pre.nodes@[n as int].runtime.spec_live_seq(),
                    );
                }
                let ghost drained = *sim;
                let next = self.next_event_timestamp(sim);
                let ts = match next {
                    None => {
                        proof {
                            assert(spec_node_quiet(pre, n as int));
                        }
                        return false;
                    },
                    Some(ts) => ts,
                };
                proof {
                    assert(!spec_node_quiet(pre, n as int));
                }
                let run = match cap {
                    None => true,
                    Some(c) => ts.nanos <= c.nanos,
                };
                if !run {
                    return false;
                }
                let ghost before_adv = *sim;
                let woken = sim.network_step(ts);
                let ghost after_net = *sim;
                let count = woken.len();
                for i in 0..count
                    invariant
                        sim.wf(),
                        count == woken@.len(),
                        sim.spec_nodes().len() >= before_adv.spec_nodes().len(),
                        sim.spec_network() == after_net.spec_network(),
                        forall|k: int|
                            0 <= k < before_adv.spec_nodes().len()
                                ==> (#[trigger] sim.spec_nodes()[k]).spec_driver()
                                == before_adv.spec_nodes()[k].spec_driver(),
                {
                    let target = woken[i].0;
                    if target < sim.nodes.len() {
                        let h = NodeHandle { node: target };
                        h.wake(sim, woken[i].1);
                    }
                }
                let now = self.time(sim);
                if ts.nanos >= now.nanos {
                    let ghost before_drv = *sim;
                    let fired = sim.node_driver(n).advance_to_time(ts);
                    proof {
                        lemma_wf_after_driver_change(before_drv, *sim, n as int);
                    }
                    let ghost after_drv = *sim;
                    let fcount = fired.len();
                    for i in 0..fcount
                        invariant
                            sim.wf(),
                            fcount == fired@.len(),
                            sim.spec_nodes().len() == after_drv.spec_nodes().len(),
                            self.node < sim.spec_nodes().len(),
                            sim.spec_network() == after_drv.spec_network(),
                            forall|k: int|
                                0 <= k < after_drv.spec_nodes().len()
                                    ==> (#[trigger] sim.spec_nodes()[k]).spec_driver()
                                    == after_drv.spec_nodes()[k].spec_driver(),
                    {
                        self.wake(sim, fired[i]);
                    }
                    proof {
                        assert forall|k: int|
                            0 <= k < pre.spec_nodes().len() implies (#[trigger] sim.spec_nodes()[
                            k
                        ]).spec_driver().spec_time().nanos >= pre.spec_nodes()[k].spec_driver()
                            .spec_time().nanos by {
                            assert(sim.spec_nodes()[k].spec_driver() == after_drv.spec_nodes()[
                                k
                            ].spec_driver());
                            if k != n as int {
                                assert(after_drv.spec_nodes()[k] == before_drv.spec_nodes()[k]);
                                assert(before_drv.spec_nodes()[k].spec_driver()
                                    == pre.spec_nodes()[k].spec_driver());
                            } else {
                                assert(after_drv.spec_nodes()[k].spec_driver().spec_time() == ts);
                                assert(before_drv.spec_nodes()[k].spec_driver().spec_time()
                                    == now);
                            }
                        }
                    }
                } else {
                    proof {
                        assert forall|k: int|
                            0 <= k < pre.spec_nodes().len() implies (#[trigger] sim.spec_nodes()[
                            k
                        ]).spec_driver().spec_time().nanos >= pre.spec_nodes()[k].spec_driver()
                            .spec_time().nanos by {
                            assert(sim.spec_nodes()[k].spec_driver() == pre.spec_nodes()[
                                k
                            ].spec_driver());
                        }
                    }
                }
                proof {
                    if cap is None {
                        assert(drained.spec_nodes()[n as int].spec_driver() == pre.spec_nodes()[
                            n as int
                        ].spec_driver());
                        assert(drained.spec_network() == pre.spec_network());
                        assert(sim.spec_nodes()[n as int].spec_driver() == (if ts.nanos
                            >= now.nanos {
                            sim.spec_nodes()[n as int].spec_driver()
                        } else {
                            pre.spec_nodes()[n as int].spec_driver()
                        }));
                        assert(spec_advanced_to(pre, *sim, n as int, ts));
                        assert(exists|t: Timestamp| #[trigger] spec_advanced_to(
                            pre,
                            *sim,
                            n as int,
                            t,
                        ));
                    }
                }
                true
            },
        }
    }

    /// Make one step: poll the first live queued task, or else advance
    /// the node — deliveries first, then the clock — to its next
    /// event.  Reports whether anything was done.
    pub fn next_step<P: TaskPoller>(&self, sim: &mut Sim, poller: &mut P) -> (r: bool)
        requires
            old(sim).wf(),
            old(sim).spec_node_valid(*self),
        ensures
            final(sim).wf(),
            final(sim).spec_nodes().len() >= old(sim).spec_nodes().len(),
            // a step is made exactly when one is there to make: a
            // queued live task, a pending timer, or a scheduled
            // delivery
            r == !spec_node_quiet(*old(sim), self.node as int),
            !r ==> drained_only(*old(sim), *final(sim), self.node as int),
            !r ==> spec_node_idle(*final(sim), self.node as int),
            // clocks only move forward
            forall|k: int|
                0 <= k < old(sim).spec_nodes().len() ==> (#[trigger] final(sim).spec_nodes()[k])
                    .spec_driver().spec_time().nanos >= old(sim).spec_nodes()[k].spec_driver()
                    .spec_time().nanos,
            // an advance step (no live task queued) moves deliveries
            // and this node's clock to the earliest due instant
            (crate::runtime::spec_first_live(
                old(sim).spec_nodes()[self.node as int].spec_runtime().spec_queue(),
                old(sim).spec_nodes()[self.node as int].spec_runtime().spec_live_seq(),
            ) is None && !spec_node_quiet(*old(sim), self.node as int)) ==> exists|ts: Timestamp|
                #[trigger] spec_advanced_to(*old(sim), *final(sim), self.node as int, ts),
    {
        self.next_step_bounded(sim, None, poller)
    }

    /// Repeat `next_step` up to `steps` times (unbounded when `None`,
    /// up to the machine's count limit), stopping at the first step
    /// that found nothing to do; count the steps made.
    pub fn make_steps<P: TaskPoller>(
        &self,
        sim: &mut Sim,
        steps: Option<usize>,
        poller: &mut P,
    ) -> (r: usize)
        requires
            old(sim).wf(),
            old(sim).spec_node_valid(*self),
        ensures
            final(sim).wf(),
            final(sim).spec_nodes().len() >= old(sim).spec_nodes().len(),
            match steps {
                Some(n) => r <= n,
                None => true,
            },
            (match steps {
                Some(n) => r < n,
                None => r < usize::MAX,
            }) ==> spec_node_idle(*final(sim), self.node as int),
            (r == 0 && (steps is Some ==> steps->0 > 0)) ==> drained_only(
                *old(sim),
                *final(sim),
                self.node as int,
            ),
            // the count is zero exactly when the node had nothing to
            // do (given any budget at all)
            (steps is Some ==> steps->0 > 0) ==> (r == 0 <==> spec_node_quiet(
                *old(sim),
                self.node as int,
            )),
            // clocks only move forward, and a zero count leaves the
            // network untouched
            forall|k: int|
                0 <= k < old(sim).spec_nodes().len() ==> (#[trigger] final(sim).spec_nodes()[k])
                    .spec_driver().spec_time().nanos >= old(sim).spec_nodes()[k].spec_driver()
                    .spec_time().nanos,
            (r == 0 && (steps is Some ==> steps->0 > 0)) ==> final(sim).spec_network() == old(sim).spec_network(),
    {
        let limit: usize = match steps {
            Some(n) => n,
            None => usize::MAX,
        };
        let mut made: usize = 0;
        while made < limit
            invariant
                sim.wf(),
                sim.spec_node_valid(*self),
                sim.spec_nodes().len() >= old(sim).spec_nodes().len(),
                made <= limit,
                (steps is Some) ==> limit == steps->0,
                (steps is None) ==> limit == usize::MAX,
                made == 0 ==> *sim == *old(sim),
                made > 0 ==> !spec_node_quiet(*old(sim), self.node as int),
                forall|k: int|
                    0 <= k < old(sim).spec_nodes().len() ==> (#[trigger] sim.spec_nodes()[k])
                        .spec_driver().spec_time().nanos >= old(sim).spec_nodes()[k].spec_driver()
                        .spec_time().nanos,
            decreases limit - made,
        {
            let ghost at_call = *sim;
            if !self.next_step(sim, poller) {
                proof {
                    lemma_drained_only_facts(at_call, *sim, self.node as int);
                    assert forall|k: int|
                        0 <= k < old(sim).spec_nodes().len() implies (#[trigger] sim.spec_nodes()[
                        k
                    ]).spec_driver().spec_time().nanos >= old(sim).spec_nodes()[k].spec_driver()
                        .spec_time().nanos by {
                        assert(sim.spec_nodes()[k].spec_driver() == at_call.spec_nodes()[
                            k
                        ].spec_driver());
                        assert(at_call.spec_nodes()[k].spec_driver().spec_time().nanos >= old(
                            sim,
                        ).spec_nodes()[k].spec_driver().spec_time().nanos);
                    }
                }
                return made;
            }
            proof {
                assert forall|k: int|
                    0 <= k < old(sim).spec_nodes().len() implies (#[trigger] sim.spec_nodes()[k])
                    .spec_driver().spec_time().nanos >= old(sim).spec_nodes()[k].spec_driver()
                    .spec_time().nanos by {
                    assert(sim.spec_nodes()[k].spec_driver().spec_time().nanos
                        >= at_call.spec_nodes()[k].spec_driver().spec_time().nanos);
                    assert(at_call.spec_nodes()[k].spec_driver().spec_time().nanos >= old(
                        sim,
                    ).spec_nodes()[k].spec_driver().spec_time().nanos);
                }
            }
            made = made + 1;
        }
        made
    }

    /// Step the node through everything due within `duration` of its
    /// clock, then set the clock to exactly that instant.
    pub fn step_duration<P: TaskPoller>(
        &self,
        sim: &mut Sim,
        duration: Timestamp,
        poller: &mut P,
    ) -> (r: usize)
        requires
            old(sim).wf(),
            old(sim).spec_node_valid(*self),
            old(sim).spec_nodes()[self.node as int].spec_driver().spec_time().nanos
                + duration.nanos <= u64::MAX,
        ensures
            final(sim).wf(),
            final(sim).spec_nodes().len() >= old(sim).spec_nodes().len(),
            final(sim).spec_nodes()[self.node as int].spec_driver().spec_time().nanos == old(sim).spec_nodes()[self.node as int].spec_driver().spec_time().nanos + duration.nanos,
            // within the budget, everything due in the window was
            // processed before the clock was pinned: no queued task,
            // timer or delivery due by the end of the window remains
            r < usize::MAX ==> {
                &&& final(sim).spec_nodes()[self.node as int].spec_runtime().spec_queue().len()
                    == 0
                &&& (forall|k: int|
                    0 <= k < final(sim).spec_nodes()[self.node as int].spec_driver()
                        .spec_pending().len() ==> final(sim).spec_nodes()[self.node as int]
                        .spec_driver().spec_slots()[
                        #[trigger] final(sim).spec_nodes()[self.node as int].spec_driver()
                            .spec_pending()[k] as int
                    ].timestamp.nanos > old(sim).spec_nodes()[self.node as int].spec_driver()
                        .spec_time().nanos + duration.nanos)
                &&& (forall|k: int|
                    0 <= k < final(sim).spec_network().spec_events().len() ==> (
                    #[trigger] final(sim).spec_network().spec_events()[k]).timestamp.nanos > old(sim).spec_nodes()[self.node as int].spec_driver().spec_time().nanos + duration.nanos)
            },
    {
        let n = self.node;
        let start = self.time(sim);
        let until = Timestamp { nanos: start.nanos + duration.nanos };
        let mut made: usize = 0;
        while made < usize::MAX
            invariant
                sim.wf(),
                sim.spec_node_valid(*self),
                sim.spec_nodes().len() >= old(sim).spec_nodes().len(),
                sim.spec_nodes()[self.node as int].spec_driver().spec_time().nanos <= until.nanos,
            ensures
                sim.wf(),
                sim.spec_node_valid(*self),
                sim.spec_nodes().len() >= old(sim).spec_nodes().len(),
                sim.spec_nodes()[self.node as int].spec_driver().spec_time().nanos <= until.nanos,
                made == usize::MAX || {
                    &&& sim.spec_nodes()[self.node as int].spec_runtime().spec_queue().len() == 0
                    &&& (forall|k: int|
                        0 <= k < sim.spec_nodes()[self.node as int].spec_driver().spec_pending()
                            .len() ==> sim.spec_nodes()[self.node as int].spec_driver()
                            .spec_slots()[
                            #[trigger] sim.spec_nodes()[self.node as int].spec_driver()
                                .spec_pending()[k] as int
                        ].timestamp.nanos > until.nanos)
                    &&& (forall|k: int|
                        0 <= k < sim.spec_network().spec_events().len() ==> (
                        #[trigger] sim.spec_network().spec_events()[k]).timestamp.nanos
                            > until.nanos)
                },
            decreases usize::MAX - made,
        {
            if !self.next_step_bounded(sim, Some(until), poller) {
                break ;
            }
            made = made + 1;
        }
        let ghost before_drv = *sim;
        let fired = sim.node_driver(n).advance_to_time(until);
        proof {
            lemma_wf_after_driver_change(before_drv, *sim, n as int);
            if made < usize::MAX {
                // nothing in the window was left to fire
                assert(fired@.len() == 0) by {
                    if fired@.len() > 0 {
                        assert(crate::timers::spec_waiter_of_due(
                            before_drv.spec_nodes()[n as int].spec_driver(),
                            until,
                            fired@[0],
                        ));
                        let id = choose|id: usize|
                            #![trigger before_drv.spec_nodes()[n as int].spec_driver().spec_slots()[id as int]]
                            before_drv.spec_nodes()[n as int].spec_driver().spec_pending()
                                .contains(id) && before_drv.spec_nodes()[n as int].spec_driver()
                                .spec_slots()[id as int].timestamp.nanos <= until.nanos
                                && before_drv.spec_nodes()[n as int].spec_driver().spec_slots()[
                                id as int
                            ].waiter == Some(fired@[0]);
                        let j = choose|j: int|
                            0 <= j < before_drv.spec_nodes()[n as int].spec_driver()
                                .spec_pending().len() && #[trigger] before_drv.spec_nodes()[
                                n as int
                            ].spec_driver().spec_pending()[j] == id;
                    }
                }
            }
        }
        let fcount = fired.len();
        for i in 0..fcount
            invariant
                sim.wf(),
                fcount == fired@.len(),
                self.node < sim.spec_nodes().len(),
                sim.spec_nodes().len() >= old(sim).spec_nodes().len(),
                sim.spec_nodes()[self.node as int].spec_driver().spec_time() == until,
                made < usize::MAX ==> fcount == 0,
                made < usize::MAX ==> sim.spec_nodes()[self.node as int].spec_runtime()
                    .spec_queue().len() == 0,
                made < usize::MAX ==> sim.spec_network() == before_drv.spec_network(),
                made < usize::MAX ==> (forall|k: int|
                    0 <= k < sim.spec_nodes()[self.node as int].spec_driver().spec_pending()
                        .len() ==> sim.spec_nodes()[self.node as int].spec_driver().spec_slots()[
                        #[trigger] sim.spec_nodes()[self.node as int].spec_driver()
                            .spec_pending()[k] as int
                    ].timestamp.nanos > until.nanos),
        {
            let ghost before_wake = *sim;
            self.wake(sim, fired[i]);
            proof {
                assert(sim.nodes@[self.node as int].time_driver
                    == before_wake.nodes@[self.node as int].time_driver);
            }
        }
        proof {
            if made < usize::MAX {
                assert(sim.spec_nodes()[n as int].spec_runtime().spec_queue().len() == 0);
                assert forall|k: int|
                    0 <= k < sim.spec_network().spec_events().len() implies (
                #[trigger] sim.spec_network().spec_events()[k]).timestamp.nanos > until.nanos by {
                    assert(sim.spec_network() == before_drv.spec_network());
                }
            }
        }
        made
    }
}

impl Sim {
    /// A shared borrow of the network.
    fn network_ref(&self) -> (r: &Network)
        ensures
            *r == self.spec_network(),
    {
        &self.network
    }

    /// Deliver every network event due no later than `ts`.  Handing
    /// the woken tasks back to their nodes' schedulers is left to the
    /// caller: the pairs come back raw.
    fn network_step(&mut self, ts: Timestamp) -> (woken: Vec<(usize, TaskId)>)
        requires
            old(self).wf(),
        ensures
            final(self).wf(),
            final(self).spec_nodes() == old(self).spec_nodes(),
            final(self).spec_order() == old(self).spec_order(),
            final(self).spec_network().spec_topology() == old(self).spec_network().spec_topology(),
            final(self).spec_network().spec_registry() == old(self).spec_network().spec_registry(),
            final(self).spec_network().spec_sockets().len() == old(self).spec_network().spec_sockets().len(),
            forall|k: int|
                0 <= k < final(self).spec_network().spec_events().len() ==> (#[trigger] final(self).spec_network().spec_events()[k]).timestamp.nanos > ts.nanos,
            forall|s: int|
                0 <= s < old(self).spec_network().spec_sockets().len() && !crate::net::spec_due_to(
                    old(self).spec_network(),
                    ts,
                    s,
                ) ==> (#[trigger] final(self).spec_network().spec_sockets()[s]) == old(self).spec_network().spec_sockets()[s],
            forall|s: int|
                0 <= s < old(self).spec_network().spec_sockets().len()
                    && #[trigger] crate::net::spec_due_to(old(self).spec_network(), ts, s)
                    ==> final(self).spec_network().spec_sockets()[s].recv_buf@
                    == crate::net::spec_deliver_into(
                    old(self).spec_network().spec_sockets()[s].recv_buf@,
                    old(self).spec_network().spec_sockets()[s].recv_buf.spec_capacity(),
                    crate::net::spec_event_datagrams(
                        crate::net::spec_deliveries(
                            old(self).spec_network().spec_events(),
                            ts,
                            old(self).spec_network().spec_sockets()[s].local_addr,
                        ),
                    ),
                ),
    {
        let ghost pre = *self;
        let woken = self.network.advance_to_time(ts);
        proof {
            // the port account survives delivery: liveness and owners
            // are untouched
            assert forall|k: int|
                0 <= k < self.nodes@.len() implies (#[trigger] self.nodes@[k]).free_ports
                .spec_len() + spec_live_socket_count(self.network.spec_sockets(), k) == 65535 by {
                lemma_count_pointwise(
                    self.network.spec_sockets(),
                    pre.network.spec_sockets(),
                    k,
                );
            }
            assert forall|s1: int, s2: int|
                0 <= s1 < s2 < self.network.spec_sockets().len() && (
                #[trigger] self.network.spec_sockets()[s1]).alive && (
                #[trigger] self.network.spec_sockets()[s2]).alive
                    && self.network.spec_sockets()[s1].owner
                    == self.network.spec_sockets()[s2].owner
                    implies self.network.spec_sockets()[s1].local_addr.port
                    != self.network.spec_sockets()[s2].local_addr.port by {
                assert(pre.network.spec_sockets()[s1].alive);
                assert(pre.network.spec_sockets()[s2].alive);
            }
        }
        woken
    }
}

impl Sim {
    /// A mutable borrow of the shared network — the counterpart of
    /// handing a network handle out.
    pub fn network(&mut self) -> (r: &mut Network)
        ensures
            *r == old(self).spec_network(),
            final(self).spec_network() == *final(r),
            final(self).spec_nodes() == old(self).spec_nodes(),
            final(self).spec_order() == old(self).spec_order(),
    {
        &mut self.network
    }

    /// Cut `group` off from the rest of the mesh.
    pub fn separate(&mut self, group: &Vec<IpAddr>)
        requires
            old(self).wf(),
            forall|g: IpAddr|
                group@.contains(g) ==> old(self).spec_network().spec_topology().spec_registered(g),
        ensures
            final(self).wf(),
            final(self).spec_nodes() == old(self).spec_nodes(),
            final(self).spec_order() == old(self).spec_order(),
            final(self).spec_network().spec_registry() == old(self).spec_network().spec_registry(),
            final(self).spec_network().spec_events() == old(self).spec_network().spec_events(),
            final(self).spec_network().spec_sockets() == old(self).spec_network().spec_sockets(),
            crate::topology::separate_post(
                old(self).spec_network().spec_topology(),
                final(self).spec_network().spec_topology(),
                group@,
            ),
    {
        let ghost pre = *self;
        self.network.separate(group);
        proof {
            lemma_wf_after_topology_change(pre, *self);
        }
    }

    /// Relink every ordered pair within `group`.
    pub fn repair(&mut self, group: &Vec<IpAddr>)
        requires
            old(self).wf(),
        ensures
            final(self).wf(),
            final(self).spec_nodes() == old(self).spec_nodes(),
            final(self).spec_order() == old(self).spec_order(),
            final(self).spec_network().spec_registry() == old(self).spec_network().spec_registry(),
            final(self).spec_network().spec_events() == old(self).spec_network().spec_events(),
            final(self).spec_network().spec_sockets() == old(self).spec_network().spec_sockets(),
            crate::topology::repair_post(
                old(self).spec_network().spec_topology(),
                final(self).spec_network().spec_topology(),
                group@,
            ),
    {
        let ghost pre = *self;
        self.network.repair(group);
        proof {
            lemma_wf_after_topology_change(pre, *self);
        }
    }

    /// Restore the full mesh over all registered nodes.
    pub fn repair_all(&mut self)
        requires
            old(self).wf(),
        ensures
            final(self).wf(),
            final(self).spec_nodes() == old(self).spec_nodes(),
            final(self).spec_order() == old(self).spec_order(),
            final(self).spec_network().spec_registry() == old(self).spec_network().spec_registry(),
            final(self).spec_network().spec_events() == old(self).spec_network().spec_events(),
            final(self).spec_network().spec_sockets() == old(self).spec_network().spec_sockets(),
            final(self).spec_network().spec_topology().spec_full_mesh(),
            forall|x: IpAddr|
                final(self).spec_network().spec_topology().spec_registered(x) <==> old(self).spec_network().spec_topology().spec_registered(x),
    {
        let ghost pre = *self;
        self.network.repair_all();
        proof {
            lemma_wf_after_topology_change(pre, *self);
        }
    }

    /// Drive the whole simulation: visit the nodes in ascending
    /// address order, give each an unbounded run, and repeat until a
    /// full pass makes no progress.  Counts the steps made: zero
    /// exactly when no node had anything to do; below the machine
    /// limit, every node ends idle.
    pub fn make_steps<P: TaskPoller>(&mut self, poller: &mut P) -> (r: usize)
        requires
            old(self).wf(),
        ensures
            final(self).wf(),
            r < usize::MAX ==> (forall|k: int|
                0 <= k < old(self).spec_order().len() ==> spec_node_idle(
                    *final(self),
                    #[trigger] old(self).spec_order()[k] as int,
                )),
            r == 0 <==> (forall|k: int|
                0 <= k < old(self).spec_order().len() ==> spec_node_quiet(
                    *old(self),
                    #[trigger] old(self).spec_order()[k] as int,
                )),
            // clocks only move forward, and a zero count leaves the
            // network untouched
            forall|k: int|
                0 <= k < old(self).spec_nodes().len() ==> (#[trigger] final(self).spec_nodes()[k])
                    .spec_driver().spec_time().nanos >= old(self).spec_nodes()[k].spec_driver()
                    .spec_time().nanos,
            r == 0 ==> final(self).spec_network() == old(self).spec_network(),
    {
        let snapshot = copy_indices(&self.order);
        proof {
            assert forall|j1: int, j2: int|
                0 <= j1 < j2 < snapshot@.len() implies snapshot@[j1] != snapshot@[j2] by {
                assert(spec_ip_key(self.nodes@[self.order@[j1] as int].info.ip) < spec_ip_key(
                    self.nodes@[self.order@[j2] as int].info.ip,
                ));
            }
        }
        let mut total: usize = 0;
        loop
            invariant
                self.wf(),
                snapshot@ == old(self).spec_order(),
                forall|j: int| 0 <= j < snapshot@.len() ==> #[trigger] snapshot@[j] < self.spec_nodes().len(),
                forall|j1: int, j2: int|
                    0 <= j1 < j2 < snapshot@.len() ==> snapshot@[j1] != snapshot@[j2],
                total == 0 ==> (forall|j: int|
                    0 <= j < snapshot@.len() ==> (spec_node_quiet(
                        *self,
                        #[trigger] snapshot@[j] as int,
                    ) <==> spec_node_quiet(*old(self), snapshot@[j] as int))),
                total == 0 ==> self.spec_network() == old(self).spec_network(),
                self.spec_nodes().len() >= old(self).spec_nodes().len(),
                forall|k: int|
                    0 <= k < old(self).spec_nodes().len() ==> (#[trigger] self.spec_nodes()[k])
                        .spec_driver().spec_time().nanos >= old(self).spec_nodes()[k].spec_driver()
                        .spec_time().nanos,
                (forall|j: int|
                    0 <= j < snapshot@.len() ==> spec_node_quiet(
                        *old(self),
                        #[trigger] snapshot@[j] as int,
                    )) ==> total == 0,
            ensures
                self.wf(),
                total == usize::MAX || (forall|k: int|
                    0 <= k < snapshot@.len() ==> spec_node_idle(
                        *self,
                        #[trigger] snapshot@[k] as int,
                    )),
                total == 0 <==> (forall|k: int|
                    0 <= k < snapshot@.len() ==> spec_node_quiet(
                        *old(self),
                        #[trigger] snapshot@[k] as int,
                    )),
                total == 0 ==> self.spec_network() == old(self).spec_network(),
                forall|k: int|
                    0 <= k < old(self).spec_nodes().len() ==> (#[trigger] self.spec_nodes()[k])
                        .spec_driver().spec_time().nanos >= old(self).spec_nodes()[k].spec_driver()
                        .spec_time().nanos,
            decreases usize::MAX - total,
        {
            let mut progress = false;
            let count = snapshot.len();
            let ghost total0 = total;
            for k in 0..count
                invariant
                    self.wf(),
                    count == snapshot@.len(),
                    forall|j: int|
                        0 <= j < snapshot@.len() ==> #[trigger] snapshot@[j] < self.spec_nodes().len(),
                    forall|j1: int, j2: int|
                        0 <= j1 < j2 < snapshot@.len() ==> snapshot@[j1] != snapshot@[j2],
                    total0 <= total <= usize::MAX,
                    progress ==> total > total0,
                    !progress ==> total == total0,
                    (!progress && total < usize::MAX) ==> (forall|j: int|
                        0 <= j < k ==> spec_node_idle(*self, #[trigger] snapshot@[j] as int)),
                    total == 0 ==> (forall|j: int|
                        0 <= j < snapshot@.len() ==> (spec_node_quiet(
                            *self,
                            #[trigger] snapshot@[j] as int,
                        ) <==> spec_node_quiet(*old(self), snapshot@[j] as int))),
                    total == 0 ==> self.spec_network() == old(self).spec_network(),
                    self.spec_nodes().len() >= old(self).spec_nodes().len(),
                    forall|kk: int|
                        0 <= kk < old(self).spec_nodes().len() ==> (#[trigger] self.spec_nodes()[
                            kk
                        ]).spec_driver().spec_time().nanos >= old(self).spec_nodes()[
                            kk
                        ].spec_driver().spec_time().nanos,
                    (total0 == 0 && total == 0) ==> (forall|j: int|
                        0 <= j < k ==> spec_node_quiet(
                            *old(self),
                            #[trigger] snapshot@[j] as int,
                        )),
                    ((forall|j: int|
                        0 <= j < snapshot@.len() ==> spec_node_quiet(
                            *old(self),
                            #[trigger] snapshot@[j] as int,
                        )) && total0 == 0) ==> total == 0,
            {
                let idx = snapshot[k];
                let h = NodeHandle { node: idx };
                let budget = usize::MAX - total;
                let ghost before_call = *self;
                let s = h.make_steps(self, Some(budget), poller);
                total = total + s;
                if s > 0 {
                    progress = true;
                }
                proof {
                    assert forall|kk: int|
                        0 <= kk < old(self).spec_nodes().len() implies (
                    #[trigger] self.spec_nodes()[kk]).spec_driver().spec_time().nanos >= old(
                        self,
                    ).spec_nodes()[kk].spec_driver().spec_time().nanos by {
                        assert(self.spec_nodes()[kk].spec_driver().spec_time().nanos
                            >= before_call.spec_nodes()[kk].spec_driver().spec_time().nanos);
                        assert(before_call.spec_nodes()[kk].spec_driver().spec_time().nanos
                            >= old(self).spec_nodes()[kk].spec_driver().spec_time().nanos);
                    }
                    if s == 0 && budget > 0 && !progress {
                        assert(drained_only(before_call, *self, idx as int));
                        assert(spec_node_idle(*self, idx as int));
                        assert forall|j: int|
                            0 <= j < k + 1 implies spec_node_idle(
                            *self,
                            #[trigger] snapshot@[j] as int,
                        ) by {
                            if j < k {
                                assert(spec_node_idle(before_call, snapshot@[j] as int));
                                assert(snapshot@[j] != idx);
                                assert(self.spec_nodes()[snapshot@[j] as int]
                                    == before_call.spec_nodes()[snapshot@[j] as int]);
                                assert(self.spec_network() == before_call.spec_network());
                            }
                        }
                    }
                    if s == 0 && budget > 0 {
                        // a drained pass step keeps every node as
                        // quiet as it was
                        assert(spec_node_quiet(before_call, idx as int));
                        assert forall|j: int|
                            0 <= j < snapshot@.len() implies (spec_node_quiet(
                            *self,
                            #[trigger] snapshot@[j] as int,
                        ) <==> spec_node_quiet(before_call, snapshot@[j] as int)) by {
                            if snapshot@[j] != idx {
                                assert(self.spec_nodes()[snapshot@[j] as int]
                                    == before_call.spec_nodes()[snapshot@[j] as int]);
                                assert(self.spec_network() == before_call.spec_network());
                            } else {
                                assert(self.spec_network() == before_call.spec_network());
                                assert(spec_node_quiet(*self, idx as int)) by {
                                    assert(self.spec_nodes()[idx as int].spec_runtime()
                                        .spec_queue().len() == 0);
                                    assert(self.spec_nodes()[idx as int].spec_driver()
                                        == before_call.spec_nodes()[idx as int].spec_driver());
                                }
                            }
                        }
                    }
                    if total0 == 0 && total == 0 {
                        // this call made no step, so this node was
                        // quiet from the start
                        assert(s == 0);
                        assert(budget == usize::MAX);
                        assert(spec_node_quiet(before_call, idx as int));
                        assert(spec_node_quiet(*old(self), idx as int));
                    }
                }
            }
            if !progress {
                proof {
                    if total == 0 {
                        assert forall|j: int|
                            0 <= j < snapshot@.len() implies spec_node_quiet(
                            *old(self),
                            #[trigger] snapshot@[j] as int,
                        ) by {}
                    }
                }
                break ;
            }
        }
        total
    }
}

/// A change confined to the network's topology preserves the
/// simulation's well-formedness, as long as the registered node set
/// is kept.
proof fn lemma_wf_after_topology_change(pre: Sim, post: Sim)
    requires
        pre.wf(),
        post.nodes@ == pre.nodes@,
        post.order@ == pre.order@,
        post.network.wf(),
        post.network.spec_registry() == pre.network.spec_registry(),
        post.network.spec_sockets() == pre.network.spec_sockets(),
        post.network.spec_events() == pre.network.spec_events(),
        forall|x: IpAddr|
            post.network.spec_topology().spec_registered(x) <==> pre.network.spec_topology()
                .spec_registered(x),
    ensures
        post.wf(),
{
    assert forall|k: int, j: int|
        #![trigger post.nodes@[k].time_driver.spec_pending()[j]]
        0 <= k < post.nodes@.len() && 0 <= j < post.nodes@[k].time_driver.spec_pending().len()
            implies post.nodes@[k].time_driver.spec_slots()[
            post.nodes@[k].time_driver.spec_pending()[j] as int
        ].timestamp.nanos >= post.nodes@[k].time_driver.spec_time().nanos by {
        assert(pre.nodes@[k].time_driver.spec_slots()[
            pre.nodes@[k].time_driver.spec_pending()[j] as int
        ].timestamp.nanos >= pre.nodes@[k].time_driver.spec_time().nanos);
    }
}

/// For every node of a well-formed simulation, the free ports and the
/// live sockets together account for all 65535 ports.
pub proof fn lemma_port_accounting(sim: Sim, n: int)
    requires
        sim.wf(),
        0 <= n < sim.spec_nodes().len(),
    ensures
        sim.spec_nodes()[n].spec_ports().spec_len() + spec_live_socket_count(
            sim.spec_network().spec_sockets(),
            n,
        ) == 65535,
{
}

/// A copy of a vector of indices.
fn copy_indices(v: &Vec<usize>) -> (r: Vec<usize>)
    ensures
        r@ == v@,
{
    let mut r: Vec<usize> = Vec::new();
    let n = v.len();
    for i in 0..n
        invariant
            n == v@.len(),
            r@ == v@.take(i as int),
    {
        r.push(v[i]);
        proof {
            assert(v@.take(i as int + 1) =~= v@.take(i as int).push(v@[i as int]));
        }
    }
    proof {
        assert(v@.take(n as int) =~= v@);
    }
    r
}

/// The address a bind candidate resolves to: unspecified and loopback
/// addresses stand for the node's own.
pub open spec fn spec_bind_ip(node_ip: IpAddr, requested: IpAddr) -> IpAddr {
    if spec_is_unspecified(requested) || spec_is_loopback(requested) {
        node_ip
    } else {
        requested
    }
}

/// Whether a candidate address may be bound on a node with address
/// `node_ip`: not multicast, and resolving to the node's own address.
pub open spec fn spec_bind_admissible(node_ip: IpAddr, addr: SockAddr) -> bool {
    &&& !spec_is_multicast(addr.ip)
    &&& spec_bind_ip(node_ip, addr.ip) == node_ip
}

impl UdpSocket {
    /// The bound address of this socket.
    pub fn local_addr(&self) -> (r: SockAddr)
        ensures
            r == self.addr,
    {
        self.addr
    }

    /// Bind a UDP socket on `node` at `addr`.  A multicast address,
    /// an address of another host, an unavailable port, or an
    /// exhausted port pool fail with `AddrInUse`; an unspecified or
    /// loopback address stands for the node's own, and port zero asks
    /// for the smallest free port.  Binding succeeds exactly when the
    /// address is admissible and the port is to be had.
    pub fn bind(sim: &mut Sim, node: NodeHandle, addr: SockAddr) -> (r: Result<
        UdpSocket,
        SimError,
    >)
        requires
            old(sim).wf(),
            old(sim).spec_node_valid(node),
        ensures
            final(sim).wf(),
            ({
                let node_ip = old(sim).spec_nodes()[node.node as int].spec_info().ip;
                let ports = old(sim).spec_nodes()[node.node as int].spec_ports();
                &&& (r is Ok ==> spec_bind_admissible(node_ip, addr))
                &&& (r is Ok && addr.port != 0 ==> ports.spec_contains(addr.port))
                &&& (r is Ok && addr.port == 0 ==> ports.spec_len() > 0)
                &&& (spec_bind_admissible(node_ip, addr) && addr.port != 0
                    && ports.spec_contains(addr.port) ==> r is Ok)
                &&& (spec_bind_admissible(node_ip, addr) && addr.port == 0 && ports.spec_len() > 0
                    ==> r is Ok)
                &&& (r is Err ==> r == Err::<UdpSocket, SimError>(SimError::AddrInUse)
                    && final(sim).spec_network() == old(sim).spec_network()
                    && final(sim).spec_nodes() == old(sim).spec_nodes()
                    && final(sim).spec_order() == old(sim).spec_order())
                &&& (r is Ok ==> {
                    let sock = r->Ok_0;
                    let port = sock.addr.port;
                    &&& final(sim).spec_socket_valid(sock)
                    &&& sock.node == node.node
                    &&& sock.addr.ip == node_ip
                    &&& port >= 1
                    &&& (addr.port != 0 ==> port == addr.port)
                    &&& (addr.port == 0 ==> (forall|q: u16|
                        ports.spec_contains(q) ==> port <= q))
                    &&& ports.spec_contains(port)
                    &&& !old(sim).spec_network().spec_addr_registered(sock.addr)
                    &&& sock.slot == old(sim).spec_network().spec_sockets().len()
                    &&& final(sim).spec_network().spec_sockets().len() == old(sim).spec_network().spec_sockets().len() + 1
                    &&& final(sim).spec_network().spec_sockets()[sock.slot as int].recv_buf@
                        =~= Seq::<crate::datagram::Datagram>::empty()
                    &&& final(sim).spec_network().spec_sockets()[sock.slot as int].recv_buf
                        .spec_capacity() == old(sim).spec_nodes()[
                        node.node as int
                    ].spec_info().udp_recv_buffer_size
                    &&& (forall|t: int|
                        0 <= t < old(sim).spec_network().spec_sockets().len()
                            ==> final(sim).spec_network().spec_sockets()[t] == old(sim).spec_network().spec_sockets()[t])
                    &&& final(sim).spec_network().spec_events() == old(sim).spec_network().spec_events()
                    &&& final(sim).spec_network().spec_topology() == old(sim).spec_network().spec_topology()
                    &&& final(sim).spec_nodes().len() == old(sim).spec_nodes().len()
                    &&& (forall|k: int|
                        0 <= k < old(sim).spec_nodes().len() && k != node.node as int
                            ==> final(sim).spec_nodes()[k] == old(sim).spec_nodes()[k])
                    &&& final(sim).spec_nodes()[node.node as int].spec_runtime() == old(sim).spec_nodes()[node.node as int].spec_runtime()
                    &&& final(sim).spec_nodes()[node.node as int].spec_driver() == old(sim).spec_nodes()[node.node as int].spec_driver()
                    &&& final(sim).spec_nodes()[node.node as int].spec_info() == old(sim).spec_nodes()[node.node as int].spec_info()
                    &&& final(sim).spec_nodes()[node.node as int].spec_ports().spec_len()
                        == ports.spec_len() - 1
                    &&& (forall|q: u16|
                        final(sim).spec_nodes()[node.node as int].spec_ports().spec_contains(q)
                            <==> ports.spec_contains(q) && q != port)
                    &&& final(sim).spec_order() == old(sim).spec_order()
                    &&& final(sim).spec_network().spec_registry() == old(sim).spec_network().spec_registry().push(
                        (sock.addr, crate::net::SocketData::Udp(sock.slot)),
                    )
                })
            }),
    {
        let n = node.node;
        let info = node.info(sim);
        if addr.ip.is_multicast() {
            return Err(SimError::AddrInUse);
        }
        let eff: IpAddr = if addr.ip.is_unspecified() || addr.ip.is_loopback() {
            info.ip
        } else {
            addr.ip
        };
        if !(eff == info.ip) {
            return Err(SimError::AddrInUse);
        }
        let req: Option<u16> = if addr.port == 0 {
            None
        } else {
            Some(addr.port)
        };
        let ghost pre = *sim;
        let got = sim.nodes[n].free_ports.take_port(req);
        let port = match got {
            None => {
                proof {
                    assert(sim.spec_nodes()[n as int].spec_runtime() == pre.spec_nodes()[
                        n as int
                    ].spec_runtime());
                    assert(sim.spec_nodes()[n as int].spec_driver() == pre.spec_nodes()[
                        n as int
                    ].spec_driver());
                    assert(sim.spec_nodes()[n as int].spec_info() == pre.spec_nodes()[
                        n as int
                    ].spec_info());
                    assert(sim.spec_nodes()[n as int].spec_ports() == pre.spec_nodes()[
                        n as int
                    ].spec_ports());
                    assert(sim.nodes@[n as int] =~= pre.nodes@[n as int]);
                    assert(sim.nodes@ =~= pre.nodes@);
                    lemma_wf_preserved_eq(pre, *sim);
                }
                return Err(SimError::AddrInUse);
            },
            Some(p) => p,
        };
        let sockaddr = SockAddr { ip: eff, port };
        let ghost mid = *sim;
        match sim.network.register_upd_socket(n, sockaddr, info.udp_recv_buffer_size) {
            Ok(slot) => {
                proof {
                    lemma_wf_after_bind(pre, mid, *sim, n as int, port, slot);
                }
                Ok(UdpSocket { slot, node: n, addr: sockaddr })
            },
            Err(_) => {
                // a registered address at this node's own IP would
                // mean a live socket whose port was still free —
                // impossible, so this arm is never reached
                proof {
                    assert(got == Some(port));
                    assert(pre.spec_nodes()[n as int].spec_ports().spec_contains(port));
                    assert(mid.network == pre.network);
                    assert(mid.network.spec_addr_registered(sockaddr));
                    let j = choose|j: int|
                        0 <= j < mid.network.spec_registry().len() && (
                        #[trigger] mid.network.spec_registry()[j]).0 == sockaddr;
                    assert(mid.network.spec_registry()[j] == pre.network.spec_registry()[j]);
                    let sd = mid.network.spec_registry()[j].1;
                    assert(sd is Udp);
                    let t = sd->Udp_0;
                    assert(mid.network.spec_sockets()[t as int].alive);
                    assert(mid.network.spec_sockets()[t as int].local_addr == sockaddr);
                    assert(pre.network.spec_sockets()[t as int].alive);
                    let o = pre.network.spec_sockets()[t as int].owner;
                    assert(pre.network.spec_sockets()[t as int].local_addr.ip == pre.nodes@[
                        o as int
                    ].info.ip);
                    assert(pre.nodes@[o as int].info.ip == pre.nodes@[n as int].info.ip);
                    if o != n {
                        if o < n {
                            assert(pre.nodes@[o as int].info.ip != pre.nodes@[n as int].info.ip);
                        } else {
                            assert(pre.nodes@[n as int].info.ip != pre.nodes@[o as int].info.ip);
                        }
                    }
                    assert(o == n);
                    assert(!pre.nodes@[n as int].free_ports.spec_contains(port));
                    assert(pre.nodes@[n as int].free_ports.spec_contains(port));
                    assert(false);
                }
                sim.return_port_on(n, port);
                Err(SimError::AddrInUse)
            },
        }
    }

    /// Send `buf` from this socket to `target`.  A multicast or
    /// unspecified target fails with `InvalidInput`; a loopback
    /// target stands for the node's own address.  Otherwise the send
    /// succeeds with the number of bytes taken — the payload is
    /// truncated to the node's send buffer size — whether or not the
    /// network delivers the packet.
    pub fn send_to(&self, sim: &mut Sim, buf: &[u8], target: SockAddr) -> (r: Result<
        usize,
        SimError,
    >)
        requires
            old(sim).wf(),
            old(sim).spec_socket_valid(*self),
            old(sim).spec_nodes()[self.node as int].spec_driver().spec_time().nanos <= u64::MAX
                - 1000000000,
        ensures
            final(sim).wf(),
            final(sim).spec_nodes() == old(sim).spec_nodes(),
            final(sim).spec_order() == old(sim).spec_order(),
            final(sim).spec_network().spec_registry() == old(sim).spec_network().spec_registry(),
            final(sim).spec_network().spec_sockets() == old(sim).spec_network().spec_sockets(),
            final(sim).spec_network().spec_topology() == old(sim).spec_network().spec_topology(),
            final(sim).spec_socket_valid(*self),
            (r is Err <==> spec_is_multicast(target.ip) || spec_is_unspecified(target.ip)),
            r is Err ==> r == Err::<usize, SimError>(SimError::InvalidInput) && final(sim).spec_network().spec_events() == old(sim).spec_network().spec_events(),
            r is Ok ==> ({
                let send_cap = old(sim).spec_nodes()[self.node as int].spec_info()
                    .udp_send_buffer_size;
                let sent = if buf@.len() <= send_cap {
                    buf@.len() as int
                } else {
                    send_cap as int
                };
                let dest = SockAddr {
                    ip: (if spec_is_loopback(target.ip) {
                        old(sim).spec_nodes()[self.node as int].spec_info().ip
                    } else {
                        target.ip
                    }),
                    port: target.port,
                };
                let now = old(sim).spec_nodes()[self.node as int].spec_driver().spec_time();
                let events0 = old(sim).spec_network().spec_events();
                let events1 = final(sim).spec_network().spec_events();
                let topo = old(sim).spec_network().spec_topology();
                &&& r == Ok::<usize, SimError>(sent as usize)
                &&& (events1 == events0 || (events1.len() == events0.len() + 1 && events1
                    == events0.push(events1.last()) && events1.last().sender == self.addr
                    && events1.last().receiver == dest && events1.last().data@ == buf@.take(sent)))
                &&& (!old(sim).spec_network().spec_udp_registered(dest) ==> events1 == events0)
                &&& (topo.spec_hops(self.addr.ip, dest.ip) is None ==> events1 == events0)
                &&& ((self.addr == dest && old(sim).spec_network().spec_udp_registered(dest)
                    && topo.spec_hops(self.addr.ip, dest.ip) is Some) ==> (events1.len()
                    == events0.len() + 1 && events1.last().timestamp == now))
            }),
    {
        if target.ip.is_multicast() || target.ip.is_unspecified() {
            return Err(SimError::InvalidInput);
        }
        let n = self.node;
        let info = node_info_of(sim, n);
        let dest_ip: IpAddr = if target.ip.is_loopback() {
            info.ip
        } else {
            target.ip
        };
        let dest = SockAddr { ip: dest_ip, port: target.port };
        let sent: usize = if buf.len() <= info.udp_send_buffer_size {
            buf.len()
        } else {
            info.udp_send_buffer_size
        };
        let payload = vstd::slice::slice_subrange(buf, 0, sent);
        let now = sim.nodes_ref(n).time_driver.time();
        let ghost pre = *sim;
        proof {
            assert(pre.network.spec_udp_registered(self.addr)) by {
                let j = choose|j: int|
                    0 <= j < pre.network.spec_registry().len()
                        && #[trigger] pre.network.spec_registry()[j] == (
                    self.addr,
                    crate::net::SocketData::Udp(self.slot),
                    );
                assert((pre.network.spec_registry()[j]).0 == self.addr);
                assert(pre.network.spec_registry()[j].1 is Udp);
            }
        }
        let _dropped = sim.network.send_upd_packet(self.addr, dest, payload, now);
        proof {
            lemma_wf_after_send(pre, *sim);
        }
        Ok(sent)
    }

    /// Take the oldest datagram out of this socket's receive buffer,
    /// truncated to `max_len` bytes; `None` when the buffer is empty.
    pub fn recv_from(&self, sim: &mut Sim, max_len: usize) -> (r: Option<(Vec<u8>, SockAddr)>)
        requires
            old(sim).wf(),
            old(sim).spec_socket_valid(*self),
        ensures
            final(sim).wf(),
            final(sim).spec_nodes() == old(sim).spec_nodes(),
            final(sim).spec_network().spec_events() == old(sim).spec_network().spec_events(),
            final(sim).spec_network().spec_topology() == old(sim).spec_network().spec_topology(),
            final(sim).spec_socket_valid(*self),
            ({
                let buf0 = old(sim).spec_network().spec_sockets()[self.slot as int].recv_buf@;
                let buf1 = final(sim).spec_network().spec_sockets()[self.slot as int].recv_buf@;
                &&& (r is None <==> buf0.len() == 0)
                &&& (r is None ==> final(sim).spec_network() == old(sim).spec_network())
                &&& (r is Some ==> {
                    &&& buf1 == buf0.drop_first()
                    &&& (r->0).1 == buf0[0].from
                    &&& (r->0).0@ == buf0[0].data@.take(
                        if buf0[0].data@.len() <= max_len as int {
                            buf0[0].data@.len() as int
                        } else {
                            max_len as int
                        },
                    )
                })
            }),
    {
        let ghost pre = *sim;
        let got = sim.network.socket_take_datagram(self.slot);
        proof {
            lemma_wf_after_buffer_change(pre, *sim, self.slot as int);
        }
        match got {
            None => None,
            Some(d) => {
                let mut data = d.data;
                if data.len() > max_len {
                    data.truncate(max_len);
                }
                proof {
                    assert(data@ =~= pre.network.spec_sockets()[self.slot as int].recv_buf@[
                        0
                    ].data@.take(
                        if pre.network.spec_sockets()[self.slot as int].recv_buf@[0].data@.len()
                            <= max_len as int {
                            pre.network.spec_sockets()[self.slot as int].recv_buf@[0].data@.len()
                                as int
                        } else {
                            max_len as int
                        },
                    ));
                }
                Some((data, d.from))
            },
        }
    }

    /// Register `task` to be woken when a datagram arrives at this
    /// socket.
    pub fn register_recv_waiter(&self, sim: &mut Sim, task: TaskId)
        requires
            old(sim).wf(),
            old(sim).spec_socket_valid(*self),
        ensures
            final(sim).wf(),
            final(sim).spec_nodes() == old(sim).spec_nodes(),
            final(sim).spec_network().spec_events() == old(sim).spec_network().spec_events(),
            final(sim).spec_socket_valid(*self),
            final(sim).spec_network().spec_sockets()[self.slot as int].recv_waiters@ == old(sim).spec_network().spec_sockets()[self.slot as int].recv_waiters@.push(task),
    {
        let ghost pre = *sim;
        sim.network.socket_push_waiter(self.slot, task);
        proof {
            lemma_wf_after_buffer_change(pre, *sim, self.slot as int);
        }
    }

    /// Close the socket: unbind its address and return its port to
    /// the node's pool.
    pub fn close(self, sim: &mut Sim)
        requires
            old(sim).wf(),
            old(sim).spec_socket_valid(self),
        ensures
            final(sim).wf(),
            final(sim).spec_nodes().len() == old(sim).spec_nodes().len(),
            final(sim).spec_order() == old(sim).spec_order(),
            final(sim).spec_network().spec_events() == old(sim).spec_network().spec_events(),
            final(sim).spec_network().spec_topology() == old(sim).spec_network().spec_topology(),
            !final(sim).spec_network().spec_addr_registered(self.addr),
            forall|q: u16|
                final(sim).spec_nodes()[self.node as int].spec_ports().spec_contains(q) <==> old(sim).spec_nodes()[self.node as int].spec_ports().spec_contains(q) || q
                    == self.addr.port,
            // nothing else moves: other nodes, this node's scheduler,
            // clock and description, every other socket, and every
            // other bound address are as they were
            forall|k: int|
                0 <= k < old(sim).spec_nodes().len() && k != self.node as int
                    ==> final(sim).spec_nodes()[k] == old(sim).spec_nodes()[k],
            final(sim).spec_nodes()[self.node as int].spec_runtime() == old(sim).spec_nodes()[
                self.node as int
            ].spec_runtime(),
            final(sim).spec_nodes()[self.node as int].spec_driver() == old(sim).spec_nodes()[
                self.node as int
            ].spec_driver(),
            final(sim).spec_nodes()[self.node as int].spec_info() == old(sim).spec_nodes()[
                self.node as int
            ].spec_info(),
            final(sim).spec_nodes()[self.node as int].spec_ports().spec_len() == old(sim).spec_nodes()[self.node as int].spec_ports().spec_len() + 1,
            final(sim).spec_network().spec_sockets().len() == old(sim).spec_network().spec_sockets().len(),
            forall|t: int|
                0 <= t < old(sim).spec_network().spec_sockets().len() && t != self.slot as int
                    ==> final(sim).spec_network().spec_sockets()[t] == old(sim).spec_network().spec_sockets()[t],
            !final(sim).spec_network().spec_sockets()[self.slot as int].alive,
            forall|a: SockAddr|
                final(sim).spec_network().spec_addr_registered(a) <==> old(sim).spec_network().spec_addr_registered(a) && a != self.addr,
    {
        let ghost pre = *sim;
        sim.network.deregister_socket(self.slot);
        let ghost mid = *sim;
        proof {
            assert(!pre.nodes@[self.node as int].free_ports.spec_contains(self.addr.port));
            assert(mid.nodes@ == pre.nodes@);
            assert(self.addr.port >= 1);
        }
        sim.return_port_on(self.node, self.addr.port);
        proof {
            lemma_wf_after_close(pre, mid, *sim, self.node as int, self.slot as int);
        }
    }
}

/// The description of the node in slot `n`.
fn node_info_of(sim: &Sim, n: usize) -> (r: NodeInfo)
    requires
        n < sim.spec_nodes().len(),
    ensures
        r == sim.spec_nodes()[n as int].spec_info(),
{
    *&sim.nodes_ref(n).info
}

/// Equal views mean equal well-formedness.
proof fn lemma_wf_preserved_eq(pre: Sim, post: Sim)
    requires
        pre.wf(),
        post.nodes@ == pre.nodes@,
        post.order@ == pre.order@,
        post.network == pre.network,
    ensures
        post.wf(),
{
    assert forall|k: int, j: int|
        #![trigger post.nodes@[k].time_driver.spec_pending()[j]]
        0 <= k < post.nodes@.len() && 0 <= j < post.nodes@[k].time_driver.spec_pending().len()
            implies post.nodes@[k].time_driver.spec_slots()[
            post.nodes@[k].time_driver.spec_pending()[j] as int
        ].timestamp.nanos >= post.nodes@[k].time_driver.spec_time().nanos by {
        assert(pre.nodes@[k].time_driver.spec_slots()[
            pre.nodes@[k].time_driver.spec_pending()[j] as int
        ].timestamp.nanos >= pre.nodes@[k].time_driver.spec_time().nanos);
    }
}

/// A send touches only the event queue and the generator: the rest of
/// the simulation, and so its well-formedness, is untouched.
proof fn lemma_wf_after_send(pre: Sim, post: Sim)
    requires
        pre.wf(),
        post.nodes@ == pre.nodes@,
        post.order@ == pre.order@,
        post.network.wf(),
        post.network.spec_registry() == pre.network.spec_registry(),
        post.network.spec_sockets() == pre.network.spec_sockets(),
        post.network.spec_topology() == pre.network.spec_topology(),
    ensures
        post.wf(),
{
    assert forall|k: int, j: int|
        #![trigger post.nodes@[k].time_driver.spec_pending()[j]]
        0 <= k < post.nodes@.len() && 0 <= j < post.nodes@[k].time_driver.spec_pending().len()
            implies post.nodes@[k].time_driver.spec_slots()[
            post.nodes@[k].time_driver.spec_pending()[j] as int
        ].timestamp.nanos >= post.nodes@[k].time_driver.spec_time().nanos by {
        assert(pre.nodes@[k].time_driver.spec_slots()[
            pre.nodes@[k].time_driver.spec_pending()[j] as int
        ].timestamp.nanos >= pre.nodes@[k].time_driver.spec_time().nanos);
    }
}

/// A change confined to one socket's buffer or waiter list — keeping
/// its address, owner and liveness — preserves well-formedness.
proof fn lemma_wf_after_buffer_change(pre: Sim, post: Sim, s: int)
    requires
        pre.wf(),
        post.nodes@ == pre.nodes@,
        post.order@ == pre.order@,
        post.network.wf(),
        post.network.spec_registry() == pre.network.spec_registry(),
        post.network.spec_topology() == pre.network.spec_topology(),
        post.network.spec_sockets().len() == pre.network.spec_sockets().len(),
        0 <= s < pre.network.spec_sockets().len(),
        forall|t: int|
            0 <= t < pre.network.spec_sockets().len() && t != s
                ==> post.network.spec_sockets()[t] == pre.network.spec_sockets()[t],
        post.network.spec_sockets()[s].local_addr == pre.network.spec_sockets()[s].local_addr,
        post.network.spec_sockets()[s].owner == pre.network.spec_sockets()[s].owner,
        post.network.spec_sockets()[s].alive == pre.network.spec_sockets()[s].alive,
    ensures
        post.wf(),
{
    assert forall|k: int, j: int|
        #![trigger post.nodes@[k].time_driver.spec_pending()[j]]
        0 <= k < post.nodes@.len() && 0 <= j < post.nodes@[k].time_driver.spec_pending().len()
            implies post.nodes@[k].time_driver.spec_slots()[
            post.nodes@[k].time_driver.spec_pending()[j] as int
        ].timestamp.nanos >= post.nodes@[k].time_driver.spec_time().nanos by {
        assert(pre.nodes@[k].time_driver.spec_slots()[
            pre.nodes@[k].time_driver.spec_pending()[j] as int
        ].timestamp.nanos >= pre.nodes@[k].time_driver.spec_time().nanos);
    }
    assert forall|k: int|
        0 <= k < post.nodes@.len() implies (#[trigger] post.nodes@[k]).free_ports.spec_len()
        + spec_live_socket_count(post.network.spec_sockets(), k) == 65535 by {
        lemma_count_pointwise(post.network.spec_sockets(), pre.network.spec_sockets(), k);
    }
    assert forall|t: int|
        0 <= t < post.network.spec_sockets().len() && (
        #[trigger] post.network.spec_sockets()[t]).alive implies {
        &&& post.network.spec_sockets()[t].owner < post.nodes@.len()
        &&& post.network.spec_sockets()[t].local_addr.ip == post.nodes@[
            post.network.spec_sockets()[t].owner as int
        ].info.ip
        &&& post.network.spec_sockets()[t].local_addr.port >= 1
        &&& !post.nodes@[post.network.spec_sockets()[t].owner as int].free_ports.spec_contains(
            post.network.spec_sockets()[t].local_addr.port,
        )
    } by {
        assert(pre.network.spec_sockets()[t].alive);
    }
    assert forall|s1: int, s2: int|
        0 <= s1 < s2 < post.network.spec_sockets().len() && (
        #[trigger] post.network.spec_sockets()[s1]).alive && (
        #[trigger] post.network.spec_sockets()[s2]).alive
            && post.network.spec_sockets()[s1].owner == post.network.spec_sockets()[s2].owner
            implies post.network.spec_sockets()[s1].local_addr.port
            != post.network.spec_sockets()[s2].local_addr.port by {
        assert(pre.network.spec_sockets()[s1].alive);
        assert(pre.network.spec_sockets()[s2].alive);
    }
}

/// Binding takes a free port and brings one live socket into being:
/// the port account shifts by one on each side and balances again.
proof fn lemma_wf_after_bind(pre: Sim, mid: Sim, post: Sim, n: int, port: u16, slot: usize)
    requires
        pre.wf(),
        0 <= n < pre.nodes@.len(),
        // `mid`: the port was taken out of node `n`'s pool
        mid.nodes@.len() == pre.nodes@.len(),
        forall|k: int| 0 <= k < pre.nodes@.len() && k != n ==> mid.nodes@[k] == pre.nodes@[k],
        mid.nodes@[n].runtime == pre.nodes@[n].runtime,
        mid.nodes@[n].time_driver == pre.nodes@[n].time_driver,
        mid.nodes@[n].info == pre.nodes@[n].info,
        mid.nodes@[n].free_ports.wf(),
        mid.nodes@[n].free_ports.spec_len() == pre.nodes@[n].free_ports.spec_len() - 1,
        forall|q: u16|
            mid.nodes@[n].free_ports.spec_contains(q) <==> pre.nodes@[n].free_ports.spec_contains(
                q,
            ) && q != port,
        pre.nodes@[n].free_ports.spec_contains(port),
        mid.network == pre.network,
        mid.order@ == pre.order@,
        // `post`: the socket was registered
        post.nodes@ == mid.nodes@,
        post.order@ == mid.order@,
        post.network.wf(),
        post.network.spec_topology() == pre.network.spec_topology(),
        slot == pre.network.spec_sockets().len(),
        post.network.spec_sockets().len() == pre.network.spec_sockets().len() + 1,
        post.network.spec_sockets() == pre.network.spec_sockets().push(
            post.network.spec_sockets()[slot as int],
        ),
        post.network.spec_sockets()[slot as int].alive,
        post.network.spec_sockets()[slot as int].owner == n,
        post.network.spec_sockets()[slot as int].local_addr == (SockAddr {
            ip: pre.nodes@[n].info.ip,
            port,
        }),
        post.network.spec_registry() == pre.network.spec_registry().push(
            (post.network.spec_sockets()[slot as int].local_addr, crate::net::SocketData::Udp(slot)),
        ),
        port >= 1,
    ensures
        post.wf(),
{
    let sv = post.network.spec_sockets()[slot as int];
    assert forall|k: int| 0 <= k < post.nodes@.len() implies (#[trigger] post.nodes@[k]).runtime.wf()
        && post.nodes@[k].time_driver.wf() && post.nodes@[k].free_ports.wf() by {
        if k != n {
            assert(post.nodes@[k] == pre.nodes@[k]);
        }
    }
    assert forall|i: int, j: int|
        0 <= i < j < post.nodes@.len() implies (#[trigger] post.nodes@[i]).info.ip != (
    #[trigger] post.nodes@[j]).info.ip by {
        assert(post.nodes@[i].info == pre.nodes@[i].info);
        assert(post.nodes@[j].info == pre.nodes@[j].info);
    }
    assert forall|k: int|
        0 <= k < post.nodes@.len() implies post.network.spec_topology().spec_registered(
        (#[trigger] post.nodes@[k]).info.ip,
    ) by {
        assert(post.nodes@[k].info == pre.nodes@[k].info);
    }
    assert forall|k1: int, k2: int|
        0 <= k1 < k2 < post.order@.len() implies spec_ip_key(
        post.nodes@[#[trigger] post.order@[k1] as int].info.ip,
    ) < spec_ip_key(post.nodes@[#[trigger] post.order@[k2] as int].info.ip) by {
        assert(post.order@[k1] == pre.order@[k1]);
        assert(post.order@[k2] == pre.order@[k2]);
        assert(post.nodes@[post.order@[k1] as int].info == pre.nodes@[
            pre.order@[k1] as int
        ].info);
        assert(post.nodes@[post.order@[k2] as int].info == pre.nodes@[
            pre.order@[k2] as int
        ].info);
    }
    assert forall|k: int, j: int|
        #![trigger post.nodes@[k].time_driver.spec_pending()[j]]
        0 <= k < post.nodes@.len() && 0 <= j < post.nodes@[k].time_driver.spec_pending().len()
            implies post.nodes@[k].time_driver.spec_slots()[
            post.nodes@[k].time_driver.spec_pending()[j] as int
        ].timestamp.nanos >= post.nodes@[k].time_driver.spec_time().nanos by {
        assert(post.nodes@[k].time_driver == pre.nodes@[k].time_driver);
        assert(pre.nodes@[k].time_driver.spec_slots()[
            pre.nodes@[k].time_driver.spec_pending()[j] as int
        ].timestamp.nanos >= pre.nodes@[k].time_driver.spec_time().nanos);
    }
    assert forall|k: int|
        0 <= k < post.nodes@.len() implies (#[trigger] post.nodes@[k]).free_ports.spec_len()
        + spec_live_socket_count(post.network.spec_sockets(), k) == 65535 by {
        lemma_count_push(pre.network.spec_sockets(), sv, k);
        if k != n {
            assert(post.nodes@[k] == pre.nodes@[k]);
        }
    }
    assert forall|t: int|
        0 <= t < post.network.spec_sockets().len() && (
        #[trigger] post.network.spec_sockets()[t]).alive implies {
        &&& post.network.spec_sockets()[t].owner < post.nodes@.len()
        &&& post.network.spec_sockets()[t].local_addr.ip == post.nodes@[
            post.network.spec_sockets()[t].owner as int
        ].info.ip
        &&& post.network.spec_sockets()[t].local_addr.port >= 1
        &&& !post.nodes@[post.network.spec_sockets()[t].owner as int].free_ports.spec_contains(
            post.network.spec_sockets()[t].local_addr.port,
        )
    } by {
        if t < slot {
            assert(post.network.spec_sockets()[t] == pre.network.spec_sockets()[t]);
            let o = pre.network.spec_sockets()[t].owner;
            assert(post.nodes@[o as int].info == pre.nodes@[o as int].info);
            if o == n {
                assert(!pre.nodes@[n].free_ports.spec_contains(
                    pre.network.spec_sockets()[t].local_addr.port,
                ));
            } else {
                assert(post.nodes@[o as int] == pre.nodes@[o as int]);
            }
        } else {
            assert(post.nodes@[n].info == pre.nodes@[n].info);
        }
    }
    assert forall|s1: int, s2: int|
        0 <= s1 < s2 < post.network.spec_sockets().len() && (
        #[trigger] post.network.spec_sockets()[s1]).alive && (
        #[trigger] post.network.spec_sockets()[s2]).alive
            && post.network.spec_sockets()[s1].owner == post.network.spec_sockets()[s2].owner
            implies post.network.spec_sockets()[s1].local_addr.port
            != post.network.spec_sockets()[s2].local_addr.port by {
        if s2 < slot {
            assert(post.network.spec_sockets()[s1] == pre.network.spec_sockets()[s1]);
            assert(post.network.spec_sockets()[s2] == pre.network.spec_sockets()[s2]);
        } else {
            assert(post.network.spec_sockets()[s1] == pre.network.spec_sockets()[s1]);
            if post.network.spec_sockets()[s1].owner == n {
                assert(!pre.nodes@[n].free_ports.spec_contains(
                    pre.network.spec_sockets()[s1].local_addr.port,
                ));
            }
        }
    }
    assert forall|i: int|
        0 <= i < post.network.spec_registry().len() implies (
    #[trigger] post.network.spec_registry()[i]).1 is Udp by {
        if i < pre.network.spec_registry().len() {
            assert(post.network.spec_registry()[i] == pre.network.spec_registry()[i]);
        }
    }
}

/// Closing a socket returns its port and retires its slot: the port
/// account shifts by one on each side and balances again.
proof fn lemma_wf_after_close(pre: Sim, mid: Sim, post: Sim, n: int, s: int)
    requires
        pre.wf(),
        0 <= n < pre.nodes@.len(),
        0 <= s < pre.network.spec_sockets().len(),
        pre.network.spec_sockets()[s].alive,
        pre.network.spec_sockets()[s].owner == n,
        // `mid`: the socket was unbound and its slot retired
        mid.nodes@ == pre.nodes@,
        mid.order@ == pre.order@,
        mid.network.wf(),
        mid.network.spec_topology() == pre.network.spec_topology(),
        mid.network.spec_sockets().len() == pre.network.spec_sockets().len(),
        forall|t: int|
            0 <= t < pre.network.spec_sockets().len() && t != s
                ==> mid.network.spec_sockets()[t] == pre.network.spec_sockets()[t],
        !mid.network.spec_sockets()[s].alive,
        mid.network.spec_sockets()[s].owner == n,
        mid.network.spec_registry() == mid.network.spec_registry(),
        forall|i: int|
            0 <= i < mid.network.spec_registry().len() ==> pre.network.spec_registry().contains(
                #[trigger] mid.network.spec_registry()[i],
            ),
        // `post`: the port went back into node `n`'s pool
        post.network == mid.network,
        post.order@ == mid.order@,
        post.nodes@.len() == mid.nodes@.len(),
        forall|k: int| 0 <= k < mid.nodes@.len() && k != n ==> post.nodes@[k] == mid.nodes@[k],
        post.nodes@[n].runtime == mid.nodes@[n].runtime,
        post.nodes@[n].time_driver == mid.nodes@[n].time_driver,
        post.nodes@[n].info == mid.nodes@[n].info,
        post.nodes@[n].free_ports.wf(),
        post.nodes@[n].free_ports.spec_len() == pre.nodes@[n].free_ports.spec_len() + 1,
        forall|q: u16|
            post.nodes@[n].free_ports.spec_contains(q) <==> pre.nodes@[n].free_ports.spec_contains(
                q,
            ) || q == pre.network.spec_sockets()[s].local_addr.port,
    ensures
        post.wf(),
{
    let port = pre.network.spec_sockets()[s].local_addr.port;
    assert forall|k: int| 0 <= k < post.nodes@.len() implies (#[trigger] post.nodes@[k]).runtime.wf()
        && post.nodes@[k].time_driver.wf() && post.nodes@[k].free_ports.wf() by {
        if k != n {
            assert(post.nodes@[k] == pre.nodes@[k]);
        }
    }
    assert forall|i: int, j: int|
        0 <= i < j < post.nodes@.len() implies (#[trigger] post.nodes@[i]).info.ip != (
    #[trigger] post.nodes@[j]).info.ip by {
        assert(post.nodes@[i].info == pre.nodes@[i].info);
        assert(post.nodes@[j].info == pre.nodes@[j].info);
    }
    assert forall|k: int|
        0 <= k < post.nodes@.len() implies post.network.spec_topology().spec_registered(
        (#[trigger] post.nodes@[k]).info.ip,
    ) by {
        assert(post.nodes@[k].info == pre.nodes@[k].info);
    }
    assert forall|k1: int, k2: int|
        0 <= k1 < k2 < post.order@.len() implies spec_ip_key(
        post.nodes@[#[trigger] post.order@[k1] as int].info.ip,
    ) < spec_ip_key(post.nodes@[#[trigger] post.order@[k2] as int].info.ip) by {
        assert(post.order@[k1] == pre.order@[k1]);
        assert(post.order@[k2] == pre.order@[k2]);
        assert(post.nodes@[post.order@[k1] as int].info == pre.nodes@[
            pre.order@[k1] as int
        ].info);
        assert(post.nodes@[post.order@[k2] as int].info == pre.nodes@[
            pre.order@[k2] as int
        ].info);
    }
    assert forall|k: int, j: int|
        #![trigger post.nodes@[k].time_driver.spec_pending()[j]]
        0 <= k < post.nodes@.len() && 0 <= j < post.nodes@[k].time_driver.spec_pending().len()
            implies post.nodes@[k].time_driver.spec_slots()[
            post.nodes@[k].time_driver.spec_pending()[j] as int
        ].timestamp.nanos >= post.nodes@[k].time_driver.spec_time().nanos by {
        assert(post.nodes@[k].time_driver == pre.nodes@[k].time_driver);
        assert(pre.nodes@[k].time_driver.spec_slots()[
            pre.nodes@[k].time_driver.spec_pending()[j] as int
        ].timestamp.nanos >= pre.nodes@[k].time_driver.spec_time().nanos);
    }
    assert forall|k: int|
        0 <= k < post.nodes@.len() implies (#[trigger] post.nodes@[k]).free_ports.spec_len()
        + spec_live_socket_count(post.network.spec_sockets(), k) == 65535 by {
        lemma_count_update(pre.network.spec_sockets(), s, post.network.spec_sockets()[s], k);
        assert(post.network.spec_sockets() =~= pre.network.spec_sockets().update(
            s,
            post.network.spec_sockets()[s],
        ));
        if k != n {
            assert(post.nodes@[k] == pre.nodes@[k]);
        }
    }
    assert forall|t: int|
        0 <= t < post.network.spec_sockets().len() && (
        #[trigger] post.network.spec_sockets()[t]).alive implies {
        &&& post.network.spec_sockets()[t].owner < post.nodes@.len()
        &&& post.network.spec_sockets()[t].local_addr.ip == post.nodes@[
            post.network.spec_sockets()[t].owner as int
        ].info.ip
        &&& post.network.spec_sockets()[t].local_addr.port >= 1
        &&& !post.nodes@[post.network.spec_sockets()[t].owner as int].free_ports.spec_contains(
            post.network.spec_sockets()[t].local_addr.port,
        )
    } by {
        assert(t != s);
        assert(post.network.spec_sockets()[t] == pre.network.spec_sockets()[t]);
        assert(pre.network.spec_sockets()[t].alive);
        let o = pre.network.spec_sockets()[t].owner;
        assert(post.nodes@[o as int].info == pre.nodes@[o as int].info);
        if o == n {
            if t < s {
                assert(pre.network.spec_sockets()[t].local_addr.port
                    != pre.network.spec_sockets()[s].local_addr.port);
            } else {
                assert(pre.network.spec_sockets()[s].local_addr.port
                    != pre.network.spec_sockets()[t].local_addr.port);
            }
        } else {
            assert(post.nodes@[o as int] == pre.nodes@[o as int]);
        }
    }
    assert forall|s1: int, s2: int|
        0 <= s1 < s2 < post.network.spec_sockets().len() && (
        #[trigger] post.network.spec_sockets()[s1]).alive && (
        #[trigger] post.network.spec_sockets()[s2]).alive
            && post.network.spec_sockets()[s1].owner == post.network.spec_sockets()[s2].owner
            implies post.network.spec_sockets()[s1].local_addr.port
            != post.network.spec_sockets()[s2].local_addr.port by {
        assert(s1 != s);
        assert(s2 != s);
        assert(post.network.spec_sockets()[s1] == pre.network.spec_sockets()[s1]);
        assert(post.network.spec_sockets()[s2] == pre.network.spec_sockets()[s2]);
    }
    assert forall|i: int|
        0 <= i < post.network.spec_registry().len() implies (
    #[trigger] post.network.spec_registry()[i]).1 is Udp by {
        assert(pre.network.spec_registry().contains(post.network.spec_registry()[i]));
        let j = choose|j: int|
            0 <= j < pre.network.spec_registry().len() && #[trigger] pre.network.spec_registry()[
                j
            ] == post.network.spec_registry()[i];
    }
}

/// A builder for nodes: the address is checked up front, the socket
/// buffer sizes may be adjusted, and `build` places the node into a
/// simulation.
pub struct NodeBuilder {
    ip: IpAddr,
    udp_send_buffer_size: usize,
    udp_recv_buffer_size: usize,
}

impl NodeBuilder {
    /// The address the builder will give its node.
    pub closed spec fn spec_ip(self) -> IpAddr {
        self.ip
    }

    /// The send buffer size the builder will give its node.
    pub closed spec fn spec_send_size(self) -> usize {
        self.udp_send_buffer_size
    }

    /// The receive buffer size the builder will give its node.
    pub closed spec fn spec_recv_size(self) -> usize {
        self.udp_recv_buffer_size
    }

    /// Start a builder for a node at `ip`.  Loopback, multicast and
    /// unspecified addresses are refused with `InvalidInput`.
    pub fn with_ip_addr(ip: IpAddr) -> (r: Result<NodeBuilder, SimError>)
        ensures
            r is Err <==> spec_is_loopback(ip) || spec_is_multicast(ip) || spec_is_unspecified(ip),
            r is Err ==> r == Err::<NodeBuilder, SimError>(SimError::InvalidInput),
            r is Ok ==> (r->Ok_0).spec_ip() == ip && (r->Ok_0).spec_send_size()
                == DEFAULT_UDP_SEND_BUF_SIZE && (r->Ok_0).spec_recv_size()
                == DEFAULT_UDP_RECV_BUF_SIZE,
    {
        if ip.is_loopback() || ip.is_multicast() || ip.is_unspecified() {
            Err(SimError::InvalidInput)
        } else {
            Ok(
                NodeBuilder {
                    ip,
                    udp_send_buffer_size: DEFAULT_UDP_SEND_BUF_SIZE,
                    udp_recv_buffer_size: DEFAULT_UDP_RECV_BUF_SIZE,
                },
            )
        }
    }

    /// Set the send buffer size.
    pub fn udp_send_buffer_size(self, size: usize) -> (r: NodeBuilder)
        ensures
            r.spec_ip() == self.spec_ip(),
            r.spec_send_size() == size,
            r.spec_recv_size() == self.spec_recv_size(),
    {
        NodeBuilder {
            ip: self.ip,
            udp_send_buffer_size: size,
            udp_recv_buffer_size: self.udp_recv_buffer_size,
        }
    }

    /// Set the receive buffer size.
    pub fn udp_recv_buffer_size(self, size: usize) -> (r: NodeBuilder)
        ensures
            r.spec_ip() == self.spec_ip(),
            r.spec_send_size() == self.spec_send_size(),
            r.spec_recv_size() == size,
    {
        NodeBuilder {
            ip: self.ip,
            udp_send_buffer_size: self.udp_send_buffer_size,
            udp_recv_buffer_size: size,
        }
    }

    /// Build the node and add it to `sim`; `None` if the address is
    /// already taken.
    pub fn build(self, sim: &mut Sim) -> (r: Option<NodeHandle>)
        requires
            old(sim).wf(),
            !spec_is_loopback(self.spec_ip()),
            !spec_is_multicast(self.spec_ip()),
            !spec_is_unspecified(self.spec_ip()),
        ensures
            final(sim).wf(),
            (r is None) <==> (exists|n: int|
                0 <= n < old(sim).spec_nodes().len() && (#[trigger] old(sim).spec_nodes()[n])
                    .spec_info().ip == self.spec_ip()),
            r is None ==> *final(sim) == *old(sim),
            r is Some ==> {
                &&& (r->0).node == old(sim).spec_nodes().len()
                &&& final(sim).spec_nodes().len() == old(sim).spec_nodes().len() + 1
                &&& final(sim).spec_nodes()[(r->0).node as int].spec_info() == (NodeInfo {
                    ip: self.spec_ip(),
                    udp_send_buffer_size: self.spec_send_size(),
                    udp_recv_buffer_size: self.spec_recv_size(),
                })
                &&& final(sim).spec_nodes()[(r->0).node as int].spec_driver().spec_time().nanos
                    == 0
                &&& final(sim).spec_nodes()[(r->0).node as int].spec_driver().spec_pending().len()
                    == 0
                &&& final(sim).spec_nodes()[(r->0).node as int].spec_runtime().spec_queue().len()
                    == 0
                &&& final(sim).spec_nodes()[(r->0).node as int].spec_ports().spec_len() == 65535
                &&& (forall|p: u16|
                    final(sim).spec_nodes()[(r->0).node as int].spec_ports().spec_contains(p)
                        <==> p >= 1)
                &&& final(sim).spec_network().spec_registry() == old(sim).spec_network().spec_registry()
                &&& (forall|k: int|
                    0 <= k < old(sim).spec_nodes().len() ==> final(sim).spec_nodes()[k] == old(sim).spec_nodes()[k])
                &&& final(sim).spec_network().spec_events() == old(sim).spec_network().spec_events()
                &&& final(sim).spec_network().spec_sockets() == old(sim).spec_network().spec_sockets()
                &&& (forall|x: IpAddr|
                    final(sim).spec_network().spec_topology().spec_registered(x) <==> old(sim).spec_network().spec_topology().spec_registered(x) || x == self.spec_ip())
                &&& (forall|a: IpAddr, b: IpAddr|
                    final(sim).spec_network().spec_topology().spec_link(a, b) <==> old(sim).spec_network().spec_topology().spec_link(a, b) || (a == self.spec_ip()
                        && final(sim).spec_network().spec_topology().spec_registered(b)) || (b
                        == self.spec_ip() && final(sim).spec_network().spec_topology().spec_registered(a)))
            },
    {
        let node = Node::new(
            NodeInfo {
                ip: self.ip,
                udp_send_buffer_size: self.udp_send_buffer_size,
                udp_recv_buffer_size: self.udp_recv_buffer_size,
            },
        );
        sim.add_node(node)
    }
}

} // verus!

verus! {

impl NodeBuilder {
    /// Start a builder for a node at the address the literal `ip`
    /// denotes.  A string that is no IPv4 literal, and a loopback,
    /// multicast or unspecified address, fail with `InvalidInput`.
    pub fn with_ip(ip: &str) -> (r: Result<NodeBuilder, SimError>)
        ensures
            r is Err ==> r == Err::<NodeBuilder, SimError>(SimError::InvalidInput),
            (spec_parse_ipv4(ip.spec_bytes()) is None && crate::addr6::spec_parse_ipv6(
                ip.spec_bytes(),
            ) is None) ==> r is Err,
            (match spec_parse_ipv4(ip.spec_bytes()) {
                Some(n) => {
                    &&& (r is Ok <==> !spec_is_loopback(IpAddr::V4(n)) && !spec_is_multicast(
                        IpAddr::V4(n),
                    ) && !spec_is_unspecified(IpAddr::V4(n)))
                    &&& (r is Ok ==> (r->Ok_0).spec_ip() == IpAddr::V4(n) && (
                    r->Ok_0).spec_send_size() == DEFAULT_UDP_SEND_BUF_SIZE && (
                    r->Ok_0).spec_recv_size() == DEFAULT_UDP_RECV_BUF_SIZE)
                },
                None => (match crate::addr6::spec_parse_ipv6(ip.spec_bytes()) {
                    Some(m) => {
                        &&& (r is Ok <==> !spec_is_loopback(IpAddr::V6(m)) && !spec_is_multicast(
                            IpAddr::V6(m),
                        ) && !spec_is_unspecified(IpAddr::V6(m)))
                        &&& (r is Ok ==> (r->Ok_0).spec_ip() == IpAddr::V6(m) && (
                        r->Ok_0).spec_send_size() == DEFAULT_UDP_SEND_BUF_SIZE && (
                        r->Ok_0).spec_recv_size() == DEFAULT_UDP_RECV_BUF_SIZE)
                    },
                    None => r is Err,
                }),
            }),
    {
        match crate::addr::to_ip_addr(ip) {
            Ok(parsed) => NodeBuilder::with_ip_addr(parsed),
            Err(e) => Err(SimError::InvalidInput),
        }
    }
}

impl UdpSocket {
    /// Bind a UDP socket on `node` at the address the literal `addr`
    /// denotes; a string that is no socket-address literal fails with
    /// `InvalidInput`, and the bind itself behaves as `bind`.
    pub fn bind_str(sim: &mut Sim, node: NodeHandle, addr: &str) -> (r: Result<
        UdpSocket,
        SimError,
    >)
        requires
            old(sim).wf(),
            old(sim).spec_node_valid(node),
        ensures
            final(sim).wf(),
            spec_parse_sockaddr(addr.spec_bytes()) is None ==> r == Err::<UdpSocket, SimError>(
                SimError::InvalidInput,
            ) && *final(sim) == *old(sim),
            (match spec_parse_sockaddr(addr.spec_bytes()) {
                Some(a) => {
                    &&& (r is Ok <==> spec_bind_admissible(
                        old(sim).spec_nodes()[node.node as int].spec_info().ip,
                        a,
                    ) && (if a.port != 0 {
                        old(sim).spec_nodes()[node.node as int].spec_ports().spec_contains(a.port)
                    } else {
                        old(sim).spec_nodes()[node.node as int].spec_ports().spec_len() > 0
                    }))
                    &&& (r is Err ==> r == Err::<UdpSocket, SimError>(SimError::AddrInUse))
                    &&& (r is Ok ==> {
                        &&& final(sim).spec_socket_valid(r->Ok_0)
                        &&& (r->Ok_0).node == node.node
                        &&& (r->Ok_0).addr.ip == old(sim).spec_nodes()[
                            node.node as int
                        ].spec_info().ip
                        &&& (r->Ok_0).addr.port >= 1
                        &&& (a.port != 0 ==> (r->Ok_0).addr.port == a.port)
                        &&& final(sim).spec_network().spec_sockets()[
                            (r->Ok_0).slot as int
                        ].recv_buf.spec_capacity() == old(sim).spec_nodes()[
                            node.node as int
                        ].spec_info().udp_recv_buffer_size
                        &&& final(sim).spec_network().spec_sockets()[
                            (r->Ok_0).slot as int
                        ].recv_buf@ =~= Seq::<crate::datagram::Datagram>::empty()
                    })
                },
                None => true,
            }),
    {
        match crate::addr::to_socket_addr(addr) {
            Ok(parsed) => UdpSocket::bind(sim, node, parsed),
            Err(e) => Err(SimError::InvalidInput),
        }
    }

    /// Send `buf` from this socket to the address the literal
    /// `target` denotes; a string that is no socket-address literal
    /// fails with `InvalidInput`, and the send itself behaves as
    /// `send_to`.
    pub fn send_to_str(&self, sim: &mut Sim, buf: &[u8], target: &str) -> (r: Result<
        usize,
        SimError,
    >)
        requires
            old(sim).wf(),
            old(sim).spec_socket_valid(*self),
            old(sim).spec_nodes()[self.node as int].spec_driver().spec_time().nanos <= u64::MAX
                - 1000000000,
        ensures
            final(sim).wf(),
            final(sim).spec_nodes() == old(sim).spec_nodes(),
            final(sim).spec_socket_valid(*self),
            spec_parse_sockaddr(target.spec_bytes()) is None ==> r == Err::<usize, SimError>(
                SimError::InvalidInput,
            ) && *final(sim) == *old(sim),
            (match spec_parse_sockaddr(target.spec_bytes()) {
                Some(a) => {
                    &&& (r is Err <==> spec_is_multicast(a.ip) || spec_is_unspecified(a.ip))
                    &&& (r is Err ==> r == Err::<usize, SimError>(SimError::InvalidInput))
                    &&& (r is Ok ==> r->Ok_0 == (if buf@.len() <= old(sim).spec_nodes()[
                        self.node as int
                    ].spec_info().udp_send_buffer_size {
                        buf@.len() as int
                    } else {
                        old(sim).spec_nodes()[self.node as int].spec_info().udp_send_buffer_size
                            as int
                    }))
                },
                None => true,
            }),
    {
        match crate::addr::to_socket_addr(target) {
            Ok(parsed) => self.send_to(sim, buf, parsed),
            Err(e) => Err(SimError::InvalidInput),
        }
    }
}

} // verus!

verus! {

/// Whether binding the single candidate `a` on `node` succeeds in
/// state `sim`: the address is admissible and its port is to be had.
pub open spec fn spec_bind_ok(sim: Sim, node: NodeHandle, a: SockAddr) -> bool {
    &&& spec_bind_admissible(sim.spec_nodes()[node.node as int].spec_info().ip, a)
    &&& (if a.port != 0 {
        sim.spec_nodes()[node.node as int].spec_ports().spec_contains(a.port)
    } else {
        sim.spec_nodes()[node.node as int].spec_ports().spec_len() > 0
    })
}

impl UdpSocket {
    /// Bind the first workable candidate of a resolved address list,
    /// as a bind on several resolved addresses does: each candidate
    /// that fails leaves the simulation untouched, and an exhausted
    /// (or empty) list fails with `AddrInUse`.
    pub fn bind_addrs(sim: &mut Sim, node: NodeHandle, candidates: &Vec<SockAddr>) -> (r: Result<
        UdpSocket,
        SimError,
    >)
        requires
            old(sim).wf(),
            old(sim).spec_node_valid(node),
        ensures
            final(sim).wf(),
            r is Ok <==> (exists|i: int|
                0 <= i < candidates@.len() && spec_bind_ok(
                    *old(sim),
                    node,
                    #[trigger] candidates@[i],
                )),
            r is Err ==> r == Err::<UdpSocket, SimError>(SimError::AddrInUse)
                && final(sim).spec_network() == old(sim).spec_network()
                && final(sim).spec_nodes() == old(sim).spec_nodes(),
            r is Ok ==> (exists|i: int|
                {
                    &&& 0 <= i < candidates@.len()
                    &&& #[trigger] spec_bind_ok(*old(sim), node, candidates@[i])
                    &&& (forall|j: int|
                        0 <= j < i ==> !spec_bind_ok(*old(sim), node, #[trigger] candidates@[j]))
                    &&& final(sim).spec_socket_valid(r->Ok_0)
                    &&& (r->Ok_0).node == node.node
                    &&& (r->Ok_0).addr.ip == old(sim).spec_nodes()[node.node as int].spec_info().ip
                    &&& (candidates@[i].port != 0 ==> (r->Ok_0).addr.port == candidates@[i].port)
                }),
    {
        let n = candidates.len();
        let mut k: usize = 0;
        while k < n
            invariant
                sim.wf(),
                sim.spec_node_valid(node),
                n == candidates@.len(),
                0 <= k <= n,
                sim.spec_nodes() == old(sim).spec_nodes(),
                sim.spec_order() == old(sim).spec_order(),
                sim.spec_network() == old(sim).spec_network(),
                forall|j: int|
                    0 <= j < k ==> !spec_bind_ok(*old(sim), node, #[trigger] candidates@[j]),
            decreases n - k,
        {
            let cand = candidates[k];
            let ghost at_call = *sim;
            match UdpSocket::bind(sim, node, cand) {
                Ok(sock) => {
                    proof {
                        assert(spec_bind_ok(at_call, node, cand));
                        assert(spec_bind_ok(*old(sim), node, candidates@[k as int]));
                        assert(at_call.spec_nodes()[node.node as int].spec_info() == old(sim).spec_nodes()[node.node as int].spec_info());
                    }
                    return Ok(sock);
                },
                Err(e) => {
                    proof {
                        assert(!spec_bind_ok(at_call, node, cand));
                        assert(!spec_bind_ok(*old(sim), node, candidates@[k as int]));
                    }
                },
            }
            k = k + 1;
        }
        Err(SimError::AddrInUse)
    }

    /// Send to the first of a resolved address list, as a send to
    /// several resolved addresses does; an empty list fails with
    /// `AddrNotAvailable`.
    pub fn send_to_addrs(&self, sim: &mut Sim, buf: &[u8], targets: &Vec<SockAddr>) -> (r: Result<
        usize,
        SimError,
    >)
        requires
            old(sim).wf(),
            old(sim).spec_socket_valid(*self),
            old(sim).spec_nodes()[self.node as int].spec_driver().spec_time().nanos <= u64::MAX
                - 1000000000,
        ensures
            final(sim).wf(),
            final(sim).spec_nodes() == old(sim).spec_nodes(),
            final(sim).spec_socket_valid(*self),
            targets@.len() == 0 ==> r == Err::<usize, SimError>(SimError::AddrNotAvailable)
                && *final(sim) == *old(sim),
            targets@.len() > 0 ==> {
                &&& (r is Err <==> spec_is_multicast(targets@[0].ip) || spec_is_unspecified(
                    targets@[0].ip,
                ))
                &&& (r is Err ==> r == Err::<usize, SimError>(SimError::InvalidInput))
                &&& (r is Ok ==> r->Ok_0 == (if buf@.len() <= old(sim).spec_nodes()[
                    self.node as int
                ].spec_info().udp_send_buffer_size {
                    buf@.len() as int
                } else {
                    old(sim).spec_nodes()[self.node as int].spec_info().udp_send_buffer_size
                        as int
                }))
            },
    {
        if targets.len() == 0 {
            return Err(SimError::AddrNotAvailable);
        }
        self.send_to(sim, buf, targets[0])
    }
}

} // verus!

verus! {

/// What the simulation's well-formedness gives of its parts: the
/// network and every node's scheduler, clock and port pool are
/// well-formed, and the visiting order enumerates valid node slots.
pub proof fn lemma_sim_wf_parts(sim: Sim)
    requires
        sim.wf(),
    ensures
        sim.spec_network().wf(),
        forall|n: int| 0 <= n < sim.spec_nodes().len() ==> (#[trigger] sim.spec_nodes()[n]).spec_runtime().wf(),
        forall|n: int| 0 <= n < sim.spec_nodes().len() ==> (#[trigger] sim.spec_nodes()[n]).spec_driver().wf(),
        forall|n: int| 0 <= n < sim.spec_nodes().len() ==> (#[trigger] sim.spec_nodes()[n]).spec_ports().wf(),
        sim.spec_order().len() == sim.spec_nodes().len(),
        forall|k: int| 0 <= k < sim.spec_order().len() ==> #[trigger] sim.spec_order()[k] < sim.spec_nodes().len(),
{
}

/// What a drained step leaves: everything but the node's poll queue —
/// the network above all — is as it was, and the queue is empty.
pub proof fn lemma_drained_only_facts(pre: Sim, post: Sim, n: int)
    requires
        drained_only(pre, post, n),
    ensures
        post.spec_network() == pre.spec_network(),
        post.spec_order() == pre.spec_order(),
        post.spec_nodes().len() == pre.spec_nodes().len(),
        forall|k: int|
            0 <= k < pre.spec_nodes().len() && k != n ==> #[trigger] post.spec_nodes()[k]
                == pre.spec_nodes()[k],
        post.spec_nodes()[n].spec_driver() == pre.spec_nodes()[n].spec_driver(),
        post.spec_nodes()[n].spec_ports() == pre.spec_nodes()[n].spec_ports(),
        post.spec_nodes()[n].spec_info() == pre.spec_nodes()[n].spec_info(),
        post.spec_nodes()[n].spec_runtime().spec_live_seq() == pre.spec_nodes()[
            n
        ].spec_runtime().spec_live_seq(),
        post.spec_nodes()[n].spec_runtime().spec_next_id() == pre.spec_nodes()[
            n
        ].spec_runtime().spec_next_id(),
        post.spec_nodes()[n].spec_runtime().spec_queue().len() == 0,
{
}

} // verus!
