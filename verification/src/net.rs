//! The shared virtual network.
//!
//! The network owns the socket registry, the reachability topology,
//! the queue of scheduled deliveries and the seeded generator that
//! draws delivery delay and packet loss.  A send either schedules a
//! delivery event or silently drops the packet (absent receiver, no
//! route, or the random loss draw); delivery pushes the datagram into
//! the receiver's buffer and reports the tasks waiting on it.

use vstd::prelude::*;

use crate::addr::IpAddr;
use crate::addr::SockAddr;
use crate::datagram::Buffer;
use crate::datagram::Datagram;
use crate::entropy::rng_from_seed;
use crate::entropy::rng_range;
use crate::events::EventQueue;
use crate::events::NetworkEvent;
use crate::runtime::TaskId;
use crate::seq_util::lemma_push_contains;
use crate::topology::repair_post;
use crate::topology::separate_post;
use crate::topology::NetworkTopology;
use crate::Timestamp;

verus! {

/// The lower bound of the delivery delay drawn for each hop.
pub const DEFAULT_MIN_DELAY_NS: u64 = 100000000;

/// The upper bound (exclusive) of the delivery delay drawn per hop.
pub const DEFAULT_MAX_DELAY_NS: u64 = 500000000;

/// The probability of losing a packet between distinct addresses, in
/// parts per million.
pub const DEFAULT_DROP_PPM: u64 = 50000;

/// One part-per-million scale: the denominator of the drop rate.
pub const PPM_SCALE: u64 = 1000000;

/// The per-socket state the network delivers into: the receive buffer,
/// the tasks suspended on a receive, and the bound address.
pub struct UpdSocketData {
    pub local_addr: SockAddr,
    pub recv_buf: Buffer,
    pub recv_waiters: Vec<TaskId>,
    pub owner: usize,
    pub alive: bool,
}

/// A registry entry: the socket kind bound at an address.  TCP is
/// reserved and never constructed.
pub enum SocketData {
    Udp(usize),
    Tcp,
}

/// The slot a registry entry points at, when it is a UDP entry.
pub open spec fn spec_udp_index(sd: SocketData) -> Option<usize> {
    match sd {
        SocketData::Udp(i) => Some(i),
        SocketData::Tcp => None,
    }
}

impl SocketData {
    /// The slot this entry points at, when it is a UDP entry.
    pub fn udp_index(&self) -> (r: Option<usize>)
        ensures
            r == spec_udp_index(*self),
    {
        match self {
            SocketData::Udp(i) => Some(*i),
            SocketData::Tcp => None,
        }
    }
}

impl UpdSocketData {
    /// How many datagrams wait in the receive buffer.
    pub fn recv_buf_len(&self) -> (r: usize)
        ensures
            r == self.recv_buf@.len(),
    {
        self.recv_buf.queued()
    }
}

/// The datagram an event delivers.
pub open spec fn spec_event_datagram(e: NetworkEvent) -> Datagram {
    Datagram { from: e.sender, to: e.receiver, data: e.data }
}

/// Whether some event among `events`, due no later than `target`, is
/// addressed to `addr`.
pub open spec fn spec_due_event_for(
    events: Seq<NetworkEvent>,
    target: Timestamp,
    addr: SockAddr,
) -> bool {
    exists|k: int|
        #![trigger events[k]]
        0 <= k < events.len() && events[k].timestamp.nanos <= target.nanos && events[k].receiver
            == addr
}

/// Whether socket slot `s` is the registered target of some delivery
/// due no later than `target`.
pub open spec fn spec_due_to(net: Network, target: Timestamp, s: int) -> bool {
    &&& 0 <= s < net.spec_sockets().len()
    &&& net.spec_udp_entry(net.spec_sockets()[s].local_addr, s as usize)
    &&& spec_due_event_for(net.spec_events(), target, net.spec_sockets()[s].local_addr)
}

/// Whether `pair` names the owner and a registered receive-waiter of
/// some socket with a delivery due no later than `target`.
pub open spec fn spec_drained_from(net: Network, target: Timestamp, pair: (usize, TaskId)) -> bool {
    exists|s: int|
        #![trigger net.spec_sockets()[s]]
        0 <= s < net.spec_sockets().len() && net.spec_sockets()[s].owner == pair.0
            && net.spec_sockets()[s].recv_waiters@.contains(pair.1) && spec_due_to(net, target, s)
}

/// An address is bound to at most one slot: two registry entries for
/// it would collide.
pub proof fn lemma_entry_unique(net: Network, addr: SockAddr, s1: usize, s2: usize)
    requires
        net.wf(),
        net.spec_udp_entry(addr, s1),
        net.spec_udp_entry(addr, s2),
    ensures
        s1 == s2,
{
    let j1 = choose|j: int|
        0 <= j < net.spec_registry().len() && #[trigger] net.spec_registry()[j] == (
        addr,
        SocketData::Udp(s1),
        );
    let j2 = choose|j: int|
        0 <= j < net.spec_registry().len() && #[trigger] net.spec_registry()[j] == (
        addr,
        SocketData::Udp(s2),
        );
    if j1 != j2 {
        if j1 < j2 {
            assert((net.spec_registry()[j1]).0 != (net.spec_registry()[j2]).0);
        } else {
            assert((net.spec_registry()[j2]).0 != (net.spec_registry()[j1]).0);
        }
    }
}

/// The virtual network shared by all nodes.
pub struct Network {
    registry: Vec<(SockAddr, SocketData)>,
    sockets: Vec<UpdSocketData>,
    topology: NetworkTopology,
    events: EventQueue,
    rng: rand::rngs::StdRng,
    min_delay_ns: u64,
    max_delay_ns: u64,
    drop_ppm: u64,
}

impl Network {
    /// The registry: which address is bound to which socket.
    pub closed spec fn spec_registry(self) -> Seq<(SockAddr, SocketData)> {
        self.registry@
    }

    /// The socket arena; a socket keeps its slot for the life of the
    /// network.
    pub closed spec fn spec_sockets(self) -> Seq<UpdSocketData> {
        self.sockets@
    }

    /// The reachability topology.
    pub closed spec fn spec_topology(self) -> NetworkTopology {
        self.topology
    }

    /// The scheduled deliveries.
    pub closed spec fn spec_events(self) -> Seq<NetworkEvent> {
        self.events.spec_events()
    }

    /// The delay and loss parameters `(min delay, max delay, drop
    /// ppm)`.
    pub closed spec fn spec_params(self) -> (u64, u64, u64) {
        (self.min_delay_ns, self.max_delay_ns, self.drop_ppm)
    }

    /// Whether some socket is bound at `addr`.
    pub open spec fn spec_addr_registered(self, addr: SockAddr) -> bool {
        exists|j: int|
            0 <= j < self.spec_registry().len() && (#[trigger] self.spec_registry()[j]).0 == addr
    }

    /// Whether a UDP socket is bound at `addr`.
    pub open spec fn spec_udp_registered(self, addr: SockAddr) -> bool {
        exists|j: int|
            0 <= j < self.spec_registry().len() && (#[trigger] self.spec_registry()[j]).0 == addr
                && self.spec_registry()[j].1 is Udp
    }

    /// Whether the registry binds `addr` to UDP socket slot `s`.
    pub open spec fn spec_udp_entry(self, addr: SockAddr, s: usize) -> bool {
        exists|j: int|
            0 <= j < self.spec_registry().len() && #[trigger] self.spec_registry()[j] == (
            addr,
            SocketData::Udp(s),
            )
    }

    /// Registered addresses are unique; every UDP entry points at a
    /// live slot bound to that address; buffers are well-formed.
    pub open spec fn wf(self) -> bool {
        &&& forall|i: int, j: int|
            0 <= i < j < self.spec_registry().len() ==> (#[trigger] self.spec_registry()[i]).0 != (
            #[trigger] self.spec_registry()[j]).0
        &&& forall|i: int|
            0 <= i < self.spec_registry().len() ==> match (#[trigger] self.spec_registry()[i]).1 {
                SocketData::Udp(s) => {
                    &&& s < self.spec_sockets().len()
                    &&& self.spec_sockets()[s as int].alive
                    &&& self.spec_sockets()[s as int].local_addr == self.spec_registry()[i].0
                },
                SocketData::Tcp => true,
            }
        &&& forall|s: int|
            0 <= s < self.spec_sockets().len() ==> (#[trigger] self.spec_sockets()[s]).recv_buf.wf()
        &&& self.spec_params().0 < self.spec_params().1
        &&& self.spec_params().1 <= 1000000000
    }

    /// A fresh network with default delay and loss parameters, and a
    /// generator seeded with `seed`.
    pub fn new(seed: u64) -> (r: Network)
        ensures
            r.wf(),
            r.spec_registry() =~= Seq::<(SockAddr, SocketData)>::empty(),
            r.spec_sockets() =~= Seq::<UpdSocketData>::empty(),
            r.spec_events() =~= Seq::<NetworkEvent>::empty(),
            forall|x: IpAddr| !r.spec_topology().spec_registered(x),
            forall|a: IpAddr, b: IpAddr| !r.spec_topology().spec_link(a, b),
            r.spec_params() == (DEFAULT_MIN_DELAY_NS, DEFAULT_MAX_DELAY_NS, DEFAULT_DROP_PPM),
    {
        Network {
            registry: Vec::new(),
            sockets: Vec::new(),
            topology: NetworkTopology::new(),
            events: EventQueue::new(),
            rng: rng_from_seed(seed),
            min_delay_ns: DEFAULT_MIN_DELAY_NS,
            max_delay_ns: DEFAULT_MAX_DELAY_NS,
            drop_ppm: DEFAULT_DROP_PPM,
        }
    }

    /// How many socket slots the arena holds.
    pub fn socket_count(&self) -> (r: usize)
        ensures
            r == self.spec_sockets().len(),
    {
        self.sockets.len()
    }

    /// Whether the socket in slot `s` is still bound to its handle.
    pub fn socket_alive(&self, s: usize) -> (r: bool)
        requires
            s < self.spec_sockets().len(),
        ensures
            r == self.spec_sockets()[s as int].alive,
    {
        self.sockets[s].alive
    }

    /// The index of the registry entry binding `addr`, if any.
    fn find_entry(&self, addr: &SockAddr) -> (r: Option<usize>)
        ensures
            match r {
                Some(k) => 0 <= k < self.spec_registry().len() && self.spec_registry()[
                    k as int
                ].0 == *addr,
                None => !self.spec_addr_registered(*addr),
            },
            r is Some <==> self.spec_addr_registered(*addr),
    {
        let n = self.registry.len();
        for i in 0..n
            invariant
                n == self.registry@.len(),
                forall|j: int| 0 <= j < i ==> (#[trigger] self.registry@[j]).0 != *addr,
        {
            if self.registry[i].0 == *addr {
                proof {
                    assert((self.registry@[i as int]).0 == *addr);
                }
                return Some(i);
            }
        }
        None
    }

    /// Bind a new UDP socket at `addr` for the node in slot `owner`,
    /// with a receive buffer of `recv_capacity` bytes.  Fails with
    /// `AddrInUse` exactly when the address is already bound.
    pub fn register_upd_socket(&mut self, owner: usize, addr: SockAddr, recv_capacity: usize) -> (r:
        Result<usize, crate::SimError>)
        requires
            old(self).wf(),
        ensures
            final(self).wf(),
            final(self).spec_topology() == old(self).spec_topology(),
            final(self).spec_events() == old(self).spec_events(),
            final(self).spec_params() == old(self).spec_params(),
            r is Err <==> old(self).spec_addr_registered(addr),
            r is Err ==> *final(self) == *old(self) && r == Err::<usize, crate::SimError>(
                crate::SimError::AddrInUse,
            ),
            r is Ok ==> {
                &&& r->Ok_0 == old(self).spec_sockets().len()
                &&& final(self).spec_sockets().len() == old(self).spec_sockets().len() + 1
                &&& final(self).spec_sockets() == old(self).spec_sockets().push(
                    final(self).spec_sockets().last(),
                )
                &&& final(self).spec_sockets().last().local_addr == addr
                &&& final(self).spec_sockets().last().owner == owner
                &&& final(self).spec_sockets().last().alive
                &&& final(self).spec_sockets().last().recv_buf@ =~= Seq::<Datagram>::empty()
                &&& final(self).spec_sockets().last().recv_buf.spec_capacity() == recv_capacity
                &&& final(self).spec_sockets().last().recv_waiters@ =~= Seq::<TaskId>::empty()
                &&& final(self).spec_registry() == old(self).spec_registry().push(
                    (addr, SocketData::Udp(r->Ok_0)),
                )
                &&& forall|a: SockAddr|
                    final(self).spec_addr_registered(a) <==> old(self).spec_addr_registered(a)
                        || a == addr
                &&& final(self).spec_udp_entry(addr, r->Ok_0)
            },
    {
        match self.find_entry(&addr) {
            Some(_) => Err(crate::SimError::AddrInUse),
            None => {
                let s = self.sockets.len();
                let slot = UpdSocketData {
                    local_addr: addr,
                    recv_buf: Buffer::with_capacity(recv_capacity),
                    recv_waiters: Vec::new(),
                    owner,
                    alive: true,
                };
                let ghost pre = *self;
                self.sockets.push(slot);
                self.registry.push((addr, SocketData::Udp(s)));
                proof {
                    assert(self.registry@ == pre.registry@.push((addr, SocketData::Udp(s))));
                    assert forall|a: SockAddr|
                        self.spec_addr_registered(a) <==> pre.spec_addr_registered(a) || a
                            == addr by {
                        if self.spec_addr_registered(a) {
                            let j = choose|j: int|
                                0 <= j < self.spec_registry().len() && (
                                #[trigger] self.spec_registry()[j]).0 == a;
                            if j < pre.spec_registry().len() {
                                assert((pre.spec_registry()[j]).0 == a);
                            }
                        }
                        if pre.spec_addr_registered(a) {
                            let j = choose|j: int|
                                0 <= j < pre.spec_registry().len() && (
                                #[trigger] pre.spec_registry()[j]).0 == a;
                            assert((self.spec_registry()[j]).0 == a);
                        }
                        if a == addr {
                            assert((self.spec_registry()[pre.spec_registry().len() as int]).0
                                == addr);
                        }
                    }
                    assert(self.registry@[pre.registry@.len() as int] == (
                    addr,
                    SocketData::Udp(s),
                    ));
                    assert(self.spec_udp_entry(addr, s));
                    assert forall|i: int|
                        0 <= i < self.registry@.len() implies match (
                    #[trigger] self.registry@[i]).1 {
                        SocketData::Udp(t) => {
                            &&& t < self.sockets@.len()
                            &&& self.sockets@[t as int].alive
                            &&& self.sockets@[t as int].local_addr == self.registry@[i].0
                        },
                        SocketData::Tcp => true,
                    } by {
                        if i < pre.registry@.len() {
                            assert(self.registry@[i] == pre.registry@[i]);
                        }
                    }
                }
                Ok(s)
            },
        }
    }

    /// Unbind the socket in slot `s` and retire the slot.  The socket
    /// must still be bound: the caller owns the socket's lifecycle.
    pub fn deregister_socket(&mut self, s: usize)
        requires
            old(self).wf(),
            s < old(self).spec_sockets().len(),
            old(self).spec_udp_entry(old(self).spec_sockets()[s as int].local_addr, s),
        ensures
            final(self).wf(),
            final(self).spec_topology() == old(self).spec_topology(),
            final(self).spec_events() == old(self).spec_events(),
            final(self).spec_params() == old(self).spec_params(),
            final(self).spec_sockets().len() == old(self).spec_sockets().len(),
            forall|t: int|
                0 <= t < old(self).spec_sockets().len() && t != s
                    ==> final(self).spec_sockets()[t] == old(self).spec_sockets()[t],
            final(self).spec_sockets()[s as int].alive == false,
            final(self).spec_sockets()[s as int].local_addr == old(self).spec_sockets()[
                s as int
            ].local_addr,
            final(self).spec_sockets()[s as int].owner == old(self).spec_sockets()[s as int].owner,
            forall|a: SockAddr|
                final(self).spec_addr_registered(a) <==> old(self).spec_addr_registered(a) && a
                    != old(self).spec_sockets()[s as int].local_addr,
            forall|i: int|
                0 <= i < final(self).spec_registry().len() ==> old(self).spec_registry().contains(
                    #[trigger] final(self).spec_registry()[i],
                ),
    {
        let addr = self.sockets[s].local_addr;
        let ghost pre = *self;
        let k = match self.find_entry(&addr) {
            Some(k) => k,
            None => {
                proof {
                    let j = choose|j: int|
                        0 <= j < pre.registry@.len() && #[trigger] pre.registry@[j] == (
                        addr,
                        SocketData::Udp(s),
                        );
                    assert((self.registry@[j]).0 == addr);
                    assert(self.spec_addr_registered(addr));
                    assert(false);
                }
                // contradicts the requires; never reached
                return ;
            },
        };
        self.registry.remove(k);
        proof {
            pre.registry@.remove_ensures(k as int);
            assert forall|a: SockAddr|
                self.spec_addr_registered(a) <==> pre.spec_addr_registered(a) && a != addr by {
                if self.spec_addr_registered(a) {
                    let j = choose|j: int|
                        0 <= j < self.spec_registry().len() && (
                        #[trigger] self.spec_registry()[j]).0 == a;
                    if j < k {
                        assert((pre.registry@[j]).0 == a);
                        assert((pre.registry@[j]).0 != (pre.registry@[k as int]).0);
                        assert((pre.spec_registry()[j]).0 == a);
                    } else {
                        assert((pre.registry@[j + 1]).0 == a);
                        assert((pre.registry@[j + 1]).0 != (pre.registry@[k as int]).0);
                        assert((pre.spec_registry()[j + 1]).0 == a);
                    }
                }
                if pre.spec_addr_registered(a) && a != addr {
                    let j = choose|j: int|
                        0 <= j < pre.spec_registry().len() && (
                        #[trigger] pre.spec_registry()[j]).0 == a;
                    if j < k {
                        assert((self.spec_registry()[j]).0 == a);
                    } else {
                        assert(j != k);
                        assert((self.spec_registry()[j - 1]).0 == a);
                    }
                }
            }
            assert forall|i: int|
                0 <= i < self.spec_registry().len() implies pre.spec_registry().contains(
                #[trigger] self.spec_registry()[i],
            ) by {
                if i < k {
                    assert(self.spec_registry()[i] == pre.spec_registry()[i]);
                } else {
                    assert(self.spec_registry()[i] == pre.spec_registry()[i + 1]);
                }
            }
        }
        let owner = self.sockets[s].owner;
        let waiters: Vec<TaskId> = Vec::new();
        let buf = Buffer::with_capacity(0);
        self.sockets.set(
            s,
            UpdSocketData {
                local_addr: addr,
                recv_buf: buf,
                recv_waiters: waiters,
                owner,
                alive: false,
            },
        );
        proof {
            assert forall|i: int|
                0 <= i < self.registry@.len() implies match (#[trigger] self.registry@[i]).1 {
                SocketData::Udp(t) => {
                    &&& t < self.sockets@.len()
                    &&& self.sockets@[t as int].alive
                    &&& self.sockets@[t as int].local_addr == self.registry@[i].0
                },
                SocketData::Tcp => true,
            } by {
                let i0: int = if i < k { i } else { i + 1 };
                assert(self.registry@[i] == pre.registry@[i0]);
                match pre.registry@[i0].1 {
                    SocketData::Udp(t) => {
                        if t == s {
                            // two registry entries would bind the same address
                            assert(pre.registry@[i0].0 == pre.sockets@[s as int].local_addr);
                            assert(pre.registry@[k as int].0 == addr);
                            assert(i0 != k);
                        }
                    },
                    SocketData::Tcp => {},
                }
            }
        }
    }

    /// Register a node address with the topology.
    pub fn register_node(&mut self, ip: IpAddr)
        requires
            old(self).wf(),
        ensures
            final(self).wf(),
            final(self).spec_registry() == old(self).spec_registry(),
            final(self).spec_sockets() == old(self).spec_sockets(),
            final(self).spec_events() == old(self).spec_events(),
            final(self).spec_params() == old(self).spec_params(),
            forall|x: IpAddr|
                final(self).spec_topology().spec_registered(x) <==> old(self).spec_topology().spec_registered(x) || x == ip,
            forall|a: IpAddr, b: IpAddr|
                final(self).spec_topology().spec_link(a, b) <==> old(self).spec_topology().spec_link(
                    a,
                    b,
                ) || (a == ip && final(self).spec_topology().spec_registered(b)) || (b == ip
                    && final(self).spec_topology().spec_registered(a)),
    {
        self.topology.register_node(ip);
    }

    /// Cut the group off from the rest of the mesh.
    pub fn separate(&mut self, group: &Vec<IpAddr>)
        requires
            old(self).wf(),
            forall|g: IpAddr|
                group@.contains(g) ==> old(self).spec_topology().spec_registered(g),
        ensures
            final(self).wf(),
            final(self).spec_registry() == old(self).spec_registry(),
            final(self).spec_sockets() == old(self).spec_sockets(),
            final(self).spec_events() == old(self).spec_events(),
            final(self).spec_params() == old(self).spec_params(),
            separate_post(old(self).spec_topology(), final(self).spec_topology(), group@),
    {
        self.topology.separate(group);
    }

    /// Relink every ordered pair within the group.
    pub fn repair(&mut self, group: &Vec<IpAddr>)
        requires
            old(self).wf(),
        ensures
            final(self).wf(),
            final(self).spec_registry() == old(self).spec_registry(),
            final(self).spec_sockets() == old(self).spec_sockets(),
            final(self).spec_events() == old(self).spec_events(),
            final(self).spec_params() == old(self).spec_params(),
            repair_post(old(self).spec_topology(), final(self).spec_topology(), group@),
    {
        self.topology.repair(group);
    }

    /// Restore the full mesh over all registered nodes.
    pub fn repair_all(&mut self)
        requires
            old(self).wf(),
        ensures
            final(self).wf(),
            final(self).spec_registry() == old(self).spec_registry(),
            final(self).spec_sockets() == old(self).spec_sockets(),
            final(self).spec_events() == old(self).spec_events(),
            final(self).spec_params() == old(self).spec_params(),
            forall|x: IpAddr|
                final(self).spec_topology().spec_registered(x) <==> old(self).spec_topology().spec_registered(x),
            forall|a: IpAddr, b: IpAddr|
                final(self).spec_topology().spec_link(a, b) <==> old(self).spec_topology().spec_link(
                    a,
                    b,
                ) || (old(self).spec_topology().spec_registered(a) && old(self).spec_topology().spec_registered(b)),
            final(self).spec_topology().spec_full_mesh(),
    {
        self.topology.repair_all();
    }

    /// The one-hop distance between two node addresses.
    pub fn hops(&self, from: IpAddr, to: IpAddr) -> (r: Option<usize>)
        ensures
            r == self.spec_topology().spec_hops(from, to),
    {
        self.topology.hops(from, to)
    }

    /// The timestamp of the earliest scheduled delivery, if any.
    pub fn next_event_timestamp(&self) -> (r: Option<Timestamp>)
        ensures
            r is None <==> self.spec_events().len() == 0,
            r is Some ==> exists|k: int|
                0 <= k < self.spec_events().len() && #[trigger] self.spec_events()[k].timestamp
                    == r->0,
            r is Some ==> forall|k: int|
                0 <= k < self.spec_events().len() ==> r->0.nanos
                    <= #[trigger] self.spec_events()[k].timestamp.nanos,
    {
        self.events.next_timestamp()
    }

    /// Send a UDP packet: look the receiver up, draw the loss sample
    /// (skipped when sender and receiver address coincide), check the
    /// route, draw the delay, and schedule the delivery.  Reports
    /// whether the packet was dropped; a send never fails.
    pub fn send_upd_packet(&mut self, from: SockAddr, to: SockAddr, packet: &[u8], now: Timestamp)
        -> (dropped: bool)
        requires
            old(self).wf(),
            old(self).spec_udp_registered(from),
            now.nanos <= u64::MAX - 1000000000,
        ensures
            final(self).wf(),
            final(self).spec_registry() == old(self).spec_registry(),
            final(self).spec_sockets() == old(self).spec_sockets(),
            final(self).spec_topology() == old(self).spec_topology(),
            final(self).spec_params() == old(self).spec_params(),
            dropped ==> final(self).spec_events() == old(self).spec_events(),
            !old(self).spec_udp_registered(to) ==> dropped,
            old(self).spec_topology().spec_hops(from.ip, to.ip) is None ==> dropped,
            (from == to && old(self).spec_udp_registered(to) && old(self).spec_topology().spec_hops(from.ip, to.ip) is Some) ==> !dropped,
            !dropped ==> {
                &&& old(self).spec_udp_registered(to)
                &&& old(self).spec_topology().spec_hops(from.ip, to.ip) is Some
                &&& final(self).spec_events().len() == old(self).spec_events().len() + 1
                &&& final(self).spec_events() == old(self).spec_events().push(
                    final(self).spec_events().last(),
                )
                &&& final(self).spec_events().last().sender == from
                &&& final(self).spec_events().last().receiver == to
                &&& final(self).spec_events().last().data@ == packet@
                &&& (match old(self).spec_topology().spec_hops(from.ip, to.ip) {
                    Some(h) => {
                        if h == 0 {
                            final(self).spec_events().last().timestamp.nanos == now.nanos
                        } else {
                            now.nanos + old(self).spec_params().0
                                <= final(self).spec_events().last().timestamp.nanos
                                < now.nanos + old(self).spec_params().1
                        }
                    },
                    None => false,
                })
            },
    {
        let to_slot = match self.find_entry(&to) {
            None => {
                return true;
            },
            Some(k) => k,
        };
        let is_udp = self.registry[to_slot].1.udp_index().is_some();
        if !is_udp {
            proof {
                assert(!self.spec_udp_registered(to)) by {
                    if self.spec_udp_registered(to) {
                        let j = choose|j: int|
                            0 <= j < self.registry@.len() && (#[trigger] self.registry@[j]).0 == to
                                && self.registry@[j].1 is Udp;
                        assert(j == to_slot);
                    }
                }
            }
            return true;
        }
        proof {
            assert(self.spec_udp_registered(to)) by {
                assert((self.registry@[to_slot as int]).0 == to);
            }
        }
        if !(from.ip == to.ip && from.port == to.port) {
            let sample = rng_range(&mut self.rng, 0, PPM_SCALE);
            if sample < self.drop_ppm {
                return true;
            }
        }
        let h = match self.topology.hops(from.ip, to.ip) {
            None => {
                return true;
            },
            Some(h) => h,
        };
        let delay = rng_range(&mut self.rng, self.min_delay_ns, self.max_delay_ns);
        proof {
            assert(h == 0 || h == 1);
        }
        let factor: u64 = if h == 0 {
            0
        } else {
            1
        };
        let timestamp = Timestamp { nanos: now.nanos + delay * factor };
        let data = vstd::slice::slice_to_vec(packet);
        self.events.push(NetworkEvent { timestamp, sender: from, receiver: to, data });
        false
    }

    /// Take the oldest datagram out of socket `s`'s receive buffer.
    pub fn socket_take_datagram(&mut self, s: usize) -> (r: Option<Datagram>)
        requires
            old(self).wf(),
            s < old(self).spec_sockets().len(),
        ensures
            final(self).wf(),
            final(self).spec_registry() == old(self).spec_registry(),
            final(self).spec_topology() == old(self).spec_topology(),
            final(self).spec_events() == old(self).spec_events(),
            final(self).spec_params() == old(self).spec_params(),
            final(self).spec_sockets().len() == old(self).spec_sockets().len(),
            forall|t: int|
                0 <= t < old(self).spec_sockets().len() && t != s
                    ==> final(self).spec_sockets()[t] == old(self).spec_sockets()[t],
            final(self).spec_sockets()[s as int].local_addr == old(self).spec_sockets()[
                s as int
            ].local_addr,
            final(self).spec_sockets()[s as int].owner == old(self).spec_sockets()[s as int].owner,
            final(self).spec_sockets()[s as int].alive == old(self).spec_sockets()[s as int].alive,
            final(self).spec_sockets()[s as int].recv_waiters == old(self).spec_sockets()[
                s as int
            ].recv_waiters,
            final(self).spec_sockets()[s as int].recv_buf.spec_capacity() == old(
                self,
            ).spec_sockets()[s as int].recv_buf.spec_capacity(),
            ({
                let buf0 = old(self).spec_sockets()[s as int].recv_buf@;
                let buf1 = final(self).spec_sockets()[s as int].recv_buf@;
                &&& (r is None <==> buf0.len() == 0)
                &&& (r is None ==> *final(self) == *old(self))
                &&& (r is Some ==> r == Some(buf0[0]) && buf1 =~= buf0.drop_first())
            }),
    {
        if self.sockets[s].recv_buf_len() == 0 {
            return None;
        }
        let ghost pre = *self;
        let got = self.sockets[s].recv_buf.take_datagram();
        proof {
            assert(self.spec_sockets() =~= pre.spec_sockets().update(
                s as int,
                self.spec_sockets()[s as int],
            ));
            assert forall|i: int|
                0 <= i < self.registry@.len() implies match (#[trigger] self.registry@[i]).1 {
                SocketData::Udp(t) => {
                    &&& t < self.sockets@.len()
                    &&& self.sockets@[t as int].alive
                    &&& self.sockets@[t as int].local_addr == self.registry@[i].0
                },
                SocketData::Tcp => true,
            } by {}
        }
        got
    }

    /// Register `task` to be woken when a datagram arrives at socket
    /// `s`.
    pub fn socket_push_waiter(&mut self, s: usize, task: TaskId)
        requires
            old(self).wf(),
            s < old(self).spec_sockets().len(),
        ensures
            final(self).wf(),
            final(self).spec_registry() == old(self).spec_registry(),
            final(self).spec_topology() == old(self).spec_topology(),
            final(self).spec_events() == old(self).spec_events(),
            final(self).spec_params() == old(self).spec_params(),
            final(self).spec_sockets().len() == old(self).spec_sockets().len(),
            forall|t: int|
                0 <= t < old(self).spec_sockets().len() && t != s
                    ==> final(self).spec_sockets()[t] == old(self).spec_sockets()[t],
            final(self).spec_sockets()[s as int].local_addr == old(self).spec_sockets()[
                s as int
            ].local_addr,
            final(self).spec_sockets()[s as int].owner == old(self).spec_sockets()[s as int].owner,
            final(self).spec_sockets()[s as int].alive == old(self).spec_sockets()[s as int].alive,
            final(self).spec_sockets()[s as int].recv_buf == old(self).spec_sockets()[
                s as int
            ].recv_buf,
            final(self).spec_sockets()[s as int].recv_waiters@ == old(self).spec_sockets()[
                s as int
            ].recv_waiters@.push(task),
    {
        let ghost pre = *self;
        self.sockets[s].recv_waiters.push(task);
        proof {
            assert(self.spec_sockets() =~= pre.spec_sockets().update(
                s as int,
                self.spec_sockets()[s as int],
            ));
            assert forall|i: int|
                0 <= i < self.registry@.len() implies match (#[trigger] self.registry@[i]).1 {
                SocketData::Udp(t) => {
                    &&& t < self.sockets@.len()
                    &&& self.sockets@[t as int].alive
                    &&& self.sockets@[t as int].local_addr == self.registry@[i].0
                },
                SocketData::Tcp => true,
            } by {}
        }
    }

    /// Deliver one event: push the datagram into the receiver's
    /// buffer, if the receiver is still bound (a full buffer drops the
    /// datagram silently), and drain its receive waiters.  The woken
    /// tasks come back as `(owner node, task)` pairs.
    pub fn handle_event(&mut self, event: NetworkEvent) -> (woken: Vec<(usize, TaskId)>)
        requires
            old(self).wf(),
        ensures
            final(self).wf(),
            final(self).spec_registry() == old(self).spec_registry(),
            final(self).spec_topology() == old(self).spec_topology(),
            final(self).spec_events() == old(self).spec_events(),
            final(self).spec_params() == old(self).spec_params(),
            final(self).spec_sockets().len() == old(self).spec_sockets().len(),
            forall|t: int|
                0 <= t < old(self).spec_sockets().len() ==> {
                    &&& (#[trigger] final(self).spec_sockets()[t]).local_addr == old(self).spec_sockets()[t].local_addr
                    &&& final(self).spec_sockets()[t].owner == old(self).spec_sockets()[t].owner
                    &&& final(self).spec_sockets()[t].alive == old(self).spec_sockets()[t].alive
                    &&& final(self).spec_sockets()[t].recv_buf.spec_capacity() == old(self).spec_sockets()[t].recv_buf.spec_capacity()
                    &&& old(self).spec_sockets()[t].recv_buf@.is_prefix_of(
                        final(self).spec_sockets()[t].recv_buf@,
                    )
                },
            !old(self).spec_udp_registered(event.receiver) ==> final(self).spec_sockets() == old(self).spec_sockets() && woken@.len() == 0,
            old(self).spec_udp_registered(event.receiver) ==> exists|s: usize|
                {
                    &&& #[trigger] old(self).spec_udp_entry(event.receiver, s)
                    &&& s < old(self).spec_sockets().len()
                    &&& final(self).spec_sockets() == old(self).spec_sockets().update(
                        s as int,
                        final(self).spec_sockets()[s as int],
                    )
                    &&& final(self).spec_sockets()[s as int].local_addr == old(self).spec_sockets()[s as int].local_addr
                    &&& final(self).spec_sockets()[s as int].owner == old(self).spec_sockets()[
                        s as int
                    ].owner
                    &&& final(self).spec_sockets()[s as int].alive == old(self).spec_sockets()[
                        s as int
                    ].alive
                    &&& final(self).spec_sockets()[s as int].recv_buf.spec_capacity() == old(self).spec_sockets()[s as int].recv_buf.spec_capacity()
                    &&& final(self).spec_sockets()[s as int].recv_waiters@ =~= Seq::<
                        TaskId,
                    >::empty()
                    &&& (final(self).spec_sockets()[s as int].recv_buf@ == old(self).spec_sockets()[s as int].recv_buf@ || final(self).spec_sockets()[s as int].recv_buf@ == old(self).spec_sockets()[
                        s as int
                    ].recv_buf@.push(
                        Datagram { from: event.sender, to: event.receiver, data: event.data },
                    ))
                    &&& (crate::datagram::bytes_total(
                        old(self).spec_sockets()[s as int].recv_buf@,
                    ) + event.data@.len() <= old(self).spec_sockets()[
                        s as int
                    ].recv_buf.spec_capacity() ==> final(self).spec_sockets()[
                        s as int
                    ].recv_buf@ == old(self).spec_sockets()[s as int].recv_buf@.push(
                        Datagram { from: event.sender, to: event.receiver, data: event.data },
                    ))
                    &&& (crate::datagram::bytes_total(
                        old(self).spec_sockets()[s as int].recv_buf@,
                    ) + event.data@.len() > old(self).spec_sockets()[
                        s as int
                    ].recv_buf.spec_capacity() ==> final(self).spec_sockets()[
                        s as int
                    ].recv_buf@ == old(self).spec_sockets()[s as int].recv_buf@)
                    &&& woken@.len() == old(self).spec_sockets()[s as int].recv_waiters@.len()
                    &&& (forall|w: int|
                        0 <= w < woken@.len() ==> #[trigger] woken@[w] == (
                        old(self).spec_sockets()[s as int].owner,
                        old(self).spec_sockets()[s as int].recv_waiters@[w],
                        ))
                },
    {
        let receiver = event.receiver;
        let k = match self.find_entry(&receiver) {
            None => {
                proof {
                    if self.spec_udp_registered(receiver) {
                        let j = choose|j: int|
                            0 <= j < self.registry@.len() && (#[trigger] self.registry@[j]).0
                                == receiver && self.registry@[j].1 is Udp;
                    }
                }
                return Vec::new();
            },
            Some(k) => k,
        };
        let s = match self.registry[k].1.udp_index() {
            None => {
                proof {
                    if self.spec_udp_registered(receiver) {
                        let j = choose|j: int|
                            0 <= j < self.registry@.len() && (#[trigger] self.registry@[j]).0
                                == receiver && self.registry@[j].1 is Udp;
                        assert(j == k);
                    }
                }
                return Vec::new();
            },
            Some(s) => s,
        };
        proof {
            assert(self.spec_udp_registered(receiver)) by {
                assert((self.registry@[k as int]).0 == receiver);
            }
            assert(self.spec_udp_entry(receiver, s)) by {
                assert(self.registry@[k as int] == (receiver, SocketData::Udp(s)));
            }
        }
        let ghost pre = *self;
        let owner = self.sockets[s].owner;
        let dgram = Datagram { from: event.sender, to: receiver, data: event.data };
        self.sockets[s].recv_buf.add_datagram(dgram);
        let mut waiters: Vec<TaskId> = Vec::new();
        core::mem::swap(&mut waiters, &mut self.sockets[s].recv_waiters);
        let mut woken: Vec<(usize, TaskId)> = Vec::new();
        let n = waiters.len();
        for i in 0..n
            invariant
                n == waiters@.len(),
                woken@.len() == i,
                forall|w: int| 0 <= w < i ==> #[trigger] woken@[w] == (owner, waiters@[w]),
        {
            woken.push((owner, waiters[i]));
        }
        proof {
            assert(self.spec_sockets() =~= pre.spec_sockets().update(
                s as int,
                self.spec_sockets()[s as int],
            ));
            assert forall|t: int|
                0 <= t < pre.spec_sockets().len() implies pre.spec_sockets()[t].recv_buf@
                .is_prefix_of((#[trigger] self.spec_sockets()[t]).recv_buf@) by {
                if t == s {
                    let b0 = pre.spec_sockets()[t].recv_buf@;
                    let b1 = self.spec_sockets()[t].recv_buf@;
                    if b1 == b0.push(dgram) {
                        assert(b0 =~= b1.take(b0.len() as int));
                    } else {
                        assert(b0 =~= b1.take(b0.len() as int));
                    }
                } else {
                    assert(self.spec_sockets()[t] == pre.spec_sockets()[t]);
                    assert(pre.spec_sockets()[t].recv_buf@ =~= self.spec_sockets()[t]
                        .recv_buf@.take(pre.spec_sockets()[t].recv_buf@.len() as int));
                }
            }
            assert forall|i: int|
                0 <= i < self.registry@.len() implies match (#[trigger] self.registry@[i]).1 {
                SocketData::Udp(t) => {
                    &&& t < self.sockets@.len()
                    &&& self.sockets@[t as int].alive
                    &&& self.sockets@[t as int].local_addr == self.registry@[i].0
                },
                SocketData::Tcp => true,
            } by {}
        }
        woken
    }

    /// Deliver every event due no later than `timestamp`, earliest
    /// first: each datagram lands in its registered receiver's buffer
    /// unless it no longer fits, the receiver's waiting tasks are
    /// drained, and exactly those come back as `(owner, task)` pairs.
    #[verifier::rlimit(100)]
    pub fn advance_to_time(&mut self, timestamp: Timestamp) -> (woken: Vec<(usize, TaskId)>)
        requires
            old(self).wf(),
        ensures
            final(self).wf(),
            final(self).spec_registry() == old(self).spec_registry(),
            final(self).spec_topology() == old(self).spec_topology(),
            final(self).spec_params() == old(self).spec_params(),
            // every remaining event is due strictly after `timestamp`
            forall|k: int|
                0 <= k < final(self).spec_events().len()
                    ==> #[trigger] final(self).spec_events()[k].timestamp.nanos > timestamp.nanos,
            // no event appears from nowhere
            forall|e: NetworkEvent|
                final(self).spec_events().contains(e) ==> old(self).spec_events().contains(e),
            // events not yet due survive
            forall|e: NetworkEvent|
                old(self).spec_events().contains(e) && e.timestamp.nanos > timestamp.nanos
                    ==> final(self).spec_events().contains(e),
            // sockets keep their identity; buffers only grow
            final(self).spec_sockets().len() == old(self).spec_sockets().len(),
            forall|s: int|
                0 <= s < old(self).spec_sockets().len() ==> {
                    &&& (#[trigger] final(self).spec_sockets()[s]).local_addr == old(self).spec_sockets()[s].local_addr
                    &&& final(self).spec_sockets()[s].owner == old(self).spec_sockets()[s].owner
                    &&& final(self).spec_sockets()[s].alive == old(self).spec_sockets()[s].alive
                    &&& final(self).spec_sockets()[s].recv_buf.spec_capacity() == old(self).spec_sockets()[s].recv_buf.spec_capacity()
                    &&& old(self).spec_sockets()[s].recv_buf@.is_prefix_of(
                        final(self).spec_sockets()[s].recv_buf@,
                    )
                },
            // every due event was handed to its registered receiver:
            // its datagram stands in the buffer, or it did not fit
            // when it arrived
            forall|k: int|
                #![trigger old(self).spec_events()[k]]
                0 <= k < old(self).spec_events().len() && old(self).spec_events()[k]
                    .timestamp.nanos <= timestamp.nanos ==> (forall|s: usize|
                    old(self).spec_udp_entry(old(self).spec_events()[k].receiver, s)
                        ==> final(self).spec_sockets()[s as int].recv_buf@.contains(
                        spec_event_datagram(old(self).spec_events()[k]),
                    ) || crate::datagram::bytes_total(final(self).spec_sockets()[s as int].recv_buf@)
                        + old(self).spec_events()[k].data@.len() > final(self).spec_sockets()[
                        s as int
                    ].recv_buf.spec_capacity()),
            // a socket with no due delivery is untouched
            forall|s: int|
                0 <= s < old(self).spec_sockets().len() && !spec_due_to(*old(self), timestamp, s)
                    ==> final(self).spec_sockets()[s] == old(self).spec_sockets()[s],
            // a socket with a due delivery had its waiters drained
            // into `woken`
            forall|s: int|
                0 <= s < old(self).spec_sockets().len() && #[trigger] spec_due_to(
                    *old(self),
                    timestamp,
                    s,
                ) ==> final(self).spec_sockets()[s].recv_waiters@.len() == 0 && (forall|w: int|
                    0 <= w < old(self).spec_sockets()[s].recv_waiters@.len() ==> woken@.contains(
                        (
                            old(self).spec_sockets()[s].owner,
                            #[trigger] old(self).spec_sockets()[s].recv_waiters@[w],
                        ),
                    )),
            // and nothing else was woken
            forall|i: int|
                0 <= i < woken@.len() ==> spec_drained_from(
                    *old(self),
                    timestamp,
                    #[trigger] woken@[i],
                ),
            // a due socket's buffer ends exactly as delivering its due
            // datagrams, earliest first, leaves it: each appended iff
            // it fit when it arrived
            forall|s: int|
                0 <= s < old(self).spec_sockets().len() && #[trigger] spec_due_to(
                    *old(self),
                    timestamp,
                    s,
                ) ==> final(self).spec_sockets()[s].recv_buf@ == spec_deliver_into(
                    old(self).spec_sockets()[s].recv_buf@,
                    old(self).spec_sockets()[s].recv_buf.spec_capacity(),
                    spec_event_datagrams(
                        spec_deliveries(
                            old(self).spec_events(),
                            timestamp,
                            old(self).spec_sockets()[s].local_addr,
                        ),
                    ),
                ),
    {
        let mut woken: Vec<(usize, TaskId)> = Vec::new();
        proof {
            vstd::std_specs::vec::axiom_spec_len(&old(self).sockets);
        }
        loop
            invariant
                old(self).wf(),
                old(self).spec_sockets().len() <= usize::MAX,
                self.wf(),
                self.spec_registry() == old(self).spec_registry(),
                self.spec_topology() == old(self).spec_topology(),
                self.spec_params() == old(self).spec_params(),
                forall|e: NetworkEvent|
                    self.spec_events().contains(e) ==> old(self).spec_events().contains(e),
                forall|e: NetworkEvent|
                    old(self).spec_events().contains(e) && e.timestamp.nanos > timestamp.nanos
                        ==> self.spec_events().contains(e),
                self.spec_sockets().len() == old(self).spec_sockets().len(),
                forall|s: int|
                    0 <= s < old(self).spec_sockets().len() ==> {
                        &&& (#[trigger] self.spec_sockets()[s]).local_addr == old(self).spec_sockets()[s].local_addr
                        &&& self.spec_sockets()[s].owner == old(self).spec_sockets()[s].owner
                        &&& self.spec_sockets()[s].alive == old(self).spec_sockets()[s].alive
                        &&& self.spec_sockets()[s].recv_buf.spec_capacity() == old(self).spec_sockets()[s].recv_buf.spec_capacity()
                        &&& old(self).spec_sockets()[s].recv_buf@.is_prefix_of(
                            self.spec_sockets()[s].recv_buf@,
                        )
                    },
                // each due event is still queued, or already handed over
                forall|k: int|
                    #![trigger old(self).spec_events()[k]]
                    0 <= k < old(self).spec_events().len() && old(self).spec_events()[k]
                        .timestamp.nanos <= timestamp.nanos ==> self.spec_events().contains(
                        old(self).spec_events()[k],
                    ) || (forall|s: usize|
                        old(self).spec_udp_entry(old(self).spec_events()[k].receiver, s)
                            ==> self.spec_sockets()[s as int].recv_buf@.contains(
                            spec_event_datagram(old(self).spec_events()[k]),
                        ) || crate::datagram::bytes_total(self.spec_sockets()[s as int].recv_buf@)
                            + old(self).spec_events()[k].data@.len() > self.spec_sockets()[
                            s as int
                        ].recv_buf.spec_capacity()),
                // a socket with no due delivery stays untouched
                forall|s: int|
                    0 <= s < old(self).spec_sockets().len() && !spec_due_to(
                        *old(self),
                        timestamp,
                        s,
                    ) ==> self.spec_sockets()[s] == old(self).spec_sockets()[s],
                // a socket with a due delivery still has one queued and
                // its waiters intact, or was already drained
                forall|s: int|
                    0 <= s < old(self).spec_sockets().len() && #[trigger] spec_due_to(
                        *old(self),
                        timestamp,
                        s,
                    ) ==> (spec_due_event_for(
                        self.spec_events(),
                        timestamp,
                        old(self).spec_sockets()[s].local_addr,
                    ) && self.spec_sockets()[s].recv_waiters@ == old(self).spec_sockets()[
                        s
                    ].recv_waiters@) || (self.spec_sockets()[s].recv_waiters@.len() == 0 && (
                    forall|w: int|
                        0 <= w < old(self).spec_sockets()[s].recv_waiters@.len()
                            ==> woken@.contains(
                            (
                                old(self).spec_sockets()[s].owner,
                                #[trigger] old(self).spec_sockets()[s].recv_waiters@[w],
                            ),
                        ))),
                forall|i: int|
                    0 <= i < woken@.len() ==> spec_drained_from(
                        *old(self),
                        timestamp,
                        #[trigger] woken@[i],
                    ),
                forall|s: int|
                    0 <= s < old(self).spec_sockets().len() && #[trigger] spec_due_to(
                        *old(self),
                        timestamp,
                        s,
                    ) ==> spec_deliver_into(
                        self.spec_sockets()[s].recv_buf@,
                        old(self).spec_sockets()[s].recv_buf.spec_capacity(),
                        spec_event_datagrams(
                            spec_deliveries(
                                self.spec_events(),
                                timestamp,
                                old(self).spec_sockets()[s].local_addr,
                            ),
                        ),
                    ) == spec_deliver_into(
                        old(self).spec_sockets()[s].recv_buf@,
                        old(self).spec_sockets()[s].recv_buf.spec_capacity(),
                        spec_event_datagrams(
                            spec_deliveries(
                                old(self).spec_events(),
                                timestamp,
                                old(self).spec_sockets()[s].local_addr,
                            ),
                        ),
                    ),
            ensures
                self.wf(),
                self.spec_registry() == old(self).spec_registry(),
                self.spec_topology() == old(self).spec_topology(),
                self.spec_params() == old(self).spec_params(),
                forall|k: int|
                    0 <= k < self.spec_events().len()
                        ==> #[trigger] self.spec_events()[k].timestamp.nanos > timestamp.nanos,
                forall|e: NetworkEvent|
                    self.spec_events().contains(e) ==> old(self).spec_events().contains(e),
                forall|e: NetworkEvent|
                    old(self).spec_events().contains(e) && e.timestamp.nanos > timestamp.nanos
                        ==> self.spec_events().contains(e),
                self.spec_sockets().len() == old(self).spec_sockets().len(),
                forall|s: int|
                    0 <= s < old(self).spec_sockets().len() ==> {
                        &&& (#[trigger] self.spec_sockets()[s]).local_addr == old(self).spec_sockets()[s].local_addr
                        &&& self.spec_sockets()[s].owner == old(self).spec_sockets()[s].owner
                        &&& self.spec_sockets()[s].alive == old(self).spec_sockets()[s].alive
                        &&& self.spec_sockets()[s].recv_buf.spec_capacity() == old(self).spec_sockets()[s].recv_buf.spec_capacity()
                        &&& old(self).spec_sockets()[s].recv_buf@.is_prefix_of(
                            self.spec_sockets()[s].recv_buf@,
                        )
                    },
                forall|k: int|
                    #![trigger old(self).spec_events()[k]]
                    0 <= k < old(self).spec_events().len() && old(self).spec_events()[k]
                        .timestamp.nanos <= timestamp.nanos ==> (forall|s: usize|
                        old(self).spec_udp_entry(old(self).spec_events()[k].receiver, s)
                            ==> self.spec_sockets()[s as int].recv_buf@.contains(
                            spec_event_datagram(old(self).spec_events()[k]),
                        ) || crate::datagram::bytes_total(self.spec_sockets()[s as int].recv_buf@)
                            + old(self).spec_events()[k].data@.len() > self.spec_sockets()[
                            s as int
                        ].recv_buf.spec_capacity()),
                forall|s: int|
                    0 <= s < old(self).spec_sockets().len() && !spec_due_to(
                        *old(self),
                        timestamp,
                        s,
                    ) ==> self.spec_sockets()[s] == old(self).spec_sockets()[s],
                forall|s: int|
                    0 <= s < old(self).spec_sockets().len() && #[trigger] spec_due_to(
                        *old(self),
                        timestamp,
                        s,
                    ) ==> self.spec_sockets()[s].recv_waiters@.len() == 0 && (forall|w: int|
                        0 <= w < old(self).spec_sockets()[s].recv_waiters@.len()
                            ==> woken@.contains(
                            (
                                old(self).spec_sockets()[s].owner,
                                #[trigger] old(self).spec_sockets()[s].recv_waiters@[w],
                            ),
                        )),
                forall|i: int|
                    0 <= i < woken@.len() ==> spec_drained_from(
                        *old(self),
                        timestamp,
                        #[trigger] woken@[i],
                    ),
                forall|s: int|
                    0 <= s < old(self).spec_sockets().len() && #[trigger] spec_due_to(
                        *old(self),
                        timestamp,
                        s,
                    ) ==> self.spec_sockets()[s].recv_buf@ == spec_deliver_into(
                        old(self).spec_sockets()[s].recv_buf@,
                        old(self).spec_sockets()[s].recv_buf.spec_capacity(),
                        spec_event_datagrams(
                            spec_deliveries(
                                old(self).spec_events(),
                                timestamp,
                                old(self).spec_sockets()[s].local_addr,
                            ),
                        ),
                    ),
            decreases self.events.spec_events().len(),
        {
            let stop = match self.events.next_timestamp() {
                None => true,
                Some(t) => t.nanos > timestamp.nanos,
            };
            if stop {
                proof {
                    assert forall|k: int|
                        0 <= k < self.spec_events().len()
                            implies #[trigger] self.spec_events()[k].timestamp.nanos
                            > timestamp.nanos by {}
                    // nothing due remains, so the remaining deliveries
                    // are none and each due buffer has its final form
                    assert forall|a: SockAddr|
                        #[trigger] spec_deliveries(self.spec_events(), timestamp, a)
                            =~= Seq::<NetworkEvent>::empty() by {
                        if self.spec_events().len() > 0 {
                            lemma_first_min_facts(self.spec_events());
                            assert(self.spec_events()[spec_first_min(self.spec_events())]
                                .timestamp.nanos > timestamp.nanos);
                        }
                    }
                    // nothing due is queued any more, so every due
                    // event was handed over and every due socket
                    // drained
                    assert forall|k: int|
                        0 <= k < old(self).spec_events().len() && (
                        #[trigger] old(self).spec_events()[k]).timestamp.nanos <= timestamp.nanos
                            implies !self.spec_events().contains(old(self).spec_events()[k]) by {
                        if self.spec_events().contains(old(self).spec_events()[k]) {
                            let j = choose|j: int|
                                0 <= j < self.spec_events().len() && #[trigger] self.spec_events()[
                                    j
                                ] == old(self).spec_events()[k];
                        }
                    }
                    assert forall|s: int|
                        0 <= s < old(self).spec_sockets().len() && #[trigger] spec_due_to(
                            *old(self),
                            timestamp,
                            s,
                        ) implies !spec_due_event_for(
                        self.spec_events(),
                        timestamp,
                        old(self).spec_sockets()[s].local_addr,
                    ) by {
                        if spec_due_event_for(
                            self.spec_events(),
                            timestamp,
                            old(self).spec_sockets()[s].local_addr,
                        ) {
                            let j = choose|j: int|
                                #![trigger self.spec_events()[j]]
                                0 <= j < self.spec_events().len() && self.spec_events()[
                                    j
                                ].timestamp.nanos <= timestamp.nanos && self.spec_events()[
                                    j
                                ].receiver == old(self).spec_sockets()[s].local_addr;
                        }
                    }
                }
                break ;
            }
            let ghost mid = *self;
            let ghost woken_pre = woken@;
            let popped = self.events.pop_earliest();
            let event = match popped {
                None => {
                    break ;
                },
                Some(e) => e,
            };
            proof {
                let m = choose|m: int|
                    {
                        &&& 0 <= m < mid.spec_events().len()
                        &&& (forall|k: int|
                            0 <= k < mid.spec_events().len() ==> mid.spec_events()[
                                m].timestamp.nanos <= #[trigger] mid.spec_events()[
                                k].timestamp.nanos)
                        &&& (forall|k: int|
                            0 <= k < m ==> mid.spec_events()[m].timestamp.nanos < #[trigger]
                                mid.spec_events()[k].timestamp.nanos)
                        &&& popped == Some(mid.spec_events()[m])
                        &&& self.spec_events() == mid.spec_events().remove(m)
                    };
                mid.events.spec_events().remove_ensures(m);
                assert(event.timestamp.nanos <= timestamp.nanos);
                assert(mid.spec_events().contains(event)) by {
                    assert(mid.spec_events()[m] == event);
                }
                lemma_first_min_unique(mid.spec_events(), m);
                assert(bh_pop_shape(mid.spec_events(), event, self.spec_events()));
                assert forall|e: NetworkEvent|
                    self.spec_events().contains(e) implies mid.spec_events().contains(e) by {
                    let j = choose|j: int|
                        0 <= j < self.spec_events().len() && #[trigger] self.spec_events()[j] == e;
                    if j < m {
                        assert(mid.spec_events()[j] == e);
                    } else {
                        assert(mid.spec_events()[j + 1] == e);
                    }
                }
                assert forall|e: NetworkEvent|
                    mid.spec_events().contains(e) && e != event
                        implies self.spec_events().contains(e) by {
                    let j = choose|j: int|
                        0 <= j < mid.spec_events().len() && #[trigger] mid.spec_events()[j] == e;
                    assert(j != m);
                    if j < m {
                        assert(self.spec_events()[j] == e);
                    } else {
                        assert(self.spec_events()[j - 1] == e);
                    }
                }
                assert forall|e: NetworkEvent|
                    mid.spec_events().contains(e) && e.timestamp.nanos > timestamp.nanos
                        implies self.spec_events().contains(e) by {
                    assert(e != event);
                }
            }
            let ghost before_handle = *self;
            let newly = self.handle_event(event);
            let n = newly.len();
            let mut i: usize = 0;
            while i < n
                invariant
                    i <= n,
                    n == newly@.len(),
                    woken@ == woken_pre + newly@.take(i as int),
                decreases n - i,
            {
                proof {
                    assert(newly@.take(i as int + 1) =~= newly@.take(i as int).push(
                        newly@[i as int],
                    ));
                    assert(woken_pre + newly@.take(i as int + 1) =~= (woken_pre + newly@.take(
                        i as int,
                    )).push(newly@[i as int]));
                    assert(newly@[i as int] == (newly@[i as int].0, newly@[i as int].1));
                }
                woken.push((newly[i].0, newly[i].1));
                i = i + 1;
            }
            proof {
                assert(newly@.take(n as int) =~= newly@);
                assert(woken@ == woken_pre + newly@);
                assert(spec_event_datagram(event) == (Datagram {
                    from: event.sender,
                    to: event.receiver,
                    data: event.data,
                }));
                let reg = before_handle.spec_udp_registered(event.receiver);
                let hs: usize = if reg {
                    choose|s: usize|
                        {
                            &&& #[trigger] before_handle.spec_udp_entry(event.receiver, s)
                            &&& s < before_handle.spec_sockets().len()
                            &&& self.spec_sockets() == before_handle.spec_sockets().update(
                                s as int,
                                self.spec_sockets()[s as int],
                            )
                            &&& self.spec_sockets()[s as int].local_addr
                                == before_handle.spec_sockets()[s as int].local_addr
                            &&& self.spec_sockets()[s as int].owner
                                == before_handle.spec_sockets()[s as int].owner
                            &&& self.spec_sockets()[s as int].alive
                                == before_handle.spec_sockets()[s as int].alive
                            &&& self.spec_sockets()[s as int].recv_buf.spec_capacity()
                                == before_handle.spec_sockets()[s as int].recv_buf.spec_capacity()
                            &&& self.spec_sockets()[s as int].recv_waiters@ =~= Seq::<
                                TaskId,
                            >::empty()
                            &&& (self.spec_sockets()[s as int].recv_buf@
                                == before_handle.spec_sockets()[s as int].recv_buf@
                                || self.spec_sockets()[s as int].recv_buf@
                                == before_handle.spec_sockets()[s as int].recv_buf@.push(
                                Datagram {
                                    from: event.sender,
                                    to: event.receiver,
                                    data: event.data,
                                },
                            ))
                            &&& (crate::datagram::bytes_total(
                                before_handle.spec_sockets()[s as int].recv_buf@,
                            ) + event.data@.len() <= before_handle.spec_sockets()[
                                s as int
                            ].recv_buf.spec_capacity() ==> self.spec_sockets()[
                                s as int
                            ].recv_buf@ == before_handle.spec_sockets()[s as int].recv_buf@.push(
                                Datagram {
                                    from: event.sender,
                                    to: event.receiver,
                                    data: event.data,
                                },
                            ))
                            &&& (crate::datagram::bytes_total(
                                before_handle.spec_sockets()[s as int].recv_buf@,
                            ) + event.data@.len() > before_handle.spec_sockets()[
                                s as int
                            ].recv_buf.spec_capacity() ==> self.spec_sockets()[
                                s as int
                            ].recv_buf@ == before_handle.spec_sockets()[s as int].recv_buf@)
                            &&& newly@.len() == before_handle.spec_sockets()[
                                s as int
                            ].recv_waiters@.len()
                            &&& (forall|w: int|
                                0 <= w < newly@.len() ==> #[trigger] newly@[w] == (
                                before_handle.spec_sockets()[s as int].owner,
                                before_handle.spec_sockets()[s as int].recv_waiters@[w],
                                ))
                        }
                } else {
                    0usize
                };
                Self::lemma_advance_step(
                    *old(self),
                    mid,
                    before_handle,
                    *self,
                    timestamp,
                    event,
                    newly@,
                    woken_pre,
                    woken@,
                    reg,
                    hs,
                );
            }
        }
        woken
    }

    /// One delivery step preserves the driver's bookkeeping: after an
    /// event due no later than `target` is popped (`mid` to `bh`) and
    /// handed to its receiver (`bh` to `post`, slot `hs` when one is
    /// registered), every due event is still queued or handed over,
    /// untouched sockets stay untouched, due sockets keep a queued
    /// delivery or stand drained, and the woken pairs all come from
    /// drained waiters.
    #[verifier::rlimit(100)]
    proof fn lemma_advance_step(
        orig: Network,
        mid: Network,
        bh: Network,
        post: Network,
        target: Timestamp,
        event: NetworkEvent,
        newly: Seq<(usize, TaskId)>,
        woken_pre: Seq<(usize, TaskId)>,
        woken_post: Seq<(usize, TaskId)>,
        reg: bool,
        hs: usize,
    )
        requires
            orig.wf(),
            bh.wf(),
            orig.spec_sockets().len() <= usize::MAX,
            mid.spec_registry() == orig.spec_registry(),
            bh.spec_registry() == mid.spec_registry(),
            post.spec_registry() == bh.spec_registry(),
            bh.spec_sockets() == mid.spec_sockets(),
            post.spec_events() == bh.spec_events(),
            mid.spec_sockets().len() == orig.spec_sockets().len(),
            post.spec_sockets().len() == bh.spec_sockets().len(),
            forall|s: int|
                0 <= s < orig.spec_sockets().len() ==> {
                    &&& (#[trigger] mid.spec_sockets()[s]).local_addr == orig.spec_sockets()[s].local_addr
                    &&& mid.spec_sockets()[s].owner == orig.spec_sockets()[s].owner
                    &&& mid.spec_sockets()[s].recv_buf.spec_capacity() == orig.spec_sockets()[s].recv_buf.spec_capacity()
                },
            forall|s: int|
                0 <= s < bh.spec_sockets().len() ==> {
                    &&& (#[trigger] post.spec_sockets()[s]).local_addr == bh.spec_sockets()[s].local_addr
                    &&& post.spec_sockets()[s].owner == bh.spec_sockets()[s].owner
                    &&& post.spec_sockets()[s].recv_buf.spec_capacity() == bh.spec_sockets()[s].recv_buf.spec_capacity()
                },
            forall|e: NetworkEvent|
                bh.spec_events().contains(e) ==> mid.spec_events().contains(e),
            forall|e: NetworkEvent|
                mid.spec_events().contains(e) && e != event ==> bh.spec_events().contains(e),
            mid.spec_events().contains(event),
            orig.spec_events().contains(event),
            event.timestamp.nanos <= target.nanos,
            bh_pop_shape(mid.spec_events(), event, bh.spec_events()),
            forall|s: int|
                0 <= s < orig.spec_sockets().len() && #[trigger] spec_due_to(orig, target, s)
                    ==> spec_deliver_into(
                    mid.spec_sockets()[s].recv_buf@,
                    orig.spec_sockets()[s].recv_buf.spec_capacity(),
                    spec_event_datagrams(
                        spec_deliveries(
                            mid.spec_events(),
                            target,
                            orig.spec_sockets()[s].local_addr,
                        ),
                    ),
                ) == spec_deliver_into(
                    orig.spec_sockets()[s].recv_buf@,
                    orig.spec_sockets()[s].recv_buf.spec_capacity(),
                    spec_event_datagrams(
                        spec_deliveries(
                            orig.spec_events(),
                            target,
                            orig.spec_sockets()[s].local_addr,
                        ),
                    ),
                ),
            // the bookkeeping held before this step
            forall|k: int|
                #![trigger orig.spec_events()[k]]
                0 <= k < orig.spec_events().len() && orig.spec_events()[k].timestamp.nanos
                    <= target.nanos ==> mid.spec_events().contains(orig.spec_events()[k]) || (
                forall|s: usize|
                    orig.spec_udp_entry(orig.spec_events()[k].receiver, s)
                        ==> mid.spec_sockets()[s as int].recv_buf@.contains(
                        spec_event_datagram(orig.spec_events()[k]),
                    ) || crate::datagram::bytes_total(mid.spec_sockets()[s as int].recv_buf@)
                        + orig.spec_events()[k].data@.len() > mid.spec_sockets()[
                        s as int
                    ].recv_buf.spec_capacity()),
            forall|s: int|
                0 <= s < orig.spec_sockets().len() && !spec_due_to(orig, target, s)
                    ==> mid.spec_sockets()[s] == orig.spec_sockets()[s],
            forall|s: int|
                0 <= s < orig.spec_sockets().len() && #[trigger] spec_due_to(orig, target, s)
                    ==> (spec_due_event_for(
                    mid.spec_events(),
                    target,
                    orig.spec_sockets()[s].local_addr,
                ) && mid.spec_sockets()[s].recv_waiters@ == orig.spec_sockets()[s].recv_waiters@)
                    || (mid.spec_sockets()[s].recv_waiters@.len() == 0 && (forall|w: int|
                    0 <= w < orig.spec_sockets()[s].recv_waiters@.len() ==> woken_pre.contains(
                        (
                            orig.spec_sockets()[s].owner,
                            #[trigger] orig.spec_sockets()[s].recv_waiters@[w],
                        ),
                    ))),
            forall|i: int|
                0 <= i < woken_pre.len() ==> spec_drained_from(
                    orig,
                    target,
                    #[trigger] woken_pre[i],
                ),
            // the outcome of handing the event over
            reg == bh.spec_udp_registered(event.receiver),
            !reg ==> post.spec_sockets() == bh.spec_sockets() && newly.len() == 0,
            reg ==> {
                &&& (hs as int) < bh.spec_sockets().len()
                &&& bh.spec_udp_entry(event.receiver, hs)
                &&& post.spec_sockets() == bh.spec_sockets().update(
                    hs as int,
                    post.spec_sockets()[hs as int],
                )
                &&& post.spec_sockets()[hs as int].recv_waiters@.len() == 0
                &&& (post.spec_sockets()[hs as int].recv_buf@ == bh.spec_sockets()[
                    hs as int
                ].recv_buf@ || post.spec_sockets()[hs as int].recv_buf@ == bh.spec_sockets()[
                    hs as int
                ].recv_buf@.push(spec_event_datagram(event)))
                &&& (crate::datagram::bytes_total(bh.spec_sockets()[hs as int].recv_buf@)
                    + event.data@.len() <= bh.spec_sockets()[hs as int].recv_buf.spec_capacity()
                    ==> post.spec_sockets()[hs as int].recv_buf@ == bh.spec_sockets()[
                    hs as int
                ].recv_buf@.push(spec_event_datagram(event)))
                &&& (crate::datagram::bytes_total(bh.spec_sockets()[hs as int].recv_buf@)
                    + event.data@.len() > bh.spec_sockets()[hs as int].recv_buf.spec_capacity()
                    ==> post.spec_sockets()[hs as int].recv_buf@ == bh.spec_sockets()[
                    hs as int
                ].recv_buf@)
                &&& newly.len() == bh.spec_sockets()[hs as int].recv_waiters@.len()
                &&& (forall|w: int|
                    0 <= w < newly.len() ==> #[trigger] newly[w] == (
                        bh.spec_sockets()[hs as int].owner,
                        bh.spec_sockets()[hs as int].recv_waiters@[w],
                    ))
            },
            woken_post == woken_pre + newly,
        ensures
            forall|k: int|
                #![trigger orig.spec_events()[k]]
                0 <= k < orig.spec_events().len() && orig.spec_events()[k].timestamp.nanos
                    <= target.nanos ==> post.spec_events().contains(orig.spec_events()[k]) || (
                forall|s: usize|
                    orig.spec_udp_entry(orig.spec_events()[k].receiver, s)
                        ==> post.spec_sockets()[s as int].recv_buf@.contains(
                        spec_event_datagram(orig.spec_events()[k]),
                    ) || crate::datagram::bytes_total(post.spec_sockets()[s as int].recv_buf@)
                        + orig.spec_events()[k].data@.len() > post.spec_sockets()[
                        s as int
                    ].recv_buf.spec_capacity()),
            forall|s: int|
                0 <= s < orig.spec_sockets().len() && !spec_due_to(orig, target, s)
                    ==> post.spec_sockets()[s] == orig.spec_sockets()[s],
            forall|s: int|
                0 <= s < orig.spec_sockets().len() && #[trigger] spec_due_to(orig, target, s)
                    ==> (spec_due_event_for(
                    post.spec_events(),
                    target,
                    orig.spec_sockets()[s].local_addr,
                ) && post.spec_sockets()[s].recv_waiters@ == orig.spec_sockets()[s].recv_waiters@)
                    || (post.spec_sockets()[s].recv_waiters@.len() == 0 && (forall|w: int|
                    0 <= w < orig.spec_sockets()[s].recv_waiters@.len() ==> woken_post.contains(
                        (
                            orig.spec_sockets()[s].owner,
                            #[trigger] orig.spec_sockets()[s].recv_waiters@[w],
                        ),
                    ))),
            forall|i: int|
                0 <= i < woken_post.len() ==> spec_drained_from(
                    orig,
                    target,
                    #[trigger] woken_post[i],
                ),
            forall|s: int|
                0 <= s < orig.spec_sockets().len() && #[trigger] spec_due_to(orig, target, s)
                    ==> spec_deliver_into(
                    post.spec_sockets()[s].recv_buf@,
                    orig.spec_sockets()[s].recv_buf.spec_capacity(),
                    spec_event_datagrams(
                        spec_deliveries(
                            post.spec_events(),
                            target,
                            orig.spec_sockets()[s].local_addr,
                        ),
                    ),
                ) == spec_deliver_into(
                    orig.spec_sockets()[s].recv_buf@,
                    orig.spec_sockets()[s].recv_buf.spec_capacity(),
                    spec_event_datagrams(
                        spec_deliveries(
                            orig.spec_events(),
                            target,
                            orig.spec_sockets()[s].local_addr,
                        ),
                    ),
                ),
    {
        // pairs already woken stay woken
        assert forall|p: (usize, TaskId)| woken_pre.contains(p) implies woken_post.contains(p) by {
            let j = choose|j: int| 0 <= j < woken_pre.len() && #[trigger] woken_pre[j] == p;
            assert(woken_post[j] == p);
        }
        // when the receiver is registered, its slot is the due slot
        if reg {
            assert(bh.spec_sockets()[hs as int].local_addr == event.receiver) by {
                let j = choose|j: int|
                    0 <= j < bh.spec_registry().len() && #[trigger] bh.spec_registry()[j] == (
                    event.receiver,
                    SocketData::Udp(hs),
                    );
            }
            assert(orig.spec_udp_entry(event.receiver, hs));
            assert(orig.spec_sockets()[hs as int].local_addr == event.receiver);
            assert(spec_due_to(orig, target, hs as int)) by {
                let j = choose|j: int|
                    0 <= j < orig.spec_events().len() && #[trigger] orig.spec_events()[j] == event;
                assert(orig.spec_events()[j].timestamp.nanos <= target.nanos
                    && orig.spec_events()[j].receiver == orig.spec_sockets()[
                    hs as int
                ].local_addr);
            }
        }
        // untouched sockets stay untouched
        assert forall|s: int|
            0 <= s < orig.spec_sockets().len() && !spec_due_to(orig, target, s)
                implies post.spec_sockets()[s] == orig.spec_sockets()[s] by {
            if reg && s == hs as int {
                assert(spec_due_to(orig, target, s));
            } else {
                if reg {
                    assert(post.spec_sockets()[s] == bh.spec_sockets()[s]);
                } else {
                    assert(post.spec_sockets()[s] == bh.spec_sockets()[s]);
                }
                assert(mid.spec_sockets()[s] == orig.spec_sockets()[s]);
            }
        }
        // every due event is still queued or handed over
        assert forall|k: int|
            0 <= k < orig.spec_events().len() && (#[trigger] orig.spec_events()[k]).timestamp.nanos
                <= target.nanos implies post.spec_events().contains(orig.spec_events()[k]) || (
        forall|s: usize|
            orig.spec_udp_entry(orig.spec_events()[k].receiver, s)
                ==> post.spec_sockets()[s as int].recv_buf@.contains(
                spec_event_datagram(orig.spec_events()[k]),
            ) || crate::datagram::bytes_total(post.spec_sockets()[s as int].recv_buf@)
                + orig.spec_events()[k].data@.len() > post.spec_sockets()[
                s as int
            ].recv_buf.spec_capacity()) by {
            let ev = orig.spec_events()[k];
            if !post.spec_events().contains(ev) {
                assert forall|s: usize|
                    orig.spec_udp_entry(ev.receiver, s)
                        implies post.spec_sockets()[s as int].recv_buf@.contains(
                        spec_event_datagram(ev),
                    ) || crate::datagram::bytes_total(post.spec_sockets()[s as int].recv_buf@)
                        + ev.data@.len() > post.spec_sockets()[
                        s as int
                    ].recv_buf.spec_capacity() by {
                    assert((s as int) < orig.spec_sockets().len()) by {
                        let j = choose|j: int|
                            0 <= j < orig.spec_registry().len() && #[trigger] orig.spec_registry()[
                                j
                            ] == (ev.receiver, SocketData::Udp(s));
                        assert(orig.wf());
                    }
                    if mid.spec_events().contains(ev) && ev != event {
                        // it would have survived the pop
                        assert(bh.spec_events().contains(ev));
                        assert(false);
                    } else if ev == event {
                        // handed over in this very step
                        assert(bh.spec_udp_registered(ev.receiver)) by {
                            let j = choose|j: int|
                                0 <= j < orig.spec_registry().len()
                                    && #[trigger] orig.spec_registry()[j] == (
                                ev.receiver,
                                SocketData::Udp(s),
                                );
                            assert((bh.spec_registry()[j]).0 == ev.receiver);
                            assert(bh.spec_registry()[j].1 is Udp);
                        }
                        lemma_entry_unique(bh, ev.receiver, s, hs);
                        let b0 = bh.spec_sockets()[hs as int].recv_buf@;
                        let b1 = post.spec_sockets()[hs as int].recv_buf@;
                        if b1 == b0.push(spec_event_datagram(ev)) {
                            assert(b1[b0.len() as int] == spec_event_datagram(ev));
                            assert(b1.contains(spec_event_datagram(ev)));
                        } else {
                            assert(b1 == b0);
                            assert(crate::datagram::bytes_total(b0) + ev.data@.len()
                                > bh.spec_sockets()[hs as int].recv_buf.spec_capacity());
                        }
                    } else {
                        // handed over earlier: the hand-over survives
                        assert(!mid.spec_events().contains(ev));
                        assert(mid.spec_sockets()[s as int].recv_buf@.contains(
                            spec_event_datagram(ev),
                        ) || crate::datagram::bytes_total(mid.spec_sockets()[s as int].recv_buf@)
                            + ev.data@.len() > mid.spec_sockets()[
                            s as int
                        ].recv_buf.spec_capacity());
                        let c0 = bh.spec_sockets()[s as int].recv_buf@;
                        let c1 = post.spec_sockets()[s as int].recv_buf@;
                        if reg && s as int == hs as int {
                            if c1 == c0.push(spec_event_datagram(event)) {
                                assert(c1.drop_last() =~= c0);
                                assert(crate::datagram::bytes_total(c1)
                                    == crate::datagram::bytes_total(c0) + event.data@.len());
                                if c0.contains(spec_event_datagram(ev)) {
                                    let j = choose|j: int|
                                        0 <= j < c0.len() && #[trigger] c0[j]
                                            == spec_event_datagram(ev);
                                    assert(c1[j] == spec_event_datagram(ev));
                                }
                            } else {
                                assert(c1 == c0);
                            }
                        } else {
                            assert(c1 == c0);
                        }
                    }
                }
            }
        }
        // due sockets keep a queued delivery with waiters intact, or
        // stand drained with their waiters woken
        assert forall|s: int|
            0 <= s < orig.spec_sockets().len() && #[trigger] spec_due_to(orig, target, s)
                implies (spec_due_event_for(
            post.spec_events(),
            target,
            orig.spec_sockets()[s].local_addr,
        ) && post.spec_sockets()[s].recv_waiters@ == orig.spec_sockets()[s].recv_waiters@) || (
        post.spec_sockets()[s].recv_waiters@.len() == 0 && (forall|w: int|
            0 <= w < orig.spec_sockets()[s].recv_waiters@.len() ==> woken_post.contains(
                (
                    orig.spec_sockets()[s].owner,
                    #[trigger] orig.spec_sockets()[s].recv_waiters@[w],
                ),
            ))) by {
            let addr = orig.spec_sockets()[s].local_addr;
            if mid.spec_sockets()[s].recv_waiters@.len() == 0 && (forall|w: int|
                0 <= w < orig.spec_sockets()[s].recv_waiters@.len() ==> woken_pre.contains(
                    (orig.spec_sockets()[s].owner, #[trigger] orig.spec_sockets()[s].recv_waiters@[w]),
                )) {
                // already drained; it stays drained and the pairs stay
                if reg && s == hs as int {
                    assert(post.spec_sockets()[s].recv_waiters@.len() == 0);
                } else {
                    assert(post.spec_sockets()[s] == bh.spec_sockets()[s]);
                }
                assert forall|w: int|
                    0 <= w < orig.spec_sockets()[s].recv_waiters@.len()
                        implies woken_post.contains(
                    (
                        orig.spec_sockets()[s].owner,
                        #[trigger] orig.spec_sockets()[s].recv_waiters@[w],
                    ),
                ) by {
                    assert(woken_pre.contains(
                        (orig.spec_sockets()[s].owner, orig.spec_sockets()[s].recv_waiters@[w]),
                    ));
                }
            } else {
                // it still had a queued delivery and its waiters
                assert(spec_due_event_for(mid.spec_events(), target, addr)
                    && mid.spec_sockets()[s].recv_waiters@ == orig.spec_sockets()[
                    s
                ].recv_waiters@);
                if reg && s == hs as int {
                    // drained in this step: the waiters go to `woken`
                    assert(post.spec_sockets()[s].recv_waiters@.len() == 0);
                    assert forall|w: int|
                        0 <= w < orig.spec_sockets()[s].recv_waiters@.len()
                            implies woken_post.contains(
                        (
                            orig.spec_sockets()[s].owner,
                            #[trigger] orig.spec_sockets()[s].recv_waiters@[w],
                        ),
                    ) by {
                        assert(newly[w] == (
                            bh.spec_sockets()[hs as int].owner,
                            bh.spec_sockets()[hs as int].recv_waiters@[w],
                        ));
                        assert(bh.spec_sockets()[hs as int].owner == orig.spec_sockets()[
                            s
                        ].owner);
                        assert(bh.spec_sockets()[hs as int].recv_waiters@[w]
                            == orig.spec_sockets()[s].recv_waiters@[w]);
                        assert(woken_post[woken_pre.len() + w] == newly[w]);
                    }
                } else {
                    // untouched in this step: find a surviving queued
                    // delivery
                    assert(post.spec_sockets()[s] == bh.spec_sockets()[s]);
                    assert(post.spec_sockets()[s].recv_waiters@ == orig.spec_sockets()[
                        s
                    ].recv_waiters@);
                    let j = choose|j: int|
                        #![trigger mid.spec_events()[j]]
                        0 <= j < mid.spec_events().len() && mid.spec_events()[j].timestamp.nanos
                            <= target.nanos && mid.spec_events()[j].receiver == addr;
                    if mid.spec_events()[j] == event {
                        // then this slot would be the handled one
                        assert(event.receiver == addr);
                        assert(spec_due_to(orig, target, s));
                        assert(orig.spec_udp_entry(addr, s as usize));
                        assert(bh.spec_udp_entry(addr, s as usize)) by {
                            let jj = choose|jj: int|
                                0 <= jj < orig.spec_registry().len()
                                    && #[trigger] orig.spec_registry()[jj] == (
                                addr,
                                SocketData::Udp(s as usize),
                                );
                            assert(bh.spec_registry()[jj] == (addr, SocketData::Udp(s as usize)));
                        }
                        assert(bh.spec_udp_registered(addr)) by {
                            let jj = choose|jj: int|
                                0 <= jj < bh.spec_registry().len()
                                    && #[trigger] bh.spec_registry()[jj] == (
                                addr,
                                SocketData::Udp(s as usize),
                                );
                            assert((bh.spec_registry()[jj]).0 == addr);
                            assert(bh.spec_registry()[jj].1 is Udp);
                        }
                        assert(reg);
                        lemma_entry_unique(bh, addr, s as usize, hs);
                        assert(s as usize == hs);
                        assert(0 <= s <= usize::MAX as int);
                        assert(s == hs as int);
                        assert(false);
                    } else {
                        assert(bh.spec_events().contains(mid.spec_events()[j]));
                        let jj = choose|jj: int|
                            0 <= jj < bh.spec_events().len() && #[trigger] bh.spec_events()[jj]
                                == mid.spec_events()[j];
                        assert(spec_due_event_for(post.spec_events(), target, addr));
                    }
                }
            }
        }
        // one pop step of the delivery fold: the popped event either
        // belongs to the socket (and the buffer takes one fold step)
        // or not (and both sides are untouched)
        let me = spec_first_min(mid.spec_events());
        lemma_first_min_facts(mid.spec_events());
        assert forall|s: int|
            0 <= s < orig.spec_sockets().len() && #[trigger] spec_due_to(orig, target, s)
                implies spec_deliver_into(
            post.spec_sockets()[s].recv_buf@,
            orig.spec_sockets()[s].recv_buf.spec_capacity(),
            spec_event_datagrams(
                spec_deliveries(post.spec_events(), target, orig.spec_sockets()[s].local_addr),
            ),
        ) == spec_deliver_into(
            orig.spec_sockets()[s].recv_buf@,
            orig.spec_sockets()[s].recv_buf.spec_capacity(),
            spec_event_datagrams(
                spec_deliveries(orig.spec_events(), target, orig.spec_sockets()[s].local_addr),
            ),
        ) by {
            let addr = orig.spec_sockets()[s].local_addr;
            let cap = orig.spec_sockets()[s].recv_buf.spec_capacity();
            let d_mid = spec_deliveries(mid.spec_events(), target, addr);
            let d_post = spec_deliveries(post.spec_events(), target, addr);
            assert(post.spec_events() == bh.spec_events());
            assert(mid.spec_events()[me] == event);
            assert(event.timestamp.nanos <= target.nanos);
            if event.receiver == addr {
                // this socket is the handled slot
                assert(orig.spec_udp_entry(addr, s as usize));
                assert(bh.spec_udp_entry(addr, s as usize)) by {
                    let jj = choose|jj: int|
                        0 <= jj < orig.spec_registry().len() && #[trigger] orig.spec_registry()[
                            jj
                        ] == (addr, SocketData::Udp(s as usize));
                    assert(bh.spec_registry()[jj] == (addr, SocketData::Udp(s as usize)));
                }
                assert(bh.spec_udp_registered(addr)) by {
                    let jj = choose|jj: int|
                        0 <= jj < bh.spec_registry().len() && #[trigger] bh.spec_registry()[jj]
                            == (addr, SocketData::Udp(s as usize));
                    assert((bh.spec_registry()[jj]).0 == addr);
                    assert(bh.spec_registry()[jj].1 is Udp);
                }
                assert(reg);
                lemma_entry_unique(bh, addr, s as usize, hs);
                assert(s == hs as int);
                assert(d_mid == seq![event] + d_post);
                let ds_mid = spec_event_datagrams(d_mid);
                let ds_post = spec_event_datagrams(d_post);
                assert(ds_mid == seq![spec_event_datagram(event)] + ds_post) by {
                    assert(d_mid[0] == event);
                    assert(d_mid.drop_first() =~= d_post);
                }
                assert(ds_mid.len() > 0);
                assert(ds_mid[0] == spec_event_datagram(event));
                assert(ds_mid.drop_first() =~= ds_post);
                let b_mid = mid.spec_sockets()[s].recv_buf@;
                let b_post = post.spec_sockets()[s].recv_buf@;
                let stepped = if crate::datagram::bytes_total(b_mid)
                    + spec_event_datagram(event).data@.len() <= cap {
                    b_mid.push(spec_event_datagram(event))
                } else {
                    b_mid
                };
                assert(spec_deliver_into(b_mid, cap, ds_mid) == spec_deliver_into(
                    stepped,
                    cap,
                    ds_post,
                ));
                assert(b_post == stepped) by {
                    assert(bh.spec_sockets()[s] == mid.spec_sockets()[s]);
                    assert(spec_event_datagram(event).data@ == event.data@);
                }
            } else {
                // untouched: the popped event is someone else's
                if reg && s == hs as int {
                    assert(bh.spec_sockets()[hs as int].local_addr == event.receiver) by {
                        let j = choose|j: int|
                            0 <= j < bh.spec_registry().len() && #[trigger] bh.spec_registry()[j]
                                == (event.receiver, SocketData::Udp(hs));
                    }
                    assert(orig.spec_sockets()[s].local_addr == event.receiver);
                    assert(false);
                }
                assert(post.spec_sockets()[s] == bh.spec_sockets()[s]);
                assert(post.spec_sockets()[s].recv_buf@ == mid.spec_sockets()[s].recv_buf@);
                assert(d_mid == d_post);
            }
        }
        // every woken pair comes from a drained waiter
        assert forall|i: int|
            0 <= i < woken_post.len() implies spec_drained_from(
            orig,
            target,
            #[trigger] woken_post[i],
        ) by {
            if i < woken_pre.len() {
                assert(woken_post[i] == woken_pre[i]);
            } else {
                assert(reg);
                assert(woken_post[i] == newly[i - woken_pre.len()]);
                let w = i - woken_pre.len();
                assert(newly[w] == (
                    bh.spec_sockets()[hs as int].owner,
                    bh.spec_sockets()[hs as int].recv_waiters@[w],
                ));
                // the handled slot still held its waiters — the ones
                // registered before this advance began
                assert(bh.spec_sockets()[hs as int].recv_waiters@.len() > 0);
                assert(spec_due_to(orig, target, hs as int));
                assert(mid.spec_sockets()[hs as int].recv_waiters@ == orig.spec_sockets()[
                    hs as int
                ].recv_waiters@) by {
                    if mid.spec_sockets()[hs as int].recv_waiters@.len() == 0 {
                    }
                }
                assert(orig.spec_sockets()[hs as int].recv_waiters@.contains(
                    bh.spec_sockets()[hs as int].recv_waiters@[w],
                )) by {
                    assert(orig.spec_sockets()[hs as int].recv_waiters@[w] == bh.spec_sockets()[
                        hs as int
                    ].recv_waiters@[w]);
                }
                assert(orig.spec_sockets()[hs as int].owner == bh.spec_sockets()[
                    hs as int
                ].owner);
            }
        }
    }

}

} // verus!

verus! {

/// The shape of one pop: `post` is `pre` with its earliest event —
/// `popped` — taken out at the earliest-first position.
pub open spec fn bh_pop_shape(
    pre: Seq<NetworkEvent>,
    popped: NetworkEvent,
    post: Seq<NetworkEvent>,
) -> bool {
    &&& pre.len() > 0
    &&& popped == pre[spec_first_min(pre)]
    &&& post == pre.remove(spec_first_min(pre))
}

/// The position of the earliest event — the first among equals, the
/// one `pop_earliest` takes.
pub open spec fn spec_first_min(events: Seq<NetworkEvent>) -> int
    decreases events.len(),
{
    if events.len() <= 1 {
        0
    } else {
        let m = spec_first_min(events.drop_first());
        if events[0].timestamp.nanos <= events[m + 1].timestamp.nanos {
            0
        } else {
            m + 1
        }
    }
}

/// The earliest-first position is in range, attains the minimum, and
/// is strictly earlier than everything before it.
pub proof fn lemma_first_min_facts(events: Seq<NetworkEvent>)
    requires
        events.len() > 0,
    ensures
        0 <= spec_first_min(events) < events.len(),
        forall|k: int|
            0 <= k < events.len() ==> events[spec_first_min(events)].timestamp.nanos <= (
            #[trigger] events[k]).timestamp.nanos,
        forall|k: int|
            0 <= k < spec_first_min(events) ==> events[spec_first_min(events)].timestamp.nanos < (
            #[trigger] events[k]).timestamp.nanos,
    decreases events.len(),
{
    if events.len() > 1 {
        lemma_first_min_facts(events.drop_first());
        let t = events.drop_first();
        let mt = spec_first_min(t);
        let f = spec_first_min(events);
        assert forall|k: int| 0 <= k < t.len() implies #[trigger] t[k] == events[k + 1] by {}
        if events[0].timestamp.nanos <= events[mt + 1].timestamp.nanos {
            assert(f == 0);
            assert forall|k: int|
                0 <= k < events.len() implies events[f].timestamp.nanos <= (
            #[trigger] events[k]).timestamp.nanos by {
                if k >= 1 {
                    assert(t[mt].timestamp.nanos <= t[k - 1].timestamp.nanos);
                    assert(events[k] == t[k - 1]);
                    assert(events[mt + 1] == t[mt]);
                }
            }
        } else {
            assert(f == mt + 1);
            assert(events[f] == t[mt]);
            assert forall|k: int|
                0 <= k < events.len() implies events[f].timestamp.nanos <= (
            #[trigger] events[k]).timestamp.nanos by {
                if k >= 1 {
                    assert(t[mt].timestamp.nanos <= t[k - 1].timestamp.nanos);
                    assert(events[k] == t[k - 1]);
                }
            }
            assert forall|k: int|
                0 <= k < f implies events[f].timestamp.nanos < (
            #[trigger] events[k]).timestamp.nanos by {
                if k >= 1 {
                    assert(t[mt].timestamp.nanos < t[k - 1].timestamp.nanos);
                    assert(events[k] == t[k - 1]);
                }
            }
        }
    }
}

/// Two positions that both attain the minimum first are the same.
pub proof fn lemma_first_min_unique(events: Seq<NetworkEvent>, m: int)
    requires
        0 <= m < events.len(),
        forall|k: int|
            0 <= k < events.len() ==> events[m].timestamp.nanos <= (
            #[trigger] events[k]).timestamp.nanos,
        forall|k: int|
            0 <= k < m ==> events[m].timestamp.nanos < (#[trigger] events[k]).timestamp.nanos,
    ensures
        m == spec_first_min(events),
{
    lemma_first_min_facts(events);
    let f = spec_first_min(events);
    if m < f {
        assert(events[f].timestamp.nanos < events[m].timestamp.nanos);
    } else if f < m {
        assert(events[m].timestamp.nanos < events[f].timestamp.nanos);
    }
}

/// The deliveries that advancing to `target` makes to `addr`: the due
/// events addressed to it, in the order they are popped — earliest
/// first, first-inserted among equals.
pub open spec fn spec_deliveries(
    events: Seq<NetworkEvent>,
    target: Timestamp,
    addr: SockAddr,
) -> Seq<NetworkEvent>
    decreases events.len() via spec_deliveries_decreases
{
    if events.len() == 0 {
        Seq::<NetworkEvent>::empty()
    } else {
        let m = spec_first_min(events);
        let e = events[m];
        if e.timestamp.nanos > target.nanos {
            Seq::<NetworkEvent>::empty()
        } else {
            let rest = spec_deliveries(events.remove(m), target, addr);
            if e.receiver == addr {
                seq![e] + rest
            } else {
                rest
            }
        }
    }
}

#[via_fn]
proof fn spec_deliveries_decreases(events: Seq<NetworkEvent>, target: Timestamp, addr: SockAddr) {
    if events.len() > 0 {
        lemma_first_min_facts(events);
    }
}

/// The datagrams a sequence of events carries, in order.
pub open spec fn spec_event_datagrams(es: Seq<NetworkEvent>) -> Seq<Datagram>
    decreases es.len(),
{
    if es.len() == 0 {
        Seq::<Datagram>::empty()
    } else {
        seq![spec_event_datagram(es[0])] + spec_event_datagrams(es.drop_first())
    }
}

/// Deliver `ds` into a buffer of capacity `cap`, in order, dropping
/// each datagram that does not fit when it arrives.
pub open spec fn spec_deliver_into(buf: Seq<Datagram>, cap: int, ds: Seq<Datagram>) -> Seq<
    Datagram,
>
    decreases ds.len(),
{
    if ds.len() == 0 {
        buf
    } else {
        let next = if crate::datagram::bytes_total(buf) + ds[0].data@.len() <= cap {
            buf.push(ds[0])
        } else {
            buf
        };
        spec_deliver_into(next, cap, ds.drop_first())
    }
}

/// Every delivery is due and addressed to the socket, and deliveries
/// come in nondecreasing timestamp order.
pub proof fn lemma_deliveries_ordered(events: Seq<NetworkEvent>, target: Timestamp, addr: SockAddr)
    ensures
        forall|i: int|
            0 <= i < spec_deliveries(events, target, addr).len() ==> (
            #[trigger] spec_deliveries(events, target, addr)[i]).timestamp.nanos <= target.nanos
                && spec_deliveries(events, target, addr)[i].receiver == addr,
        forall|i: int, j: int|
            0 <= i <= j < spec_deliveries(events, target, addr).len() ==> (
            #[trigger] spec_deliveries(events, target, addr)[i]).timestamp.nanos <= (
            #[trigger] spec_deliveries(events, target, addr)[j]).timestamp.nanos,
        forall|i: int|
            0 <= i < spec_deliveries(events, target, addr).len() ==> events.contains(
                #[trigger] spec_deliveries(events, target, addr)[i],
            ),
    decreases events.len(),
{
    if events.len() == 0 {
    } else {
        let m = spec_first_min(events);
        lemma_first_min_facts(events);
        let e = events[m];
        if e.timestamp.nanos > target.nanos {
        } else {
            let sub = events.remove(m);
            lemma_deliveries_ordered(sub, target, addr);
            events.remove_ensures(m);
            let d = spec_deliveries(events, target, addr);
            let rest = spec_deliveries(sub, target, addr);
            assert forall|i: int|
                0 <= i < sub.len() implies events.contains(#[trigger] sub[i]) by {
                if i < m {
                    assert(events[i] == sub[i]);
                } else {
                    assert(events[i + 1] == sub[i]);
                }
            }
            assert forall|i: int|
                0 <= i < rest.len() implies (#[trigger] rest[i]).timestamp.nanos
                >= e.timestamp.nanos by {
                assert(sub.contains(rest[i]));
                let j = choose|j: int| 0 <= j < sub.len() && #[trigger] sub[j] == rest[i];
                if j < m {
                    assert(events[j] == sub[j]);
                } else {
                    assert(events[j + 1] == sub[j]);
                }
            }
            if e.receiver == addr {
                assert(d == seq![e] + rest);
                assert(d[0] == e);
                assert forall|i: int| 1 <= i < d.len() implies #[trigger] d[i] == rest[i - 1] by {}
                assert forall|i: int|
                    0 <= i < d.len() implies events.contains(#[trigger] d[i]) by {
                    if i == 0 {
                        assert(events[m] == e);
                    } else {
                        assert(sub.contains(rest[i - 1]));
                        let j = choose|j: int|
                            0 <= j < sub.len() && #[trigger] sub[j] == rest[i - 1];
                        if j < m {
                            assert(events[j] == sub[j]);
                        } else {
                            assert(events[j + 1] == sub[j]);
                        }
                    }
                }
            } else {
                assert(d == rest);
                assert forall|i: int|
                    0 <= i < d.len() implies events.contains(#[trigger] d[i]) by {
                    assert(sub.contains(d[i]));
                    let j = choose|j: int| 0 <= j < sub.len() && #[trigger] sub[j] == d[i];
                    if j < m {
                        assert(events[j] == sub[j]);
                    } else {
                        assert(events[j + 1] == sub[j]);
                    }
                }
            }
        }
    }
}

} // verus!

verus! {

/// The single-delivery case composed out: with exactly one scheduled
/// event, due and addressed to the socket in slot `s`, whose payload
/// fits the socket's empty buffer, advancing past its timestamp
/// leaves exactly that datagram in the buffer.
pub proof fn lemma_single_due_delivery(
    pre: Network,
    post: Network,
    target: Timestamp,
    s: int,
    e: NetworkEvent,
)
    requires
        pre.wf(),
        pre.spec_events() == seq![e],
        e.timestamp.nanos <= target.nanos,
        0 <= s < pre.spec_sockets().len(),
        pre.spec_udp_entry(pre.spec_sockets()[s].local_addr, s as usize),
        e.receiver == pre.spec_sockets()[s].local_addr,
        pre.spec_sockets()[s].recv_buf@ =~= Seq::<Datagram>::empty(),
        e.data@.len() <= pre.spec_sockets()[s].recv_buf.spec_capacity(),
        // what `advance_to_time` ensures of the due socket
        post.spec_sockets()[s].recv_buf@ == spec_deliver_into(
            pre.spec_sockets()[s].recv_buf@,
            pre.spec_sockets()[s].recv_buf.spec_capacity(),
            spec_event_datagrams(
                spec_deliveries(pre.spec_events(), target, pre.spec_sockets()[s].local_addr),
            ),
        ),
    ensures
        post.spec_sockets()[s].recv_buf@ == seq![spec_event_datagram(e)],
{
    let addr = pre.spec_sockets()[s].local_addr;
    let cap = pre.spec_sockets()[s].recv_buf.spec_capacity();
    let events = pre.spec_events();
    lemma_first_min_facts(events);
    assert(spec_first_min(events) == 0);
    assert(events[0] == e);
    assert(events.remove(0) =~= Seq::<NetworkEvent>::empty());
    assert(spec_deliveries(events.remove(0), target, addr) =~= Seq::<NetworkEvent>::empty());
    assert(spec_deliveries(events, target, addr) == seq![e] + spec_deliveries(
        events.remove(0),
        target,
        addr,
    ));
    assert(spec_deliveries(events, target, addr) =~= seq![e]);
    let ds = spec_event_datagrams(seq![e]);
    assert(seq![e].drop_first() =~= Seq::<NetworkEvent>::empty());
    assert(spec_event_datagrams(seq![e].drop_first()) =~= Seq::<Datagram>::empty());
    assert(ds == seq![spec_event_datagram(seq![e][0])] + spec_event_datagrams(
        seq![e].drop_first(),
    ));
    assert(ds =~= seq![spec_event_datagram(e)]);
    let empty_buf = pre.spec_sockets()[s].recv_buf@;
    assert(crate::datagram::bytes_total(empty_buf) == 0);
    assert(spec_event_datagram(e).data@ == e.data@);
    assert(ds.drop_first() =~= Seq::<Datagram>::empty());
    assert(spec_deliver_into(empty_buf, cap, ds) == spec_deliver_into(
        empty_buf.push(spec_event_datagram(e)),
        cap,
        Seq::<Datagram>::empty(),
    ));
    assert(empty_buf.push(spec_event_datagram(e)) =~= seq![spec_event_datagram(e)]);
}

} // verus!
