//! The reachability topology of the virtual network.
//!
//! A directed-link set over the registered node addresses.  Registering
//! a node links it in both directions with every node registered so
//! far (and with itself); `separate` cuts a group off from the rest;
//! `repair` relinks a group; `repair_all` restores the full mesh.
//! Reachability is a strict one-hop model: `hops` is `0` for a node to
//! itself, `1` over a present link, and undefined otherwise.

use vstd::prelude::*;

use crate::addr::IpAddr;
use crate::seq_util::lemma_push_contains;
use crate::seq_util::lemma_take_full;
use crate::seq_util::lemma_take_push;

verus! {

pub struct NetworkTopology {
    nodes: Vec<IpAddr>,
    links: Vec<(IpAddr, IpAddr)>,
}

/// Whether `separate(group)` on topology `pre` severs the directed
/// pair `(a, b)`: exactly one endpoint lies in the group, and the
/// other is a registered node.
pub open spec fn spec_severed(
    pre: NetworkTopology,
    group: Seq<IpAddr>,
    a: IpAddr,
    b: IpAddr,
) -> bool {
    ||| (group.contains(a) && pre.spec_registered(b) && !group.contains(b))
    ||| (group.contains(b) && pre.spec_registered(a) && !group.contains(a))
}

/// The state relation of `separate`: nodes are kept, and a link
/// survives iff it was present and not severed.
pub open spec fn separate_post(
    pre: NetworkTopology,
    post: NetworkTopology,
    group: Seq<IpAddr>,
) -> bool {
    &&& forall|x: IpAddr| post.spec_registered(x) <==> pre.spec_registered(x)
    &&& forall|a: IpAddr, b: IpAddr|
        post.spec_link(a, b) <==> pre.spec_link(a, b) && !spec_severed(pre, group, a, b)
}

/// The state relation of `repair`: nodes are kept, and every ordered
/// pair within the group is added to the links.
pub open spec fn repair_post(
    pre: NetworkTopology,
    post: NetworkTopology,
    group: Seq<IpAddr>,
) -> bool {
    &&& forall|x: IpAddr| post.spec_registered(x) <==> pre.spec_registered(x)
    &&& forall|a: IpAddr, b: IpAddr|
        post.spec_link(a, b) <==> pre.spec_link(a, b) || (group.contains(a) && group.contains(b))
}

impl NetworkTopology {
    /// Whether `ip` is a registered node.
    pub closed spec fn spec_registered(self, ip: IpAddr) -> bool {
        self.nodes@.contains(ip)
    }

    /// Whether the directed link `(a, b)` is present.
    pub closed spec fn spec_link(self, a: IpAddr, b: IpAddr) -> bool {
        self.links@.contains((a, b))
    }

    /// The one-hop distance: `0` from a registered node to itself, `1`
    /// over a present link, undefined otherwise.
    pub open spec fn spec_hops(self, from: IpAddr, to: IpAddr) -> Option<usize> {
        if !self.spec_registered(from) || !self.spec_registered(to) {
            None
        } else if from == to {
            Some(0usize)
        } else if self.spec_link(from, to) {
            Some(1usize)
        } else {
            None
        }
    }

    /// Every registered node is linked to every registered node.
    pub open spec fn spec_full_mesh(self) -> bool {
        forall|a: IpAddr, b: IpAddr|
            self.spec_registered(a) && self.spec_registered(b) ==> self.spec_link(a, b)
    }

    pub fn new() -> (r: NetworkTopology)
        ensures
            forall|x: IpAddr| !r.spec_registered(x),
            forall|a: IpAddr, b: IpAddr| !r.spec_link(a, b),
    {
        NetworkTopology { nodes: Vec::new(), links: Vec::new() }
    }

    /// Register `ip` and link it, in both directions, with every
    /// registered node — itself included.
    pub fn register_node(&mut self, ip: IpAddr)
        ensures
            forall|x: IpAddr|
                final(self).spec_registered(x) <==> old(self).spec_registered(x) || x == ip,
            forall|a: IpAddr, b: IpAddr|
                final(self).spec_link(a, b) <==> old(self).spec_link(a, b)
                    || (a == ip && final(self).spec_registered(b))
                    || (b == ip && final(self).spec_registered(a)),
    {
        if !contains_ip(&self.nodes, &ip) {
            proof {
                lemma_push_contains(self.nodes@, ip);
            }
            self.nodes.push(ip);
        }
        let ghost nodes_snap = self.nodes@;
        let ghost links0 = self.links@;
        let n = self.nodes.len();
        for i in 0..n
            invariant
                self.nodes@ == nodes_snap,
                n == nodes_snap.len(),
                forall|a: IpAddr, b: IpAddr|
                    #[trigger] self.links@.contains((a, b)) <==> links0.contains((a, b))
                        || (a == ip && nodes_snap.take(i as int).contains(b))
                        || (b == ip && nodes_snap.take(i as int).contains(a)),
        {
            let o = self.nodes[i];
            let ghost before = self.links@;
            add_link(&mut self.links, ip, o);
            let ghost mid = self.links@;
            add_link(&mut self.links, o, ip);
            proof {
                lemma_take_push(nodes_snap, i as int);
                assert forall|a: IpAddr, b: IpAddr|
                    #[trigger] self.links@.contains((a, b)) <==> links0.contains((a, b))
                        || (a == ip && nodes_snap.take(i as int + 1).contains(b))
                        || (b == ip && nodes_snap.take(i as int + 1).contains(a)) by {
                    assert(self.links@.contains((a, b)) <==> mid.contains((a, b))
                        || (a, b) == (o, ip));
                    assert(mid.contains((a, b)) <==> before.contains((a, b))
                        || (a, b) == (ip, o));
                }
            }
        }
        proof {
            lemma_take_full(nodes_snap);
            assert(nodes_snap.take(n as int) == nodes_snap.take(nodes_snap.len() as int));
        }
    }

    /// Cut every link between a group member and a registered node
    /// outside the group, in both directions.  Links within the group,
    /// and links among non-members, are left as they were.
    pub fn separate(&mut self, group: &Vec<IpAddr>)
        requires
            forall|g: IpAddr| group@.contains(g) ==> old(self).spec_registered(g),
        ensures
            separate_post(*old(self), *final(self), group@),
    {
        let ghost pre = *self;
        let mut kept: Vec<(IpAddr, IpAddr)> = Vec::new();
        let n = self.links.len();
        for i in 0..n
            invariant
                *self == pre,
                n == pre.links@.len(),
                forall|p: (IpAddr, IpAddr)|
                    #[trigger] kept@.contains(p) ==> pre.links@.contains(p)
                        && !spec_severed(pre, group@, p.0, p.1),
                forall|j: int|
                    0 <= j < i && !spec_severed(pre, group@, pre.links@[j].0, pre.links@[j].1)
                        ==> kept@.contains(#[trigger] pre.links@[j]),
        {
            let p = self.links[i];
            let a_group = contains_ip(group, &p.0);
            let b_group = contains_ip(group, &p.1);
            let a_node = contains_ip(&self.nodes, &p.0);
            let b_node = contains_ip(&self.nodes, &p.1);
            let severed = (a_group && b_node && !b_group) || (b_group && a_node && !a_group);
            proof {
                assert(severed == spec_severed(pre, group@, p.0, p.1));
            }
            if !severed {
                proof {
                    lemma_push_contains(kept@, p);
                    assert(pre.links@[i as int] == p);
                }
                kept.push(p);
            }
        }
        self.links = kept;
        proof {
            assert forall|a: IpAddr, b: IpAddr|
                #[trigger] self.links@.contains((a, b)) <==> pre.links@.contains((a, b))
                    && !spec_severed(pre, group@, a, b) by {
                if pre.links@.contains((a, b)) && !spec_severed(pre, group@, a, b) {
                    let j = choose|j: int|
                        0 <= j < pre.links@.len() && #[trigger] pre.links@[j] == (a, b);
                    assert(self.links@.contains(pre.links@[j]));
                }
            }
        }
    }

    /// Add the link for every ordered pair of addresses in `group`.
    pub fn repair(&mut self, group: &Vec<IpAddr>)
        ensures
            repair_post(*old(self), *final(self), group@),
    {
        let ghost pre = *self;
        let n = group.len();
        for i in 0..n
            invariant
                self.nodes@ == pre.nodes@,
                n == group@.len(),
                forall|a: IpAddr, b: IpAddr|
                    #[trigger] self.links@.contains((a, b)) <==> pre.links@.contains((a, b))
                        || (group@.take(i as int).contains(a) && group@.contains(b)),
        {
            let a = group[i];
            let ghost links_mid = self.links@;
            let m = group.len();
            for k in 0..m
                invariant
                    self.nodes@ == pre.nodes@,
                    m == group@.len(),
                    0 <= i < group@.len(),
                    a == group@[i as int],
                    forall|x: IpAddr, y: IpAddr|
                        #[trigger] self.links@.contains((x, y)) <==> links_mid.contains((x, y))
                            || (x == a && group@.take(k as int).contains(y)),
                    forall|x: IpAddr, y: IpAddr|
                        #[trigger] links_mid.contains((x, y)) <==> pre.links@.contains((x, y))
                            || (group@.take(i as int).contains(x) && group@.contains(y)),
            {
                let b = group[k];
                let ghost before = self.links@;
                add_link(&mut self.links, a, b);
                proof {
                    lemma_take_push(group@, k as int);
                    assert forall|x: IpAddr, y: IpAddr|
                        #[trigger] self.links@.contains((x, y)) <==> links_mid.contains((x, y))
                            || (x == a && group@.take(k as int + 1).contains(y)) by {
                        assert(self.links@.contains((x, y)) <==> before.contains((x, y))
                            || (x, y) == (a, b));
                    }
                }
            }
            proof {
                lemma_take_push(group@, i as int);
                lemma_take_full(group@);
                assert(group@.take(m as int) == group@.take(group@.len() as int));
                assert forall|x: IpAddr, y: IpAddr|
                    #[trigger] self.links@.contains((x, y)) <==> pre.links@.contains((x, y))
                        || (group@.take(i as int + 1).contains(x) && group@.contains(y)) by {
                    if group@.take(i as int + 1).contains(x) && group@.contains(y) {
                        if !group@.take(i as int).contains(x) {
                            assert(x == a);
                        }
                    }
                }
            }
        }
        proof {
            lemma_take_full(group@);
            assert(group@.take(n as int) == group@.take(group@.len() as int));
        }
    }

    /// Restore the full mesh: add the link for every ordered pair of
    /// registered nodes.
    pub fn repair_all(&mut self)
        ensures
            forall|x: IpAddr|
                final(self).spec_registered(x) <==> old(self).spec_registered(x),
            forall|a: IpAddr, b: IpAddr|
                final(self).spec_link(a, b) <==> old(self).spec_link(a, b)
                    || (old(self).spec_registered(a) && old(self).spec_registered(b)),
            final(self).spec_full_mesh(),
    {
        let all = clone_ips(&self.nodes);
        self.repair(&all);
    }

    /// Whether `ip` is a registered node.
    pub fn node_registered(&self, ip: IpAddr) -> (r: bool)
        ensures
            r == self.spec_registered(ip),
    {
        contains_ip(&self.nodes, &ip)
    }

    /// The one-hop distance from `from` to `to`, as `spec_hops` gives
    /// it: `Some(0)` for a registered node to itself, `Some(1)` over a
    /// present link, `None` otherwise.
    pub fn hops(&self, from: IpAddr, to: IpAddr) -> (r: Option<usize>)
        ensures
            r == self.spec_hops(from, to),
    {
        if !self.node_registered(from) || !self.node_registered(to) {
            None
        } else if from == to {
            Some(0)
        } else if contains_link(&self.links, &from, &to) {
            Some(1)
        } else {
            None
        }
    }
}

/// For every registered node `x`, the distance from `x` to itself is
/// zero — after any sequence of operations, since it needs nothing but
/// registration.
pub proof fn lemma_hops_self_zero(t: NetworkTopology, x: IpAddr)
    requires
        t.spec_registered(x),
    ensures
        t.spec_hops(x, x) == Some(0usize),
{
}

/// On a full mesh — as `repair_all` leaves it — every distinct pair of
/// registered nodes is at distance one.
pub proof fn lemma_full_mesh_hops_one(t: NetworkTopology, x: IpAddr, y: IpAddr)
    requires
        t.spec_full_mesh(),
        t.spec_registered(x),
        t.spec_registered(y),
        x != y,
    ensures
        t.spec_hops(x, y) == Some(1usize),
{
}

/// After `separate(group)` on a topology where all links exist, the
/// distance between two registered nodes is undefined iff exactly one
/// of them lies in the group.
pub proof fn lemma_separate_on_full_mesh(
    pre: NetworkTopology,
    post: NetworkTopology,
    group: Seq<IpAddr>,
    a: IpAddr,
    b: IpAddr,
)
    requires
        pre.spec_full_mesh(),
        forall|g: IpAddr| group.contains(g) ==> pre.spec_registered(g),
        separate_post(pre, post, group),
        pre.spec_registered(a),
        pre.spec_registered(b),
    ensures
        post.spec_hops(a, b) is None <==> (group.contains(a) != group.contains(b)),
{
}

/// `separate(group)` then `repair(group)` restores every link within
/// the group and leaves every other link as `separate` left it.
pub proof fn lemma_separate_then_repair(
    t0: NetworkTopology,
    t1: NetworkTopology,
    t2: NetworkTopology,
    group: Seq<IpAddr>,
)
    requires
        separate_post(t0, t1, group),
        repair_post(t1, t2, group),
    ensures
        forall|a: IpAddr, b: IpAddr|
            group.contains(a) && group.contains(b) ==> t2.spec_link(a, b),
        forall|a: IpAddr, b: IpAddr|
            !(group.contains(a) && group.contains(b))
                ==> (t2.spec_link(a, b) <==> t1.spec_link(a, b)),
{
}

/// Whether `v` holds `ip`.
pub(crate) fn contains_ip(v: &Vec<IpAddr>, ip: &IpAddr) -> (r: bool)
    ensures
        r == v@.contains(*ip),
{
    let n = v.len();
    for i in 0..n
        invariant
            n == v@.len(),
            forall|j: int| 0 <= j < i ==> v@[j] != *ip,
    {
        if v[i] == *ip {
            proof {
                assert(v@[i as int] == *ip);
            }
            return true;
        }
    }
    false
}

/// Whether `v` holds the directed pair `(a, b)`.
fn contains_link(v: &Vec<(IpAddr, IpAddr)>, a: &IpAddr, b: &IpAddr) -> (r: bool)
    ensures
        r == v@.contains((*a, *b)),
{
    let n = v.len();
    for i in 0..n
        invariant
            n == v@.len(),
            forall|j: int| 0 <= j < i ==> v@[j] != (*a, *b),
    {
        if v[i].0 == *a && v[i].1 == *b {
            proof {
                assert(v@[i as int] == (*a, *b));
            }
            return true;
        }
    }
    false
}

/// Add the pair `(a, b)` unless it is already present.
fn add_link(v: &mut Vec<(IpAddr, IpAddr)>, a: IpAddr, b: IpAddr)
    ensures
        forall|p: (IpAddr, IpAddr)| #[trigger]
            final(v)@.contains(p) <==> old(v)@.contains(p) || p == (a, b),
{
    if !contains_link(v, &a, &b) {
        proof {
            lemma_push_contains(v@, (a, b));
        }
        v.push((a, b));
    }
}

/// A copy of a vector of addresses.
fn clone_ips(v: &Vec<IpAddr>) -> (r: Vec<IpAddr>)
    ensures
        r@ == v@,
{
    let mut r: Vec<IpAddr> = Vec::new();
    let n = v.len();
    for i in 0..n
        invariant
            n == v@.len(),
            r@ == v@.take(i as int),
    {
        r.push(v[i]);
        proof {
            assert(v@.take(i as int + 1) =~= v@.take(i as int).push(v@[i as int]));
        }
    }
    proof {
        assert(v@.take(n as int) =~= v@);
    }
    r
}

} // verus!
