//! The free-port pool of a node.
//!
//! Ports `1..=65535` start free.  Binding takes a port out of the pool
//! — a requested one, or the smallest free one — and closing a socket
//! returns its port.  The pool is kept strictly descending, so the
//! smallest free port sits at the end.

use vstd::prelude::*;

verus! {

pub struct FreePorts {
    v: Vec<u16>,
}

impl FreePorts {
    /// Whether `p` is free.
    pub closed spec fn spec_contains(self, p: u16) -> bool {
        self.v@.contains(p)
    }

    /// How many ports are free.
    pub closed spec fn spec_len(self) -> int {
        self.v@.len() as int
    }

    /// The pool is strictly descending (so it holds no duplicates and
    /// its last element is its minimum), and never holds port zero.
    pub closed spec fn wf(self) -> bool {
        &&& forall|i: int, j: int|
            #![trigger self.v@[i], self.v@[j]]
            0 <= i < j < self.v@.len() ==> self.v@[i] > self.v@[j]
        &&& forall|i: int| 0 <= i < self.v@.len() ==> #[trigger] self.v@[i] >= 1
    }

    /// How many ports are free.
    pub fn len(&self) -> (r: usize)
        ensures
            r == self.spec_len(),
    {
        self.v.len()
    }

    /// The full pool: every port from 1 to 65535.
    pub fn new_full() -> (r: FreePorts)
        ensures
            r.wf(),
            r.spec_len() == 65535,
            forall|p: u16| r.spec_contains(p) <==> p >= 1,
    {
        let mut v: Vec<u16> = Vec::new();
        for i in 0..65535usize
            invariant
                v@.len() == i,
                forall|j: int| 0 <= j < i ==> v@[j] == 65535 - j,
        {
            v.push((65535 - i) as u16);
        }
        let r = FreePorts { v };
        proof {
            assert forall|p: u16| r.spec_contains(p) <==> p >= 1 by {
                if p >= 1 {
                    assert(r.v@[65535 - p as int] == p);
                }
            }
        }
        r
    }

    /// Take the requested port if it is free, or the smallest free
    /// port if none is requested; `None` if the request cannot be met.
    pub fn take_port(&mut self, port: Option<u16>) -> (r: Option<u16>)
        requires
            old(self).wf(),
        ensures
            final(self).wf(),
            r is None ==> *final(self) == *old(self),
            r is Some ==> old(self).spec_contains(r->0),
            r is Some ==> r->0 >= 1,
            r is Some ==> final(self).spec_len() == old(self).spec_len() - 1,
            r is Some ==> (forall|q: u16|
                final(self).spec_contains(q) <==> old(self).spec_contains(q) && q != r->0),
            port is Some ==> (r == (if old(self).spec_contains(port->0) {
                Some(port->0)
            } else {
                None::<u16>
            })),
            port is None && r is Some ==> old(self).spec_len() > 0,
            port is None && old(self).spec_len() > 0 ==> r is Some && (forall|q: u16|
                old(self).spec_contains(q) ==> r->0 <= q),
            port is None && old(self).spec_len() == 0 ==> r is None,
            match port {
                Some(p) => {
                    &&& r == (if old(self).spec_contains(p) {
                        Some(p)
                    } else {
                        None::<u16>
                    })
                    &&& old(self).spec_contains(p) ==> final(self).spec_len() == old(self).spec_len() - 1
                    &&& !old(self).spec_contains(p) ==> *final(self) == *old(self)
                    &&& forall|q: u16|
                        final(self).spec_contains(q) <==> old(self).spec_contains(q) && q != p
                },
                None => {
                    &&& old(self).spec_len() == 0 ==> r is None && *final(self) == *old(self)
                    &&& old(self).spec_len() > 0 ==> {
                        &&& r is Some
                        &&& old(self).spec_contains(r->0)
                        &&& forall|q: u16| old(self).spec_contains(q) ==> r->0 <= q
                        &&& final(self).spec_len() == old(self).spec_len() - 1
                        &&& forall|q: u16|
                            final(self).spec_contains(q) <==> old(self).spec_contains(q) && q
                                != r->0
                    }
                },
            },
    {
        match port {
            Some(p) => self.take_specific(p),
            None => self.take_smallest(),
        }
    }

    /// Take `p` out of the pool if it is free.
    fn take_specific(&mut self, p: u16) -> (r: Option<u16>)
        requires
            old(self).wf(),
        ensures
            final(self).wf(),
            r == (if old(self).spec_contains(p) {
                Some(p)
            } else {
                None::<u16>
            }),
            old(self).spec_contains(p) ==> final(self).spec_len() == old(self).spec_len() - 1,
            !old(self).spec_contains(p) ==> *final(self) == *old(self),
            forall|q: u16| final(self).spec_contains(q) <==> old(self).spec_contains(q) && q != p,
    {
        let ghost pre = self.v@;
        let n = self.v.len();
        for i in 0..n
            invariant
                *self == *old(self),
                old(self).wf(),
                pre == self.v@,
                n == self.v@.len(),
                forall|j: int| 0 <= j < i ==> self.v@[j] != p,
        {
            if self.v[i] == p {
                self.v.remove(i);
                proof {
                    pre.remove_ensures(i as int);
                    assert forall|q: u16|
                        self.v@.contains(q) <==> pre.contains(q) && q != p by {
                        if self.v@.contains(q) {
                            let j = choose|j: int|
                                0 <= j < self.v@.len() && #[trigger] self.v@[j] == q;
                            if j < i {
                                assert(pre[j] == q);
                            } else {
                                assert(pre[j + 1] == q);
                            }
                        }
                        if pre.contains(q) && q != p {
                            let j = choose|j: int| 0 <= j < pre.len() && #[trigger] pre[j] == q;
                            if j < i {
                                assert(self.v@[j] == q);
                            } else {
                                assert(j != i);
                                assert(self.v@[j - 1] == q);
                            }
                        }
                    }
                    assert(pre[i as int] == p);
                }
                return Some(p);
            }
        }
        proof {
            assert(!pre.contains(p));
        }
        None
    }

    /// Take the smallest free port, if any is left.
    fn take_smallest(&mut self) -> (r: Option<u16>)
        requires
            old(self).wf(),
        ensures
            final(self).wf(),
            old(self).spec_len() == 0 ==> r is None && *final(self) == *old(self),
            old(self).spec_len() > 0 ==> {
                &&& r is Some
                &&& old(self).spec_contains(r->0)
                &&& forall|q: u16| old(self).spec_contains(q) ==> r->0 <= q
                &&& final(self).spec_len() == old(self).spec_len() - 1
                &&& forall|q: u16|
                    final(self).spec_contains(q) <==> old(self).spec_contains(q) && q != r->0
            },
    {
        let ghost pre = self.v@;
        if self.v.len() == 0 {
            return None;
        }
        match self.v.pop() {
            None => None,
            Some(m) => {
                proof {
                    assert(pre.last() == m);
                    assert forall|q: u16| pre.contains(q) implies m <= q by {
                        let j = choose|j: int| 0 <= j < pre.len() && #[trigger] pre[j] == q;
                        if j < pre.len() - 1 {
                            assert(pre[j] > pre[pre.len() - 1]);
                        }
                    }
                    assert forall|q: u16|
                        self.v@.contains(q) <==> pre.contains(q) && q != m by {
                        if self.v@.contains(q) {
                            let j = choose|j: int|
                                0 <= j < self.v@.len() && #[trigger] self.v@[j] == q;
                            assert(pre[j] == q);
                            assert(pre[j] > pre[pre.len() - 1]);
                        }
                        if pre.contains(q) && q != m {
                            let j = choose|j: int| 0 <= j < pre.len() && #[trigger] pre[j] == q;
                            assert(j != pre.len() - 1);
                            assert(self.v@[j] == q);
                        }
                    }
                    assert(pre.contains(m)) by {
                        assert(pre[pre.len() - 1] == m);
                    }
                }
                Some(m)
            },
        }
    }

    /// Return a port to the pool.  The port must not already be free:
    /// a double return is a programming error.
    pub fn return_port(&mut self, p: u16)
        requires
            old(self).wf(),
            !old(self).spec_contains(p),
            p >= 1,
        ensures
            final(self).wf(),
            final(self).spec_len() == old(self).spec_len() + 1,
            forall|q: u16| final(self).spec_contains(q) <==> old(self).spec_contains(q) || q == p,
    {
        let ghost pre = self.v@;
        let n = self.v.len();
        for i in 0..n
            invariant
                *self == *old(self),
                old(self).wf(),
                n == self.v@.len(),
                !pre.contains(p),
                pre == self.v@,
                p >= 1,
                forall|j: int| 0 <= j < i ==> self.v@[j] > p,
        {
            if self.v[i] < p {
                self.v.insert(i, p);
                proof {
                    assert forall|x: int, y: int|
                        #![trigger pre[x], pre[y]]
                        0 <= x < y < pre.len() implies pre[x] > pre[y] by {}
                    pre.insert_ensures(i as int, p);
                    assert forall|q: u16|
                        self.v@.contains(q) <==> pre.contains(q) || q == p by {
                        if self.v@.contains(q) {
                            let j = choose|j: int|
                                0 <= j < self.v@.len() && #[trigger] self.v@[j] == q;
                            if j < i {
                                assert(pre[j] == q);
                            } else if j > i {
                                assert(pre[j - 1] == q);
                            }
                        }
                        if pre.contains(q) {
                            let j = choose|j: int| 0 <= j < pre.len() && #[trigger] pre[j] == q;
                            if j < i {
                                assert(self.v@[j] == q);
                            } else {
                                assert(self.v@[j + 1] == q);
                            }
                        }
                        assert(self.v@[i as int] == p);
                    }
                    assert forall|a: int, b: int|
                        0 <= a < b < self.v@.len() implies self.v@[a] > self.v@[b] by {
                        if a < i && b == i {
                            assert(self.v@[a] == pre[a]);
                        } else if a == i && b > i {
                            assert(self.v@[b] == pre[b - 1]);
                            assert(pre[i as int] < p);
                            if b - 1 > i {
                                assert(pre[i as int] > pre[b - 1]);
                            }
                        } else if a < i && b > i {
                            assert(self.v@[a] == pre[a]);
                            assert(self.v@[b] == pre[b - 1]);
                            if a < b - 1 {
                                assert(pre[a] > pre[b - 1]);
                            } else {
                                assert(pre[a] > p);
                            }
                        } else if a > i && b > i {
                            assert(self.v@[a] == pre[a - 1]);
                            assert(self.v@[b] == pre[b - 1]);
                            assert(pre[a - 1] > pre[b - 1]);
                        } else if a < i && b < i {
                            assert(self.v@[a] == pre[a]);
                            assert(self.v@[b] == pre[b]);
                        }
                    }
                }
                return ;
            }
        }
        proof {
            lemma_push_ports(self.v@, p);
        }
        self.v.push(p);
    }
}

/// Pushing an element extends membership by exactly that element.
proof fn lemma_push_ports(s: Seq<u16>, x: u16)
    ensures
        forall|y: u16| #[trigger] s.push(x).contains(y) <==> s.contains(y) || y == x,
{
    crate::seq_util::lemma_push_contains(s, x);
}

} // verus!
