//! IP and socket addresses as plain values.
//!
//! An IPv4 address is held as its 32-bit value, an IPv6 address as its
//! 128-bit value.  The address classes the simulator distinguishes
//! (loopback, multicast, unspecified) are defined here, together with
//! the total order the simulation driver steps nodes in.

use vstd::prelude::*;

use vstd::string::StringSliceAdditionalSpecFns;

use crate::SimError;

verus! {

/// An IP address: a v4 address as its 32-bit value, or a v6 address as
/// its 128-bit value.
#[derive(Clone, Copy, PartialEq, Eq, Structural, Debug)]
pub enum IpAddr {
    V4(u32),
    V6(u128),
}

/// A socket address: an IP address plus a port.
#[derive(Clone, Copy, PartialEq, Eq, Structural, Debug)]
pub struct SockAddr {
    pub ip: IpAddr,
    pub port: u16,
}

/// The v4 address `a.b.c.d` as its 32-bit value.
pub open spec fn spec_v4(a: u8, b: u8, c: u8, d: u8) -> u32 {
    (a * 0x100_0000 + b * 0x1_0000 + c * 0x100 + d) as u32
}

/// A loopback address: `127.0.0.0/8`, or `::1`.
pub open spec fn spec_is_loopback(ip: IpAddr) -> bool {
    match ip {
        IpAddr::V4(n) => n / 0x100_0000 == 127,
        IpAddr::V6(n) => n == 1,
    }
}

/// A multicast address: `224.0.0.0/4`, or `ff00::/8`.
pub open spec fn spec_is_multicast(ip: IpAddr) -> bool {
    match ip {
        IpAddr::V4(n) => 224 <= n / 0x100_0000 <= 239,
        IpAddr::V6(n) => n / 0x100_0000_0000_0000_0000_0000_0000_0000 == 0xff,
    }
}

/// The unspecified address: `0.0.0.0`, or `::`.
pub open spec fn spec_is_unspecified(ip: IpAddr) -> bool {
    match ip {
        IpAddr::V4(n) => n == 0,
        IpAddr::V6(n) => n == 0,
    }
}

/// The key the total order on addresses compares: every v4 address
/// sorts before every v6 address, and within a family addresses sort
/// by value.
pub open spec fn spec_ip_key(ip: IpAddr) -> int {
    match ip {
        IpAddr::V4(n) => n as int,
        IpAddr::V6(n) => 0x1_0000_0000 + n as int,
    }
}

impl IpAddr {
    /// The v4 address `a.b.c.d`.
    pub fn v4(a: u8, b: u8, c: u8, d: u8) -> (r: IpAddr)
        ensures
            r == IpAddr::V4(spec_v4(a, b, c, d)),
    {
        IpAddr::V4(
            (a as u32) * 0x100_0000 + (b as u32) * 0x1_0000 + (c as u32) * 0x100 + (d as u32),
        )
    }

    pub fn is_loopback(&self) -> (r: bool)
        ensures
            r == spec_is_loopback(*self),
    {
        match self {
            IpAddr::V4(n) => *n / 0x100_0000 == 127,
            IpAddr::V6(n) => *n == 1,
        }
    }

    pub fn is_multicast(&self) -> (r: bool)
        ensures
            r == spec_is_multicast(*self),
    {
        match self {
            IpAddr::V4(n) => {
                let top = *n / 0x100_0000;
                224 <= top && top <= 239
            },
            IpAddr::V6(n) => *n / 0x100_0000_0000_0000_0000_0000_0000_0000 == 0xff,
        }
    }

    pub fn is_unspecified(&self) -> (r: bool)
        ensures
            r == spec_is_unspecified(*self),
    {
        match self {
            IpAddr::V4(n) => *n == 0,
            IpAddr::V6(n) => *n == 0,
        }
    }

    /// Whether this address sorts strictly before `other`.
    pub fn lt(&self, other: &IpAddr) -> (r: bool)
        ensures
            r == (spec_ip_key(*self) < spec_ip_key(*other)),
    {
        match (self, other) {
            (IpAddr::V4(a), IpAddr::V4(b)) => *a < *b,
            (IpAddr::V4(_), IpAddr::V6(_)) => true,
            (IpAddr::V6(_), IpAddr::V4(_)) => false,
            (IpAddr::V6(a), IpAddr::V6(b)) => *a < *b,
        }
    }
}

impl SockAddr {
    pub fn new(ip: IpAddr, port: u16) -> (r: SockAddr)
        ensures
            r.ip == ip,
            r.port == port,
    {
        SockAddr { ip, port }
    }
}

} // verus!

// The textual form of addresses.  An IPv4 literal is four decimal
// octets separated by dots, each without leading zeros; a socket
// address literal is an IPv4 literal, a colon, and a decimal port.
// Name resolution is not supported: any other host text is rejected.

verus! {

/// An ASCII decimal digit.
pub open spec fn is_dec_digit(b: u8) -> bool {
    48 <= b <= 57
}

/// The value of a string of decimal digits, most significant first.
pub open spec fn dec_value(s: Seq<u8>) -> int
    decreases s.len(),
{
    if s.len() == 0 {
        0
    } else {
        dec_value(s.drop_last()) * 10 + (s.last() - 48)
    }
}

/// The length of the longest prefix of decimal digits.
pub open spec fn digits_len(s: Seq<u8>) -> int
    decreases s.len(),
{
    if s.len() == 0 || !is_dec_digit(s[0]) {
        0
    } else {
        1 + digits_len(s.drop_first())
    }
}

/// A valid octet text: one to three digits, no leading zero, value at
/// most 255.
pub open spec fn valid_octet_text(s: Seq<u8>) -> bool {
    &&& 1 <= s.len() <= 3
    &&& (forall|i: int| 0 <= i < s.len() ==> is_dec_digit(#[trigger] s[i]))
    &&& (s.len() > 1 ==> s[0] != 48)
    &&& dec_value(s) <= 255
}

/// A valid port text: one to five digits, value at most 65535.
pub open spec fn valid_port_text(s: Seq<u8>) -> bool {
    &&& 1 <= s.len() <= 5
    &&& digits_len(s) == s.len()
    &&& dec_value(s) <= 65535
}

/// The IPv4 address denoted by `s`, if `s` is a valid IPv4 literal.
pub open spec fn spec_parse_ipv4(s: Seq<u8>) -> Option<u32> {
    let d1 = digits_len(s);
    let o1 = s.take(d1);
    let r1 = s.skip(d1);
    if !valid_octet_text(o1) || r1.len() == 0 || r1[0] != 46 {
        None
    } else {
        let t1 = r1.drop_first();
        let d2 = digits_len(t1);
        let o2 = t1.take(d2);
        let r2 = t1.skip(d2);
        if !valid_octet_text(o2) || r2.len() == 0 || r2[0] != 46 {
            None
        } else {
            let t2 = r2.drop_first();
            let d3 = digits_len(t2);
            let o3 = t2.take(d3);
            let r3 = t2.skip(d3);
            if !valid_octet_text(o3) || r3.len() == 0 || r3[0] != 46 {
                None
            } else {
                let t3 = r3.drop_first();
                let d4 = digits_len(t3);
                let o4 = t3.take(d4);
                let r4 = t3.skip(d4);
                if !valid_octet_text(o4) || r4.len() != 0 {
                    None
                } else {
                    Some(
                        (dec_value(o1) * 0x100_0000 + dec_value(o2) * 0x1_0000 + dec_value(o3)
                            * 0x100 + dec_value(o4)) as u32,
                    )
                }
            }
        }
    }
}

/// The index of the first colon in `s`, or the length if there is
/// none.
pub open spec fn colon_pos(s: Seq<u8>) -> int
    decreases s.len(),
{
    if s.len() == 0 {
        0
    } else if s[0] == 58 {
        0
    } else {
        1 + colon_pos(s.drop_first())
    }
}

/// The index of the first closing bracket in `s`, or the length if
/// there is none.
pub open spec fn rbracket_pos(s: Seq<u8>) -> int
    decreases s.len(),
{
    if s.len() == 0 {
        0
    } else if s[0] == 93 {
        0
    } else {
        1 + rbracket_pos(s.drop_first())
    }
}

/// The socket address denoted by `s`: an IPv4 literal, a colon and a
/// port — or a bracketed IPv6 literal, a colon and a port.
pub open spec fn spec_parse_sockaddr(s: Seq<u8>) -> Option<SockAddr> {
    if s.len() > 0 && s[0] == 91 {
        let rb = rbracket_pos(s);
        if rb >= s.len() || rb + 2 >= s.len() || s[rb + 1] != 58 {
            None
        } else {
            let port_text = s.skip(rb + 2);
            match crate::addr6::spec_parse_ipv6(s.subrange(1, rb)) {
                Some(ip) => if valid_port_text(port_text) {
                    Some(SockAddr { ip: IpAddr::V6(ip), port: dec_value(port_text) as u16 })
                } else {
                    None
                },
                None => None,
            }
        }
    } else {
        let c = colon_pos(s);
        if c >= s.len() || c + 1 >= s.len() {
            None
        } else {
            let port_text = s.skip(c + 1);
            match spec_parse_ipv4(s.take(c)) {
                Some(ip) => if valid_port_text(port_text) {
                    Some(SockAddr { ip: IpAddr::V4(ip), port: dec_value(port_text) as u16 })
                } else {
                    None
                },
                None => None,
            }
        }
    }
}

/// The decimal text of an octet value, without leading zeros.
pub open spec fn spec_fmt_octet(v: int) -> Seq<u8> {
    if v < 10 {
        seq![(48 + v) as u8]
    } else if v < 100 {
        seq![(48 + v / 10) as u8, (48 + v % 10) as u8]
    } else {
        seq![(48 + v / 100) as u8, (48 + (v / 10) % 10) as u8, (48 + v % 10) as u8]
    }
}

/// The dotted-decimal text of an IPv4 address.
pub open spec fn spec_fmt_ipv4(ip: u32) -> Seq<u8> {
    spec_fmt_octet(ip as int / 0x100_0000) + seq![46u8] + spec_fmt_octet(
        (ip as int / 0x1_0000) % 0x100,
    ) + seq![46u8] + spec_fmt_octet((ip as int / 0x100) % 0x100) + seq![46u8] + spec_fmt_octet(
        ip as int % 0x100,
    )
}

/// The number of leading decimal digits of `s`, scanning from `from`.
fn scan_digits(s: &[u8], from: usize) -> (r: usize)
    requires
        from <= s@.len(),
    ensures
        r == digits_len(s@.skip(from as int)),
        from + r <= s@.len(),
{
    let n = s.len();
    let mut i = from;
    while i < n && 48 <= s[i] && s[i] <= 57
        invariant
            from <= i <= n,
            n == s@.len(),
            digits_len(s@.skip(from as int)) == (i - from) + digits_len(s@.skip(i as int)),
        decreases n - i,
    {
        proof {
            assert(s@.skip(i as int)[0] == s@[i as int]);
            assert(s@.skip(i as int).drop_first() =~= s@.skip(i as int + 1));
        }
        i = i + 1;
    }
    proof {
        if i < n {
            assert(s@.skip(i as int)[0] == s@[i as int]);
            assert(digits_len(s@.skip(i as int)) == 0);
        } else {
            assert(s@.skip(i as int).len() == 0);
        }
    }
    i - from
}

/// Ten to the `n`.
pub open spec fn pow10(n: nat) -> int
    decreases n,
{
    if n == 0 {
        1
    } else {
        10 * pow10((n - 1) as nat)
    }
}

/// The value of a digit string is nonnegative and below ten to its
/// length.
pub proof fn lemma_dec_value_bound(s: Seq<u8>)
    requires
        forall|i: int| 0 <= i < s.len() ==> is_dec_digit(#[trigger] s[i]),
    ensures
        0 <= dec_value(s) < pow10(s.len()),
    decreases s.len(),
{
    if s.len() == 0 {
    } else {
        lemma_dec_value_bound(s.drop_last());
        assert(is_dec_digit(s[s.len() - 1]));
    }
}

/// The value of the `count` digits of `s` starting at `from`.
fn digits_value(s: &[u8], from: usize, count: usize) -> (v: u32)
    requires
        from + count <= s@.len(),
        count <= 5,
        forall|j: int| 0 <= j < count ==> is_dec_digit(#[trigger] s@.skip(from as int)[j]),
    ensures
        v == dec_value(s@.skip(from as int).take(count as int)),
        v <= 99999,
{
    proof {
        assert(pow10(0) == 1);
        assert(pow10(1) == 10);
        assert(pow10(2) == 100);
        assert(pow10(3) == 1000);
        assert(pow10(4) == 10000);
        assert(pow10(5) == 100000);
    }
    let total = s.len();
    let mut v: u32 = 0;
    let mut j: usize = 0;
    while j < count
        invariant
            0 <= j <= count,
            count <= 5,
            total == s@.len(),
            from + count <= total,
            forall|k: int| 0 <= k < count ==> is_dec_digit(#[trigger] s@.skip(from as int)[k]),
            v == dec_value(s@.skip(from as int).take(j as int)),
            v < pow10(j as nat),
            pow10(5) == 100000,
            forall|m: nat| m < 5 ==> 10 * #[trigger] pow10(m) == pow10((m + 1) as nat),
            pow10(j as nat) <= pow10(5),
        decreases count - j,
    {
        proof {
            let pref = s@.skip(from as int).take(j as int);
            assert(s@.skip(from as int).take(j as int + 1) =~= pref.push(
                s@.skip(from as int)[j as int],
            ));
            assert(is_dec_digit(s@.skip(from as int)[j as int]));
            assert forall|k: int|
                0 <= k < pref.len() implies is_dec_digit(#[trigger] pref[k]) by {
                assert(pref[k] == s@.skip(from as int)[k]);
            }
            lemma_dec_value_bound(pref.push(s@.skip(from as int)[j as int]));
            assert(pref.push(s@.skip(from as int)[j as int]).drop_last() =~= pref);
            assert(pref.push(s@.skip(from as int)[j as int]).last() == s@.skip(
                from as int,
            )[j as int]);
            assert(10 * pow10(j as nat) == pow10((j + 1) as nat));
            assert(pow10((j + 1) as nat) <= pow10(5)) by {
                let pj = pow10((j + 1) as nat);
                if j + 1 < 5 {
                    if j + 1 == 1 {
                    }
                }
            }
        }
        let b = s[from + j];
        proof {
            assert(s@.skip(from as int)[j as int] == s@[from as int + j as int]);
        }
        v = v * 10 + ((b - 48) as u32);
        j = j + 1;
    }
    v
}
} // verus!

verus! {

/// Every byte inside the digit prefix is a digit, and the prefix fits
/// the string.
pub proof fn lemma_digits_len_facts(s: Seq<u8>)
    ensures
        0 <= digits_len(s) <= s.len(),
        forall|j: int| 0 <= j < digits_len(s) ==> is_dec_digit(#[trigger] s[j]),
    decreases s.len(),
{
    if s.len() == 0 || !is_dec_digit(s[0]) {
    } else {
        lemma_digits_len_facts(s.drop_first());
        assert forall|j: int| 0 <= j < digits_len(s) implies is_dec_digit(#[trigger] s[j]) by {
            if j > 0 {
                assert(s.drop_first()[j - 1] == s[j]);
            }
        }
    }
}

/// Parse one octet of an IPv4 literal at position `i`: its value and
/// the position after it.
fn parse_octet_at(s: &[u8], i: usize) -> (r: Option<(u32, usize)>)
    requires
        i <= s@.len(),
    ensures
        ({
            let rest = s@.skip(i as int);
            let d = digits_len(rest);
            let octet = rest.take(d);
            match r {
                Some(p) => {
                    &&& valid_octet_text(octet)
                    &&& p.0 == dec_value(octet)
                    &&& p.1 == i + d
                    &&& i < p.1 <= s@.len()
                },
                None => !valid_octet_text(octet),
            }
        }),
{
    let total = s.len();
    proof {
        lemma_digits_len_facts(s@.skip(i as int));
    }
    let d = scan_digits(s, i);
    proof {
        assert(i + d <= total);
    }
    if d < 1 || d > 3 {
        return None;
    }
    proof {
        assert forall|j: int|
            0 <= j < d implies is_dec_digit(#[trigger] s@.skip(i as int)[j]) by {}
    }
    let v = digits_value(s, i, d);
    if d > 1 && s[i] == 48 {
        proof {
            assert(s@.skip(i as int)[0] == s@[i as int]);
            assert(s@.skip(i as int).take(d as int)[0] == s@.skip(i as int)[0]);
        }
        return None;
    }
    if v > 255 {
        return None;
    }
    proof {
        let rest = s@.skip(i as int);
        let octet = rest.take(d as int);
        assert(octet.len() == d);
        assert forall|j: int| 0 <= j < octet.len() implies is_dec_digit(#[trigger] octet[j]) by {
            assert(octet[j] == rest[j]);
        }
        if d > 1 {
            assert(octet[0] == rest[0]);
            assert(rest[0] == s@[i as int]);
        }
    }
    Some((v, i + d))
}

/// Parse an IPv4 literal covering all of `s`.
#[verifier::rlimit(100)]
pub fn parse_ipv4_bytes(s: &[u8]) -> (r: Option<u32>)
    ensures
        r == spec_parse_ipv4(s@),
{
    proof {
        assert(s@.skip(0) =~= s@);
    }
    let p1 = match parse_octet_at(s, 0) {
        None => {
            return None;
        },
        Some(p) => p,
    };
    let n = s.len();
    if p1.1 >= n || s[p1.1] != 46 {
        proof {
            if p1.1 < n {
                assert(s@.skip(digits_len(s@))[0] == s@[p1.1 as int]);
            }
        }
        return None;
    }
    let i2 = p1.1 + 1;
    proof {
        assert(s@.skip(digits_len(s@))[0] == s@[p1.1 as int]);
        assert(s@.skip(digits_len(s@)).drop_first() =~= s@.skip(i2 as int));
    }
    let p2 = match parse_octet_at(s, i2) {
        None => {
            return None;
        },
        Some(p) => p,
    };
    if p2.1 >= n || s[p2.1] != 46 {
        proof {
            if p2.1 < n {
                assert(s@.skip(i2 as int).skip(digits_len(s@.skip(i2 as int)))[0] == s@[
                    p2.1 as int
                ]);
                assert(s@.skip(i2 as int).skip(digits_len(s@.skip(i2 as int))) =~= s@.skip(
                    p2.1 as int,
                ));
            }
        }
        return None;
    }
    let i3 = p2.1 + 1;
    proof {
        assert(s@.skip(i2 as int).skip(digits_len(s@.skip(i2 as int))) =~= s@.skip(p2.1 as int));
        assert(s@.skip(p2.1 as int)[0] == s@[p2.1 as int]);
        assert(s@.skip(p2.1 as int).drop_first() =~= s@.skip(i3 as int));
        assert(s@.skip(i2 as int).take(digits_len(s@.skip(i2 as int))) =~= s@.skip(
            i2 as int,
        ).take(digits_len(s@.skip(i2 as int))));
    }
    let p3 = match parse_octet_at(s, i3) {
        None => {
            return None;
        },
        Some(p) => p,
    };
    if p3.1 >= n || s[p3.1] != 46 {
        proof {
            if p3.1 < n {
                assert(s@.skip(i3 as int).skip(digits_len(s@.skip(i3 as int))) =~= s@.skip(
                    p3.1 as int,
                ));
                assert(s@.skip(p3.1 as int)[0] == s@[p3.1 as int]);
            }
        }
        return None;
    }
    let i4 = p3.1 + 1;
    proof {
        assert(s@.skip(i3 as int).skip(digits_len(s@.skip(i3 as int))) =~= s@.skip(p3.1 as int));
        assert(s@.skip(p3.1 as int)[0] == s@[p3.1 as int]);
        assert(s@.skip(p3.1 as int).drop_first() =~= s@.skip(i4 as int));
    }
    let p4 = match parse_octet_at(s, i4) {
        None => {
            return None;
        },
        Some(p) => p,
    };
    if p4.1 != n {
        proof {
            assert(s@.skip(i4 as int).skip(digits_len(s@.skip(i4 as int))).len() == s@.len()
                - p4.1);
        }
        return None;
    }
    proof {
        assert(s@.skip(i4 as int).skip(digits_len(s@.skip(i4 as int))).len() == 0);
    }
    Some(p1.0 * 0x100_0000 + p2.0 * 0x1_0000 + p3.0 * 0x100 + p4.0)
}

/// Parse a socket-address literal (`a.b.c.d:port`) covering all of
/// `s`.
pub fn parse_sockaddr_bytes(s: &[u8]) -> (r: Option<SockAddr>)
    ensures
        r == spec_parse_sockaddr(s@),
{
    let n = s.len();
    if n > 0 && s[0] == 91 {
        return parse_bracketed_sockaddr(s);
    }
    let mut colon: usize = 0;
    proof {
        assert(s@.skip(0) =~= s@);
    }
    while colon < n && s[colon] != 58
        invariant
            0 <= colon <= n,
            n == s@.len(),
            colon_pos(s@) == colon + colon_pos(s@.skip(colon as int)),
        decreases n - colon,
    {
        proof {
            assert(s@.skip(colon as int)[0] == s@[colon as int]);
            assert(s@.skip(colon as int).drop_first() =~= s@.skip(colon as int + 1));
        }
        colon = colon + 1;
    }
    proof {
        if colon < n {
            assert(s@.skip(colon as int)[0] == s@[colon as int]);
            assert(colon_pos(s@.skip(colon as int)) == 0);
        } else {
            assert(s@.skip(colon as int).len() == 0);
        }
    }
    if colon >= n {
        return None;
    }
    if colon + 1 >= n {
        return None;
    }
    let ip_part = vstd::slice::slice_subrange(s, 0, colon);
    proof {
        assert(ip_part@ =~= s@.take(colon as int));
    }
    let ip = match parse_ipv4_bytes(ip_part) {
        None => {
            return None;
        },
        Some(v) => v,
    };
    let d = scan_digits(s, colon + 1);
    proof {
        lemma_digits_len_facts(s@.skip(colon as int + 1));
    }
    if colon + 1 + d != n || d < 1 || d > 5 {
        return None;
    }
    let pv = digits_value(s, colon + 1, d);
    proof {
        assert(s@.skip(colon as int + 1).take(d as int) =~= s@.skip(colon as int + 1));
    }
    if pv > 65535 {
        return None;
    }
    Some(SockAddr { ip: IpAddr::V4(ip), port: pv as u16 })
}

} // verus!

verus! {

/// Parse a bracketed IPv6 socket-address literal (`[groups]:port`).
fn parse_bracketed_sockaddr(s: &[u8]) -> (r: Option<SockAddr>)
    requires
        s@.len() > 0,
        s@[0] == 91,
    ensures
        r == spec_parse_sockaddr(s@),
{
    let n = s.len();
    let mut rb: usize = 0;
    proof {
        assert(s@.skip(0) =~= s@);
    }
    while rb < n && s[rb] != 93
        invariant
            0 <= rb <= n,
            n == s@.len(),
            rbracket_pos(s@) == rb + rbracket_pos(s@.skip(rb as int)),
        decreases n - rb,
    {
        proof {
            assert(s@.skip(rb as int)[0] == s@[rb as int]);
            assert(s@.skip(rb as int).drop_first() =~= s@.skip(rb as int + 1));
        }
        rb = rb + 1;
    }
    proof {
        if rb < n {
            assert(s@.skip(rb as int)[0] == s@[rb as int]);
            assert(rbracket_pos(s@.skip(rb as int)) == 0);
        } else {
            assert(s@.skip(rb as int).len() == 0);
        }
    }
    if rb >= n {
        return None;
    }
    if n - rb <= 2 {
        return None;
    }
    proof {
        assert(s@[rb as int + 1] == s@.subrange(0, n as int)[rb as int + 1]);
    }
    if s[rb + 1] != 58 {
        return None;
    }
    let inner = vstd::slice::slice_subrange(s, 1, rb);
    proof {
        assert(inner@ =~= s@.subrange(1, rb as int));
    }
    let ip = match crate::addr6::parse_ipv6_bytes(inner) {
        None => {
            return None;
        },
        Some(v) => v,
    };
    let d = scan_digits(s, rb + 2);
    proof {
        lemma_digits_len_facts(s@.skip(rb as int + 2));
    }
    if rb + 2 + d != n || d < 1 || d > 5 {
        return None;
    }
    let pv = digits_value(s, rb + 2, d);
    proof {
        assert(s@.skip(rb as int + 2).take(d as int) =~= s@.skip(rb as int + 2));
    }
    if pv > 65535 {
        return None;
    }
    Some(SockAddr { ip: IpAddr::V6(ip), port: pv as u16 })
}

/// The wording a failed name resolution reports: resolving a host
/// name would need DNS, which the simulator does not provide.
pub fn resolution_error_message() -> (r: &'static str)
    ensures
        r@ == "DNS is not supported"@,
{
    "DNS is not supported"
}

/// Parse an IP literal: IPv4 dotted-decimal, or IPv6 groups.
/// Anything else — a name above all — fails with `InvalidInput`,
/// whose site-level wording is `resolution_error_message`:
/// name resolution is not supported.
pub fn to_ip_addr(s: &str) -> (r: Result<IpAddr, SimError>)
    ensures
        r is Ok <==> (spec_parse_ipv4(s.spec_bytes()) is Some || crate::addr6::spec_parse_ipv6(
            s.spec_bytes(),
        ) is Some),
        spec_parse_ipv4(s.spec_bytes()) is Some ==> r == Ok::<IpAddr, SimError>(
            IpAddr::V4(spec_parse_ipv4(s.spec_bytes())->0),
        ),
        (spec_parse_ipv4(s.spec_bytes()) is None && crate::addr6::spec_parse_ipv6(s.spec_bytes())
            is Some) ==> r == Ok::<IpAddr, SimError>(
            IpAddr::V6(crate::addr6::spec_parse_ipv6(s.spec_bytes())->0),
        ),
        r is Err ==> r == Err::<IpAddr, SimError>(SimError::InvalidInput),
{
    match parse_ipv4_bytes(s.as_bytes()) {
        Some(v) => Ok(IpAddr::V4(v)),
        None => match crate::addr6::parse_ipv6_bytes(s.as_bytes()) {
            Some(v) => Ok(IpAddr::V6(v)),
            None => Err(SimError::InvalidInput),
        },
    }
}

/// Parse a socket-address literal (`a.b.c.d:port`).  Anything else —
/// a `host:port` name above all — fails with `InvalidInput`: name
/// resolution is not supported.
pub fn to_socket_addr(s: &str) -> (r: Result<SockAddr, SimError>)
    ensures
        r is Ok <==> spec_parse_sockaddr(s.spec_bytes()) is Some,
        r is Ok ==> r->Ok_0 == spec_parse_sockaddr(s.spec_bytes())->0,
        r is Err ==> r == Err::<SockAddr, SimError>(SimError::InvalidInput),
{
    match parse_sockaddr_bytes(s.as_bytes()) {
        Some(a) => Ok(a),
        None => Err(SimError::InvalidInput),
    }
}

/// The socket address of an IP literal and a port.
pub fn to_socket_addr_pair(host: &str, port: u16) -> (r: Result<SockAddr, SimError>)
    ensures
        r is Ok <==> (spec_parse_ipv4(host.spec_bytes()) is Some
            || crate::addr6::spec_parse_ipv6(host.spec_bytes()) is Some),
        spec_parse_ipv4(host.spec_bytes()) is Some ==> r == Ok::<SockAddr, SimError>(
            SockAddr { ip: IpAddr::V4(spec_parse_ipv4(host.spec_bytes())->0), port },
        ),
        (spec_parse_ipv4(host.spec_bytes()) is None && crate::addr6::spec_parse_ipv6(
            host.spec_bytes(),
        ) is Some) ==> r == Ok::<SockAddr, SimError>(
            SockAddr { ip: IpAddr::V6(crate::addr6::spec_parse_ipv6(host.spec_bytes())->0), port },
        ),
        r is Err ==> r == Err::<SockAddr, SimError>(SimError::InvalidInput),
{
    match to_ip_addr(host) {
        Ok(ip) => Ok(SockAddr { ip, port }),
        Err(e) => Err(SimError::InvalidInput),
    }
}

/// Append the decimal text of one octet value.
fn push_octet_text(out: &mut Vec<u8>, v: u32)
    requires
        v <= 255,
    ensures
        final(out)@ == old(out)@ + spec_fmt_octet(v as int),
{
    let ghost pre = out@;
    if v < 10 {
        out.push((48 + v) as u8);
        proof {
            assert(out@ =~= pre + spec_fmt_octet(v as int));
        }
    } else if v < 100 {
        out.push((48 + v / 10) as u8);
        out.push((48 + v % 10) as u8);
        proof {
            assert(out@ =~= pre + spec_fmt_octet(v as int));
        }
    } else {
        out.push((48 + v / 100) as u8);
        out.push((48 + (v / 10) % 10) as u8);
        out.push((48 + v % 10) as u8);
        proof {
            assert(out@ =~= pre + spec_fmt_octet(v as int));
        }
    }
}

/// The dotted-decimal text of an IPv4 address.
pub fn fmt_ipv4(ip: u32) -> (r: Vec<u8>)
    ensures
        r@ == spec_fmt_ipv4(ip),
{
    let mut out: Vec<u8> = Vec::new();
    push_octet_text(&mut out, ip / 0x100_0000);
    out.push(46);
    push_octet_text(&mut out, (ip / 0x1_0000) % 0x100);
    out.push(46);
    push_octet_text(&mut out, (ip / 0x100) % 0x100);
    out.push(46);
    push_octet_text(&mut out, ip % 0x100);
    proof {
        assert(ip / 0x100_0000 <= 255) by {
            assert(ip <= 0xffff_ffff);
        }
        assert(out@ =~= spec_fmt_ipv4(ip));
    }
    out
}

} // verus!
