//! The textual form of IPv6 addresses.
//!
//! An IPv6 literal is eight colon-separated groups of one to four
//! hexadecimal digits, or fewer groups with a single `::` standing
//! for the missing zero groups.  The embedded-IPv4 tail form is not
//! part of this grammar.

use vstd::prelude::*;

verus! {

/// An ASCII hexadecimal digit.
pub open spec fn is_hex_digit(b: u8) -> bool {
    ||| 48 <= b <= 57
    ||| 97 <= b <= 102
    ||| 65 <= b <= 70
}

/// The value of one hexadecimal digit.
pub open spec fn hex_digit_value(b: u8) -> int {
    if 48 <= b <= 57 {
        b - 48
    } else if 97 <= b <= 102 {
        b - 87
    } else {
        b - 55
    }
}

/// The value of a string of hexadecimal digits, most significant
/// first.
pub open spec fn hex_value(s: Seq<u8>) -> int
    decreases s.len(),
{
    if s.len() == 0 {
        0
    } else {
        hex_value(s.drop_last()) * 16 + hex_digit_value(s.last())
    }
}

/// The length of the longest prefix of hexadecimal digits.
pub open spec fn hex_len(s: Seq<u8>) -> int
    decreases s.len(),
{
    if s.len() == 0 || !is_hex_digit(s[0]) {
        0
    } else {
        1 + hex_len(s.drop_first())
    }
}

/// The digit prefix is never longer than the string, and is made of
/// digits.
pub proof fn lemma_hex_len_facts(s: Seq<u8>)
    ensures
        0 <= hex_len(s) <= s.len(),
        forall|j: int| 0 <= j < hex_len(s) ==> is_hex_digit(#[trigger] s[j]),
    decreases s.len(),
{
    if s.len() == 0 || !is_hex_digit(s[0]) {
    } else {
        lemma_hex_len_facts(s.drop_first());
        assert forall|j: int| 0 <= j < hex_len(s) implies is_hex_digit(#[trigger] s[j]) by {
            if j > 0 {
                assert(s.drop_first()[j - 1] == s[j]);
            }
        }
    }
}

/// The groups of an IPv6 tail: hexadecimal groups of one to four
/// digits, separated by single colons, covering all of `s`.
pub open spec fn spec_parse_groups(s: Seq<u8>) -> Option<Seq<int>>
    decreases s.len() via spec_parse_groups_decreases
{
    let h = hex_len(s);
    if h < 1 || h > 4 {
        None
    } else {
        let v = hex_value(s.take(h));
        let rest = s.skip(h);
        if rest.len() == 0 {
            Some(seq![v])
        } else if rest[0] == 58 && rest.len() >= 2 && rest[1] != 58 {
            match spec_parse_groups(rest.skip(1)) {
                Some(g) => Some(seq![v] + g),
                None => None,
            }
        } else {
            None
        }
    }
}

#[via_fn]
proof fn spec_parse_groups_decreases(s: Seq<u8>) {
    lemma_hex_len_facts(s);
}

/// The index of the first double colon in `s`, or the length if there
/// is none.
pub open spec fn dcolon_pos(s: Seq<u8>) -> int
    decreases s.len(),
{
    if s.len() < 2 {
        s.len() as int
    } else if s[0] == 58 && s[1] == 58 {
        0
    } else {
        1 + dcolon_pos(s.drop_first())
    }
}

/// The 128-bit value of a sequence of groups, most significant first.
pub open spec fn spec_groups_value(g: Seq<int>) -> int
    decreases g.len(),
{
    if g.len() == 0 {
        0
    } else {
        spec_groups_value(g.drop_last()) * 0x1_0000 + g.last()
    }
}

/// The IPv6 address denoted by `s`, if `s` is an IPv6 literal.
pub open spec fn spec_parse_ipv6(s: Seq<u8>) -> Option<u128> {
    let d = dcolon_pos(s);
    if d >= s.len() {
        match spec_parse_groups(s) {
            Some(g) => if g.len() == 8 {
                Some(spec_groups_value(g) as u128)
            } else {
                None
            },
            None => None,
        }
    } else {
        let left = s.take(d);
        let right = s.skip(d + 2);
        let lg: Option<Seq<int>> = if left.len() == 0 {
            Some(Seq::<int>::empty())
        } else {
            spec_parse_groups(left)
        };
        let rg: Option<Seq<int>> = if right.len() == 0 {
            Some(Seq::<int>::empty())
        } else {
            spec_parse_groups(right)
        };
        match (lg, rg) {
            (Some(l), Some(r)) => if l.len() + r.len() <= 7 {
                Some(
                    spec_groups_value(
                        l + Seq::<int>::new((8 - l.len() - r.len()) as nat, |i: int| 0) + r,
                    ) as u128,
                )
            } else {
                None
            },
            _ => None,
        }
    }
}

} // verus!

verus! {

/// Sixteen to the fourth power and friends: the group radix raised to
/// `n`.
pub open spec fn pow_group(n: nat) -> int
    decreases n,
{
    if n == 0 {
        1
    } else {
        0x1_0000 * pow_group((n - 1) as nat)
    }
}

/// The value of a hex-digit string is nonnegative and below the radix
/// raised to its length.
pub proof fn lemma_hex_value_bound(s: Seq<u8>)
    requires
        forall|i: int| 0 <= i < s.len() ==> is_hex_digit(#[trigger] s[i]),
    ensures
        0 <= hex_value(s),
        s.len() <= 4 ==> hex_value(s) <= 0xffff,
    decreases s.len(),
{
    lemma_hex_value_bound_general(s);
    if s.len() <= 4 {
        lemma_sixteen_bound(s);
    }
}

/// The value of a hex-digit string is below sixteen to its length.
proof fn lemma_sixteen_bound(s: Seq<u8>)
    requires
        forall|i: int| 0 <= i < s.len() ==> is_hex_digit(#[trigger] s[i]),
        s.len() <= 4,
    ensures
        hex_value(s) < 0x1_0000,
    decreases s.len(),
{
    if s.len() == 0 {
    } else {
        let p = s.drop_last();
        assert forall|i: int| 0 <= i < p.len() implies is_hex_digit(#[trigger] p[i]) by {
            assert(p[i] == s[i]);
        }
        lemma_sixteen_bound_len(p, (s.len() - 1) as nat);
        assert(is_hex_digit(s.last()));
        assert(hex_digit_value(s.last()) <= 15);
    }
}

/// The value of a hex-digit string of length at most `n` is below
/// sixteen to `n`.
proof fn lemma_sixteen_bound_len(s: Seq<u8>, n: nat)
    requires
        forall|i: int| 0 <= i < s.len() ==> is_hex_digit(#[trigger] s[i]),
        s.len() <= n,
        n <= 3,
    ensures
        hex_value(s) < (if n == 0 {
            1int
        } else if n == 1 {
            16int
        } else if n == 2 {
            256int
        } else {
            4096int
        }),
    decreases s.len(),
{
    if s.len() == 0 {
    } else {
        let p = s.drop_last();
        assert forall|i: int| 0 <= i < p.len() implies is_hex_digit(#[trigger] p[i]) by {
            assert(p[i] == s[i]);
        }
        lemma_sixteen_bound_len(p, (n - 1) as nat);
        assert(hex_digit_value(s.last()) <= 15);
    }
}

/// A hex value is never negative.
proof fn lemma_hex_value_bound_general(s: Seq<u8>)
    requires
        forall|i: int| 0 <= i < s.len() ==> is_hex_digit(#[trigger] s[i]),
    ensures
        0 <= hex_value(s),
    decreases s.len(),
{
    if s.len() > 0 {
        let p = s.drop_last();
        assert forall|i: int| 0 <= i < p.len() implies is_hex_digit(#[trigger] p[i]) by {
            assert(p[i] == s[i]);
        }
        lemma_hex_value_bound_general(p);
        assert(hex_digit_value(s.last()) >= 0);
    }
}

/// Whether `b` is a hexadecimal digit.
fn hex_digit(b: u8) -> (r: bool)
    ensures
        r == is_hex_digit(b),
{
    (48 <= b && b <= 57) || (97 <= b && b <= 102) || (65 <= b && b <= 70)
}

/// The number of leading hexadecimal digits of `s`, scanning from
/// `from`.
fn scan_hex(s: &[u8], from: usize) -> (r: usize)
    requires
        from <= s@.len(),
    ensures
        r == hex_len(s@.skip(from as int)),
        from + r <= s@.len(),
{
    let n = s.len();
    let mut i = from;
    while i < n && hex_digit(s[i])
        invariant
            from <= i <= n,
            n == s@.len(),
            hex_len(s@.skip(from as int)) == (i - from) + hex_len(s@.skip(i as int)),
        decreases n - i,
    {
        proof {
            assert(s@.skip(i as int)[0] == s@[i as int]);
            assert(s@.skip(i as int).drop_first() =~= s@.skip(i as int + 1));
        }
        i = i + 1;
    }
    proof {
        if i < n {
            assert(s@.skip(i as int)[0] == s@[i as int]);
            assert(hex_len(s@.skip(i as int)) == 0);
        } else {
            assert(s@.skip(i as int).len() == 0);
        }
    }
    i - from
}

/// The value of the `count` hexadecimal digits of `s` starting at
/// `from`.
fn hex_group(s: &[u8], from: usize, count: usize) -> (v: u16)
    requires
        from + count <= s@.len(),
        1 <= count <= 4,
        forall|j: int| 0 <= j < count ==> is_hex_digit(#[trigger] s@.skip(from as int)[j]),
    ensures
        v == hex_value(s@.skip(from as int).take(count as int)),
{
    let total = s.len();
    let mut v: u32 = 0;
    let mut j: usize = 0;
    while j < count
        invariant
            0 <= j <= count,
            count <= 4,
            total == s@.len(),
            from + count <= total,
            forall|k: int| 0 <= k < count ==> is_hex_digit(#[trigger] s@.skip(from as int)[k]),
            v == hex_value(s@.skip(from as int).take(j as int)),
            v <= 0xffff,
        decreases count - j,
    {
        proof {
            let pref = s@.skip(from as int).take(j as int);
            let digit = s@.skip(from as int)[j as int];
            assert(s@.skip(from as int).take(j as int + 1) =~= pref.push(digit));
            assert(is_hex_digit(digit));
            assert(pref.push(digit).drop_last() =~= pref);
            assert(pref.push(digit).last() == digit);
            assert forall|k: int|
                0 <= k < pref.push(digit).len() implies is_hex_digit(
                #[trigger] pref.push(digit)[k],
            ) by {
                if k < pref.len() {
                    assert(pref.push(digit)[k] == s@.skip(from as int)[k]);
                }
            }
            lemma_hex_value_bound(pref.push(digit));
        }
        let b = s[from + j];
        proof {
            assert(s@.skip(from as int)[j as int] == s@[from as int + j as int]);
        }
        let d: u32 = if 48 <= b && b <= 57 {
            (b - 48) as u32
        } else if 97 <= b && b <= 102 {
            (b - 87) as u32
        } else {
            (b - 55) as u32
        };
        v = v * 16 + d;
        j = j + 1;
    }
    v as u16
}

/// Parse a tail of colon-separated hexadecimal groups covering all of
/// `s`.
fn parse_groups_bytes(s: &[u8]) -> (r: Option<Vec<u16>>)
    ensures
        match r {
            Some(v) => spec_parse_groups(s@) == Some(v@.map_values(|x: u16| x as int)),
            None => spec_parse_groups(s@) is None,
        },
{
    let n = s.len();
    let mut acc: Vec<u16> = Vec::new();
    let mut pos: usize = 0;
    proof {
        assert(s@.skip(0) =~= s@);
        assert(acc@.map_values(|x: u16| x as int) =~= Seq::<int>::empty());
    }
    loop
        invariant
            pos <= n,
            n == s@.len(),
            (match spec_parse_groups(s@.skip(pos as int)) {
                Some(g) => spec_parse_groups(s@) == Some(
                    acc@.map_values(|x: u16| x as int) + g,
                ),
                None => spec_parse_groups(s@) is None,
            }),
        decreases n - pos,
    {
        let ghost rest = s@.skip(pos as int);
        proof {
            lemma_hex_len_facts(rest);
        }
        let h = scan_hex(s, pos);
        if h < 1 || h > 4 {
            return None;
        }
        let v = hex_group(s, pos, h);
        let pos2 = pos + h;
        proof {
            assert(rest.skip(h as int) =~= s@.skip(pos2 as int));
        }
        if pos2 == n {
            proof {
                assert(s@.skip(pos2 as int).len() == 0);
                assert(spec_parse_groups(rest) == Some(seq![v as int]));
                assert(acc@.push(v).map_values(|x: u16| x as int) =~= acc@.map_values(
                    |x: u16| x as int,
                ).push(v as int));
                assert(acc@.map_values(|x: u16| x as int).push(v as int) =~= acc@.map_values(
                    |x: u16| x as int,
                ) + seq![v as int]);
            }
            acc.push(v);
            return Some(acc);
        }
        proof {
            assert(s@.skip(pos2 as int)[0] == s@[pos2 as int]);
        }
        if s[pos2] != 58 {
            return None;
        }
        if pos2 + 1 >= n {
            proof {
                assert(s@.skip(pos2 as int).len() < 2);
            }
            return None;
        }
        proof {
            assert(s@.skip(pos2 as int)[1] == s@[pos2 as int + 1]);
        }
        if s[pos2 + 1] == 58 {
            return None;
        }
        let ghost acc0 = acc@;
        acc.push(v);
        pos = pos2 + 1;
        proof {
            assert(s@.skip(pos2 as int).skip(1) =~= s@.skip(pos as int));
            assert(acc@.map_values(|x: u16| x as int) =~= acc0.map_values(
                |x: u16| x as int,
            ).push(v as int));
            match spec_parse_groups(s@.skip(pos as int)) {
                Some(g) => {
                    assert(spec_parse_groups(rest) == Some(seq![v as int] + g));
                    assert(acc0.map_values(|x: u16| x as int) + (seq![v as int] + g)
                        =~= acc@.map_values(|x: u16| x as int) + g);
                },
                None => {
                    assert(spec_parse_groups(rest) is None);
                },
            }
        }
    }
}

/// The 128-bit value of at most eight groups.
fn groups_value(g: &Vec<u16>) -> (v: u128)
    requires
        g@.len() <= 8,
    ensures
        v == spec_groups_value(g@.map_values(|x: u16| x as int)),
{
    proof {
        assert(pow_group(0) == 1);
        assert(pow_group(1) == 0x1_0000);
        assert(pow_group(2) == 0x1_0000_0000);
        assert(pow_group(3) == 0x1_0000_0000_0000);
        assert(pow_group(4) == 0x1_0000_0000_0000_0000);
        assert(pow_group(5) == 0x1_0000_0000_0000_0000_0000);
        assert(pow_group(6) == 0x1_0000_0000_0000_0000_0000_0000);
        assert(pow_group(7) == 0x1_0000_0000_0000_0000_0000_0000_0000);
        assert(pow_group(8) == 0x1_0000_0000_0000_0000_0000_0000_0000_0000);
    }
    let n = g.len();
    let mut v: u128 = 0;
    let mut i: usize = 0;
    while i < n
        invariant
            0 <= i <= n,
            n == g@.len(),
            n <= 8,
            v == spec_groups_value(g@.take(i as int).map_values(|x: u16| x as int)),
            v < pow_group(i as nat),
            forall|m: nat| m < 8 ==> 0x1_0000 * #[trigger] pow_group(m) == pow_group((m + 1) as nat),
            pow_group(8) == 0x1_0000_0000_0000_0000_0000_0000_0000_0000,
            pow_group(i as nat) <= pow_group(8),
        decreases n - i,
    {
        proof {
            let pref = g@.take(i as int).map_values(|x: u16| x as int);
            let next = g@.take(i as int + 1).map_values(|x: u16| x as int);
            assert(g@.take(i as int + 1) =~= g@.take(i as int).push(g@[i as int]));
            assert(next =~= pref.push(g@[i as int] as int));
            assert(next.drop_last() =~= pref);
            assert(next.last() == g@[i as int] as int);
            assert(0x1_0000 * pow_group(i as nat) == pow_group((i + 1) as nat));
            assert(pow_group((i + 1) as nat) <= pow_group(8)) by {
                assert(forall|m: nat|
                    m < 8 ==> 0x1_0000 * #[trigger] pow_group(m) == pow_group((m + 1) as nat));
            }
        }
        v = v * 0x1_0000 + (g[i] as u128);
        i = i + 1;
    }
    proof {
        assert(g@.take(n as int) =~= g@);
    }
    v
}

/// Parse an IPv6 literal covering all of `s`.
pub fn parse_ipv6_bytes(s: &[u8]) -> (r: Option<u128>)
    ensures
        r == spec_parse_ipv6(s@),
{
    let n = s.len();
    let mut d: usize = 0;
    proof {
        assert(s@.skip(0) =~= s@);
    }
    while n - d > 1 && !(s[d] == 58 && s[d + 1] == 58)
        invariant
            0 <= d <= n,
            n == s@.len(),
            dcolon_pos(s@) == d + dcolon_pos(s@.skip(d as int)),
        decreases n - d,
    {
        proof {
            assert(s@.skip(d as int)[0] == s@[d as int]);
            assert(s@.skip(d as int)[1] == s@[d as int + 1]);
            assert(s@.skip(d as int).drop_first() =~= s@.skip(d as int + 1));
        }
        d = d + 1;
    }
    proof {
        if n - d > 1 {
            assert(s@.skip(d as int)[0] == s@[d as int]);
            assert(s@.skip(d as int)[1] == s@[d as int + 1]);
            assert(dcolon_pos(s@.skip(d as int)) == 0);
        } else {
            assert(s@.skip(d as int).len() < 2);
            assert(dcolon_pos(s@.skip(d as int)) == s@.skip(d as int).len());
        }
        assert(dcolon_pos(s@) == (if n - d > 1 {
            d as int
        } else {
            n as int
        }));
    }
    if n - d <= 1 {
        // no double colon: exactly eight groups
        let groups = match parse_groups_bytes(s) {
            None => {
                return None;
            },
            Some(g) => g,
        };
        if groups.len() != 8 {
            return None;
        }
        return Some(groups_value(&groups));
    }
    let left = vstd::slice::slice_subrange(s, 0, d);
    let right = vstd::slice::slice_subrange(s, d + 2, n);
    proof {
        assert(left@ =~= s@.take(d as int));
        assert(right@ =~= s@.skip(d as int + 2));
    }
    let lg: Vec<u16> = if left.len() == 0 {
        Vec::new()
    } else {
        match parse_groups_bytes(left) {
            None => {
                return None;
            },
            Some(g) => g,
        }
    };
    let rg: Vec<u16> = if right.len() == 0 {
        Vec::new()
    } else {
        match parse_groups_bytes(right) {
            None => {
                return None;
            },
            Some(g) => g,
        }
    };
    if lg.len() > 7 {
        return None;
    }
    if rg.len() > 7 - lg.len() {
        return None;
    }
    let mut full: Vec<u16> = Vec::new();
    let mut i: usize = 0;
    let llen = lg.len();
    while i < llen
        invariant
            0 <= i <= llen,
            llen == lg@.len(),
            full@ == lg@.take(i as int),
        decreases llen - i,
    {
        proof {
            assert(lg@.take(i as int + 1) =~= lg@.take(i as int).push(lg@[i as int]));
        }
        full.push(lg[i]);
        i = i + 1;
    }
    proof {
        assert(lg@.take(llen as int) =~= lg@);
    }
    let zeros = 8 - lg.len() - rg.len();
    let mut z: usize = 0;
    while z < zeros
        invariant
            0 <= z <= zeros,
            full@ == lg@ + Seq::<u16>::new(z as nat, |i: int| 0u16),
        decreases zeros - z,
    {
        proof {
            assert(lg@ + Seq::<u16>::new((z + 1) as nat, |i: int| 0u16) =~= (lg@ + Seq::<
                u16,
            >::new(z as nat, |i: int| 0u16)).push(0u16));
        }
        full.push(0);
        z = z + 1;
    }
    let mut k: usize = 0;
    let rlen = rg.len();
    let ghost base = full@;
    while k < rlen
        invariant
            0 <= k <= rlen,
            rlen == rg@.len(),
            full@ == base + rg@.take(k as int),
        decreases rlen - k,
    {
        proof {
            assert(rg@.take(k as int + 1) =~= rg@.take(k as int).push(rg@[k as int]));
            assert(base + rg@.take(k as int + 1) =~= (base + rg@.take(k as int)).push(
                rg@[k as int],
            ));
        }
        full.push(rg[k]);
        k = k + 1;
    }
    proof {
        assert(rg@.take(rlen as int) =~= rg@);
        assert(full@ =~= lg@ + Seq::<u16>::new(zeros as nat, |i: int| 0u16) + rg@);
        assert(full@.map_values(|x: u16| x as int) =~= lg@.map_values(|x: u16| x as int)
            + Seq::<int>::new(zeros as nat, |i: int| 0) + rg@.map_values(|x: u16| x as int));
    }
    Some(groups_value(&full))
}

} // verus!

verus! {

/// The lowercase text of one hexadecimal digit value.
pub open spec fn spec_hex_digit_text(d: int) -> u8 {
    if d < 10 {
        (48 + d) as u8
    } else {
        (87 + d) as u8
    }
}

/// The minimal lowercase text of one group value.
pub open spec fn spec_fmt_group(g: int) -> Seq<u8> {
    if g < 0x10 {
        seq![spec_hex_digit_text(g)]
    } else if g < 0x100 {
        seq![spec_hex_digit_text(g / 0x10), spec_hex_digit_text(g % 0x10)]
    } else if g < 0x1000 {
        seq![
            spec_hex_digit_text(g / 0x100),
            spec_hex_digit_text((g / 0x10) % 0x10),
            spec_hex_digit_text(g % 0x10),
        ]
    } else {
        seq![
            spec_hex_digit_text(g / 0x1000),
            spec_hex_digit_text((g / 0x100) % 0x10),
            spec_hex_digit_text((g / 0x10) % 0x10),
            spec_hex_digit_text(g % 0x10),
        ]
    }
}

/// The `i`-th 16-bit group of an address, counting from the low end.
pub open spec fn spec_v6_group(v: u128, i: int) -> int {
    if i == 0 {
        v as int % 0x1_0000
    } else if i == 1 {
        (v as int / 0x1_0000) % 0x1_0000
    } else if i == 2 {
        (v as int / 0x1_0000_0000) % 0x1_0000
    } else if i == 3 {
        (v as int / 0x1_0000_0000_0000) % 0x1_0000
    } else if i == 4 {
        (v as int / 0x1_0000_0000_0000_0000) % 0x1_0000
    } else if i == 5 {
        (v as int / 0x1_0000_0000_0000_0000_0000) % 0x1_0000
    } else if i == 6 {
        (v as int / 0x1_0000_0000_0000_0000_0000_0000) % 0x1_0000
    } else {
        (v as int / 0x1_0000_0000_0000_0000_0000_0000_0000) % 0x1_0000
    }
}

/// The full-form text of an IPv6 address: eight groups, highest
/// first, separated by single colons.
pub open spec fn spec_fmt_ipv6(v: u128) -> Seq<u8> {
    spec_fmt_group(spec_v6_group(v, 7)) + seq![58u8] + spec_fmt_group(spec_v6_group(v, 6))
        + seq![58u8] + spec_fmt_group(spec_v6_group(v, 5)) + seq![58u8] + spec_fmt_group(
        spec_v6_group(v, 4),
    ) + seq![58u8] + spec_fmt_group(spec_v6_group(v, 3)) + seq![58u8] + spec_fmt_group(
        spec_v6_group(v, 2),
    ) + seq![58u8] + spec_fmt_group(spec_v6_group(v, 1)) + seq![58u8] + spec_fmt_group(
        spec_v6_group(v, 0),
    )
}

/// The text of a group value is made of hexadecimal digits, one to
/// four of them, and denotes the value.
proof fn lemma_fmt_group_ok(g: int)
    requires
        0 <= g <= 0xffff,
    ensures
        1 <= spec_fmt_group(g).len() <= 4,
        forall|i: int|
            0 <= i < spec_fmt_group(g).len() ==> is_hex_digit(#[trigger] spec_fmt_group(g)[i]),
        hex_value(spec_fmt_group(g)) == g,
{
    vstd::arithmetic::div_mod::lemma_fundamental_div_mod(g, 0x10);
    vstd::arithmetic::div_mod::lemma_fundamental_div_mod(g / 0x10, 0x10);
    vstd::arithmetic::div_mod::lemma_fundamental_div_mod(g / 0x100, 0x10);
    assert(g / 0x10 / 0x10 == g / 0x100) by {
        vstd::arithmetic::div_mod::lemma_div_denominator(g, 0x10, 0x10);
    }
    assert(g / 0x100 / 0x10 == g / 0x1000) by {
        vstd::arithmetic::div_mod::lemma_div_denominator(g, 0x100, 0x10);
    }
    let f = spec_fmt_group(g);
    assert(hex_value(Seq::<u8>::empty()) == 0);
    assert forall|d: int| 0 <= d < 0x10 implies is_hex_digit(#[trigger] spec_hex_digit_text(d))
        && hex_digit_value(spec_hex_digit_text(d)) == d by {}
    if g < 0x10 {
        assert(f.drop_last() =~= Seq::<u8>::empty());
        assert(f.last() == spec_hex_digit_text(g));
        assert(hex_value(f) == g);
    } else if g < 0x100 {
        assert(f.drop_last() =~= seq![spec_hex_digit_text(g / 0x10)]);
        assert(f.drop_last().drop_last() =~= Seq::<u8>::empty());
        assert(f.drop_last().last() == spec_hex_digit_text(g / 0x10));
        assert(hex_value(f.drop_last()) == g / 0x10);
        assert(f.last() == spec_hex_digit_text(g % 0x10));
        assert(hex_value(f) == (g / 0x10) * 0x10 + g % 0x10);
    } else if g < 0x1000 {
        assert(f.drop_last() =~= seq![
            spec_hex_digit_text(g / 0x100),
            spec_hex_digit_text((g / 0x10) % 0x10),
        ]);
        assert(f.drop_last().drop_last() =~= seq![spec_hex_digit_text(g / 0x100)]);
        assert(f.drop_last().drop_last().drop_last() =~= Seq::<u8>::empty());
        assert(f.drop_last().drop_last().last() == spec_hex_digit_text(g / 0x100));
        assert(hex_value(f.drop_last().drop_last()) == g / 0x100);
        assert(f.drop_last().last() == spec_hex_digit_text((g / 0x10) % 0x10));
        assert(hex_value(f.drop_last()) == (g / 0x100) * 0x10 + (g / 0x10) % 0x10);
        assert(hex_value(f.drop_last()) == g / 0x10);
        assert(f.last() == spec_hex_digit_text(g % 0x10));
        assert(hex_value(f) == (g / 0x10) * 0x10 + g % 0x10);
    } else {
        assert(f.drop_last() =~= seq![
            spec_hex_digit_text(g / 0x1000),
            spec_hex_digit_text((g / 0x100) % 0x10),
            spec_hex_digit_text((g / 0x10) % 0x10),
        ]);
        assert(f.drop_last().drop_last() =~= seq![
            spec_hex_digit_text(g / 0x1000),
            spec_hex_digit_text((g / 0x100) % 0x10),
        ]);
        assert(f.drop_last().drop_last().drop_last() =~= seq![spec_hex_digit_text(g / 0x1000)]);
        assert(f.drop_last().drop_last().drop_last().drop_last() =~= Seq::<u8>::empty());
        assert(f.drop_last().drop_last().drop_last().last() == spec_hex_digit_text(g / 0x1000));
        assert(hex_value(f.drop_last().drop_last().drop_last()) == g / 0x1000);
        assert(f.drop_last().drop_last().last() == spec_hex_digit_text((g / 0x100) % 0x10));
        assert(hex_value(f.drop_last().drop_last()) == (g / 0x1000) * 0x10 + (g / 0x100) % 0x10);
        assert(hex_value(f.drop_last().drop_last()) == g / 0x100);
        assert(f.drop_last().last() == spec_hex_digit_text((g / 0x10) % 0x10));
        assert(hex_value(f.drop_last()) == (g / 0x100) * 0x10 + (g / 0x10) % 0x10);
        assert(hex_value(f.drop_last()) == g / 0x10);
        assert(f.last() == spec_hex_digit_text(g % 0x10));
        assert(hex_value(f) == (g / 0x10) * 0x10 + g % 0x10);
    }
}

} // verus!

verus! {

/// The hex prefix of hex digits followed by a non-digit is exactly
/// the digits.
proof fn lemma_hex_concat(a: Seq<u8>, b: Seq<u8>)
    requires
        forall|i: int| 0 <= i < a.len() ==> is_hex_digit(#[trigger] a[i]),
        b.len() > 0 ==> !is_hex_digit(b[0]),
    ensures
        hex_len(a + b) == a.len(),
    decreases a.len(),
{
    if a.len() == 0 {
        assert(a + b =~= b);
    } else {
        assert((a + b)[0] == a[0]);
        assert((a + b).drop_first() =~= a.drop_first() + b);
        assert forall|i: int|
            0 <= i < a.drop_first().len() implies is_hex_digit(
            #[trigger] a.drop_first()[i],
        ) by {
            assert(a.drop_first()[i] == a[i + 1]);
        }
        lemma_hex_concat(a.drop_first(), b);
    }
}

/// A lone group parses to itself.
proof fn lemma_parse_group_alone(g: int)
    requires
        0 <= g <= 0xffff,
    ensures
        spec_parse_groups(spec_fmt_group(g)) == Some(seq![g]),
{
    lemma_fmt_group_ok(g);
    let a = spec_fmt_group(g);
    lemma_hex_concat(a, Seq::<u8>::empty());
    assert(a + Seq::<u8>::empty() =~= a);
    assert(hex_len(a) == a.len());
    assert(a.take(a.len() as int) =~= a);
    assert(a.skip(a.len() as int).len() == 0);
}

/// A group, a colon and a parsing tail parse to the group followed by
/// the tail's groups.
proof fn lemma_parse_group_cons(g: int, rest: Seq<u8>, gs: Seq<int>)
    requires
        0 <= g <= 0xffff,
        rest.len() > 0,
        is_hex_digit(rest[0]),
        spec_parse_groups(rest) == Some(gs),
    ensures
        spec_parse_groups(spec_fmt_group(g) + seq![58u8] + rest) == Some(seq![g] + gs),
{
    lemma_fmt_group_ok(g);
    let a = spec_fmt_group(g);
    let f = a + seq![58u8] + rest;
    assert(f =~= a + (seq![58u8] + rest));
    assert((seq![58u8] + rest)[0] == 58);
    lemma_hex_concat(a, seq![58u8] + rest);
    assert(hex_len(f) == a.len());
    assert(f.take(a.len() as int) =~= a);
    let tail = f.skip(a.len() as int);
    assert(tail =~= seq![58u8] + rest);
    assert(tail[0] == 58);
    assert(tail.len() >= 2);
    assert(tail[1] == rest[0]);
    assert(tail[1] != 58);
    assert(tail.skip(1) =~= rest);
}

/// A text that parses as groups holds no double colon.
proof fn lemma_parse_groups_no_dcolon(s: Seq<u8>)
    requires
        spec_parse_groups(s) is Some || (s.len() >= 2 && s[0] == 58 && s[1] != 58
            && spec_parse_groups(s.skip(1)) is Some),
    ensures
        dcolon_pos(s) == s.len(),
    decreases s.len(),
{
    if spec_parse_groups(s) is Some {
        let h = hex_len(s);
        lemma_hex_len_facts(s);
        assert(h >= 1);
        assert(is_hex_digit(s[0]));
        assert(s[0] != 58);
        if s.len() == 1 {
        } else {
            // the remainder, one character on, still parses or sits
            // just before a colon
            let r = s.skip(1);
            assert(s.drop_first() =~= r);
            if h == 1 {
                let rest = s.skip(1);
                if rest.len() == 0 {
                } else {
                    assert(rest[0] == 58 && rest.len() >= 2 && rest[1] != 58
                        && spec_parse_groups(rest.skip(1)) is Some);
                    lemma_parse_groups_no_dcolon(rest);
                }
            } else {
                assert(hex_len(r) == h - 1) by {
                    assert(s.drop_first() =~= r);
                }
                assert(1 <= hex_len(r) <= 4);
                assert(r.skip(hex_len(r)) =~= s.skip(h)) by {
                    assert(r.skip(h - 1) =~= s.skip(h));
                }
                assert(r.take(hex_len(r)).len() >= 1);
                lemma_hex_len_facts(r);
                assert(spec_parse_groups(r) is Some) by {
                    let srest = s.skip(h);
                    if srest.len() == 0 {
                    } else {
                        assert(srest[0] == 58 && srest.len() >= 2 && srest[1] != 58);
                        assert(spec_parse_groups(srest.skip(1)) is Some);
                    }
                }
                lemma_parse_groups_no_dcolon(r);
            }
            assert(dcolon_pos(s) == 1 + dcolon_pos(s.drop_first())) by {
                assert(s[0] != 58);
            }
        }
    } else {
        assert(s[0] == 58 && s[1] != 58);
        let r = s.skip(1);
        assert(s.drop_first() =~= r);
        assert(spec_parse_groups(r) is Some);
        lemma_parse_groups_no_dcolon(r);
        assert(dcolon_pos(s) == 1 + dcolon_pos(s.drop_first()));
    }
}

/// The eight extracted groups, highest first, compose back to the
/// address value.
#[verifier::rlimit(100)]
proof fn lemma_v6_compose(v: u128)
    ensures
        spec_groups_value(
            seq![
                spec_v6_group(v, 7),
                spec_v6_group(v, 6),
                spec_v6_group(v, 5),
                spec_v6_group(v, 4),
                spec_v6_group(v, 3),
                spec_v6_group(v, 2),
                spec_v6_group(v, 1),
                spec_v6_group(v, 0),
            ],
        ) == v,
{
    let g0 = spec_v6_group(v, 0);
    let g1 = spec_v6_group(v, 1);
    let g2 = spec_v6_group(v, 2);
    let g3 = spec_v6_group(v, 3);
    let g4 = spec_v6_group(v, 4);
    let g5 = spec_v6_group(v, 5);
    let g6 = spec_v6_group(v, 6);
    let g7 = spec_v6_group(v, 7);
    let gs = seq![g7, g6, g5, g4, g3, g2, g1, g0];
    assert(spec_groups_value(gs) == v) by {
        let x = v as int;
        assert(gs.drop_last() =~= seq![g7, g6, g5, g4, g3, g2, g1]);
        assert(seq![g7, g6, g5, g4, g3, g2, g1].drop_last() =~= seq![g7, g6, g5, g4, g3, g2]);
        assert(seq![g7, g6, g5, g4, g3, g2].drop_last() =~= seq![g7, g6, g5, g4, g3]);
        assert(seq![g7, g6, g5, g4, g3].drop_last() =~= seq![g7, g6, g5, g4]);
        assert(seq![g7, g6, g5, g4].drop_last() =~= seq![g7, g6, g5]);
        assert(seq![g7, g6, g5].drop_last() =~= seq![g7, g6]);
        assert(seq![g7, g6].drop_last() =~= seq![g7]);
        assert(seq![g7].drop_last() =~= Seq::<int>::empty());
        assert(spec_groups_value(Seq::<int>::empty()) == 0);
        assert(spec_groups_value(seq![g7]) == g7);
        assert(spec_groups_value(seq![g7, g6]) == g7 * 0x1_0000 + g6);
        assert(spec_groups_value(seq![g7, g6, g5]) == (g7 * 0x1_0000 + g6) * 0x1_0000 + g5);
        assert(spec_groups_value(seq![g7, g6, g5, g4]) == ((g7 * 0x1_0000 + g6) * 0x1_0000 + g5)
            * 0x1_0000 + g4);
        assert(spec_groups_value(seq![g7, g6, g5, g4, g3]) == (((g7 * 0x1_0000 + g6) * 0x1_0000
            + g5) * 0x1_0000 + g4) * 0x1_0000 + g3);
        assert(spec_groups_value(seq![g7, g6, g5, g4, g3, g2]) == ((((g7 * 0x1_0000 + g6)
            * 0x1_0000 + g5) * 0x1_0000 + g4) * 0x1_0000 + g3) * 0x1_0000 + g2);
        assert(spec_groups_value(seq![g7, g6, g5, g4, g3, g2, g1]) == (((((g7 * 0x1_0000 + g6)
            * 0x1_0000 + g5) * 0x1_0000 + g4) * 0x1_0000 + g3) * 0x1_0000 + g2) * 0x1_0000 + g1);
        assert(spec_groups_value(gs) == ((((((g7 * 0x1_0000 + g6) * 0x1_0000 + g5) * 0x1_0000
            + g4) * 0x1_0000 + g3) * 0x1_0000 + g2) * 0x1_0000 + g1) * 0x1_0000 + g0);
        vstd::arithmetic::div_mod::lemma_fundamental_div_mod(x, 0x1_0000);
        vstd::arithmetic::div_mod::lemma_fundamental_div_mod(x / 0x1_0000, 0x1_0000);
        vstd::arithmetic::div_mod::lemma_fundamental_div_mod(x / 0x1_0000_0000, 0x1_0000);
        vstd::arithmetic::div_mod::lemma_fundamental_div_mod(x / 0x1_0000_0000_0000, 0x1_0000);
        vstd::arithmetic::div_mod::lemma_fundamental_div_mod(
            x / 0x1_0000_0000_0000_0000,
            0x1_0000,
        );
        vstd::arithmetic::div_mod::lemma_fundamental_div_mod(
            x / 0x1_0000_0000_0000_0000_0000,
            0x1_0000,
        );
        vstd::arithmetic::div_mod::lemma_fundamental_div_mod(
            x / 0x1_0000_0000_0000_0000_0000_0000,
            0x1_0000,
        );
        assert(x / 0x1_0000 / 0x1_0000 == x / 0x1_0000_0000) by {
            vstd::arithmetic::div_mod::lemma_div_denominator(x, 0x1_0000, 0x1_0000);
        }
        assert(x / 0x1_0000_0000 / 0x1_0000 == x / 0x1_0000_0000_0000) by {
            vstd::arithmetic::div_mod::lemma_div_denominator(x, 0x1_0000_0000, 0x1_0000);
        }
        assert(x / 0x1_0000_0000_0000 / 0x1_0000 == x / 0x1_0000_0000_0000_0000) by {
            vstd::arithmetic::div_mod::lemma_div_denominator(x, 0x1_0000_0000_0000, 0x1_0000);
        }
        assert(x / 0x1_0000_0000_0000_0000 / 0x1_0000 == x / 0x1_0000_0000_0000_0000_0000) by {
            vstd::arithmetic::div_mod::lemma_div_denominator(
                x,
                0x1_0000_0000_0000_0000,
                0x1_0000,
            );
        }
        assert(x / 0x1_0000_0000_0000_0000_0000 / 0x1_0000
            == x / 0x1_0000_0000_0000_0000_0000_0000) by {
            vstd::arithmetic::div_mod::lemma_div_denominator(
                x,
                0x1_0000_0000_0000_0000_0000,
                0x1_0000,
            );
        }
        assert(x / 0x1_0000_0000_0000_0000_0000_0000 / 0x1_0000
            == x / 0x1_0000_0000_0000_0000_0000_0000_0000) by {
            vstd::arithmetic::div_mod::lemma_div_denominator(
                x,
                0x1_0000_0000_0000_0000_0000_0000,
                0x1_0000,
            );
        }
        assert(x / 0x1_0000_0000_0000_0000_0000_0000_0000 < 0x1_0000) by {
            vstd::arithmetic::div_mod::lemma_div_is_ordered(
                x,
                0xffff_ffff_ffff_ffff_ffff_ffff_ffff_ffff,
                0x1_0000_0000_0000_0000_0000_0000_0000,
            );
            assert(0xffff_ffff_ffff_ffff_ffff_ffff_ffff_ffffint
                / 0x1_0000_0000_0000_0000_0000_0000_0000 == 0xffff);
        }
        vstd::arithmetic::div_mod::lemma_fundamental_div_mod(
            x / 0x1_0000_0000_0000_0000_0000_0000_0000,
            0x1_0000,
        );
        vstd::arithmetic::div_mod::lemma_small_mod(
            (x / 0x1_0000_0000_0000_0000_0000_0000_0000) as nat,
            0x1_0000nat,
        );
        assert(g7 == x / 0x1_0000_0000_0000_0000_0000_0000_0000);
        assert(g7 * 0x1_0000 + g6 == x / 0x1_0000_0000_0000_0000_0000_0000);
        assert((g7 * 0x1_0000 + g6) * 0x1_0000 + g5 == x / 0x1_0000_0000_0000_0000_0000);
        assert(((g7 * 0x1_0000 + g6) * 0x1_0000 + g5) * 0x1_0000 + g4 == x
            / 0x1_0000_0000_0000_0000);
        assert((((g7 * 0x1_0000 + g6) * 0x1_0000 + g5) * 0x1_0000 + g4) * 0x1_0000 + g3 == x
            / 0x1_0000_0000_0000);
        assert(((((g7 * 0x1_0000 + g6) * 0x1_0000 + g5) * 0x1_0000 + g4) * 0x1_0000 + g3)
            * 0x1_0000 + g2 == x / 0x1_0000_0000);
        assert((((((g7 * 0x1_0000 + g6) * 0x1_0000 + g5) * 0x1_0000 + g4) * 0x1_0000 + g3)
            * 0x1_0000 + g2) * 0x1_0000 + g1 == x / 0x1_0000);
        assert(((((((g7 * 0x1_0000 + g6) * 0x1_0000 + g5) * 0x1_0000 + g4) * 0x1_0000 + g3)
            * 0x1_0000 + g2) * 0x1_0000 + g1) * 0x1_0000 + g0 == x);
    }
}

/// The text of a group list: the groups' texts joined by single
/// colons.
pub open spec fn spec_join_groups(gs: Seq<int>) -> Seq<u8>
    decreases gs.len(),
{
    if gs.len() == 0 {
        Seq::<u8>::empty()
    } else if gs.len() == 1 {
        spec_fmt_group(gs[0])
    } else {
        spec_fmt_group(gs[0]) + seq![58u8] + spec_join_groups(gs.drop_first())
    }
}

/// A joined group list parses back to the list.
proof fn lemma_parse_join(gs: Seq<int>)
    requires
        gs.len() >= 1,
        forall|i: int| 0 <= i < gs.len() ==> 0 <= #[trigger] gs[i] <= 0xffff,
    ensures
        spec_parse_groups(spec_join_groups(gs)) == Some(gs),
        spec_join_groups(gs).len() > 0,
        is_hex_digit(spec_join_groups(gs)[0]),
    decreases gs.len(),
{
    lemma_fmt_group_ok(gs[0]);
    if gs.len() == 1 {
        lemma_parse_group_alone(gs[0]);
        assert(gs =~= seq![gs[0]]);
    } else {
        let tail = gs.drop_first();
        assert forall|i: int| 0 <= i < tail.len() implies 0 <= #[trigger] tail[i] <= 0xffff by {
            assert(tail[i] == gs[i + 1]);
        }
        lemma_parse_join(tail);
        let rest = spec_join_groups(tail);
        lemma_parse_group_cons(gs[0], rest, tail);
        assert(seq![gs[0]] + tail =~= gs);
        assert(spec_join_groups(gs)[0] == spec_fmt_group(gs[0])[0]);
    }
}

/// The full-form text is the join of the eight extracted groups.
#[verifier::rlimit(100)]
#[verifier::spinoff_prover]
proof fn lemma_fmt_is_join(v: u128)
    ensures
        spec_fmt_ipv6(v) == spec_join_groups(
            seq![
                spec_v6_group(v, 7),
                spec_v6_group(v, 6),
                spec_v6_group(v, 5),
                spec_v6_group(v, 4),
                spec_v6_group(v, 3),
                spec_v6_group(v, 2),
                spec_v6_group(v, 1),
                spec_v6_group(v, 0),
            ],
        ),
{
    let g0 = spec_v6_group(v, 0);
    let g1 = spec_v6_group(v, 1);
    let g2 = spec_v6_group(v, 2);
    let g3 = spec_v6_group(v, 3);
    let g4 = spec_v6_group(v, 4);
    let g5 = spec_v6_group(v, 5);
    let g6 = spec_v6_group(v, 6);
    let g7 = spec_v6_group(v, 7);
    let s8 = seq![g7, g6, g5, g4, g3, g2, g1, g0];
    let s7 = seq![g6, g5, g4, g3, g2, g1, g0];
    let s6 = seq![g5, g4, g3, g2, g1, g0];
    let s5 = seq![g4, g3, g2, g1, g0];
    let s4 = seq![g3, g2, g1, g0];
    let s3 = seq![g2, g1, g0];
    let s2 = seq![g1, g0];
    let s1 = seq![g0];
    assert(s8.drop_first() =~= s7);
    assert(s7.drop_first() =~= s6);
    assert(s6.drop_first() =~= s5);
    assert(s5.drop_first() =~= s4);
    assert(s4.drop_first() =~= s3);
    assert(s3.drop_first() =~= s2);
    assert(s2.drop_first() =~= s1);
    assert(spec_join_groups(s1) == spec_fmt_group(g0));
    assert(spec_join_groups(s2) == spec_fmt_group(g1) + seq![58u8] + spec_join_groups(s1));
    assert(spec_join_groups(s3) == spec_fmt_group(g2) + seq![58u8] + spec_join_groups(s2));
    assert(spec_join_groups(s4) == spec_fmt_group(g3) + seq![58u8] + spec_join_groups(s3));
    assert(spec_join_groups(s5) == spec_fmt_group(g4) + seq![58u8] + spec_join_groups(s4));
    assert(spec_join_groups(s6) == spec_fmt_group(g5) + seq![58u8] + spec_join_groups(s5));
    assert(spec_join_groups(s7) == spec_fmt_group(g6) + seq![58u8] + spec_join_groups(s6));
    assert(spec_join_groups(s8) == spec_fmt_group(g7) + seq![58u8] + spec_join_groups(s7));
    assert(spec_fmt_ipv6(v) =~= spec_join_groups(s8));
}

/// The full-form text of an address parses back to its eight groups.
proof fn lemma_v6_parse_chain(v: u128)
    ensures
        spec_parse_groups(spec_fmt_ipv6(v)) == Some(
            seq![
                spec_v6_group(v, 7),
                spec_v6_group(v, 6),
                spec_v6_group(v, 5),
                spec_v6_group(v, 4),
                spec_v6_group(v, 3),
                spec_v6_group(v, 2),
                spec_v6_group(v, 1),
                spec_v6_group(v, 0),
            ],
        ),
{
    let gs = seq![
        spec_v6_group(v, 7),
        spec_v6_group(v, 6),
        spec_v6_group(v, 5),
        spec_v6_group(v, 4),
        spec_v6_group(v, 3),
        spec_v6_group(v, 2),
        spec_v6_group(v, 1),
        spec_v6_group(v, 0),
    ];
    lemma_fmt_is_join(v);
    lemma_parse_join(gs);
}

/// An IPv6 address survives the round trip through its full-form
/// text: formatting and parsing back give the same address.
pub proof fn lemma_ipv6_round_trip(v: u128)
    ensures
        spec_parse_ipv6(spec_fmt_ipv6(v)) == Some(v),
{
    let gs = seq![
        spec_v6_group(v, 7),
        spec_v6_group(v, 6),
        spec_v6_group(v, 5),
        spec_v6_group(v, 4),
        spec_v6_group(v, 3),
        spec_v6_group(v, 2),
        spec_v6_group(v, 1),
        spec_v6_group(v, 0),
    ];
    lemma_v6_parse_chain(v);
    lemma_parse_groups_no_dcolon(spec_fmt_ipv6(v));
    lemma_v6_compose(v);
    assert(gs.len() == 8);
}

} // verus!

verus! {

/// The lowercase text of one hexadecimal digit value.
fn hex_char(d: u16) -> (r: u8)
    requires
        d < 0x10,
    ensures
        r == spec_hex_digit_text(d as int),
{
    if d < 10 {
        48 + (d as u8)
    } else {
        87 + (d as u8)
    }
}

/// Append the minimal lowercase text of one group value.
fn push_group_text(out: &mut Vec<u8>, g: u16)
    ensures
        final(out)@ == old(out)@ + spec_fmt_group(g as int),
{
    let ghost pre = out@;
    if g < 0x10 {
        out.push(hex_char(g));
        proof {
            assert(out@ =~= pre + spec_fmt_group(g as int));
        }
    } else if g < 0x100 {
        out.push(hex_char(g / 0x10));
        out.push(hex_char(g % 0x10));
        proof {
            assert(out@ =~= pre + spec_fmt_group(g as int));
        }
    } else if g < 0x1000 {
        out.push(hex_char(g / 0x100));
        out.push(hex_char((g / 0x10) % 0x10));
        out.push(hex_char(g % 0x10));
        proof {
            assert(out@ =~= pre + spec_fmt_group(g as int));
        }
    } else {
        out.push(hex_char(g / 0x1000));
        out.push(hex_char((g / 0x100) % 0x10));
        out.push(hex_char((g / 0x10) % 0x10));
        out.push(hex_char(g % 0x10));
        proof {
            assert(out@ =~= pre + spec_fmt_group(g as int));
        }
    }
}

/// The full-form text of an IPv6 address: eight groups, highest
/// first.
pub fn fmt_ipv6(v: u128) -> (r: Vec<u8>)
    ensures
        r@ == spec_fmt_ipv6(v),
{
    let mut out: Vec<u8> = Vec::new();
    push_group_text(&mut out, ((v / 0x1_0000_0000_0000_0000_0000_0000_0000) % 0x1_0000) as u16);
    out.push(58);
    push_group_text(&mut out, ((v / 0x1_0000_0000_0000_0000_0000_0000) % 0x1_0000) as u16);
    out.push(58);
    push_group_text(&mut out, ((v / 0x1_0000_0000_0000_0000_0000) % 0x1_0000) as u16);
    out.push(58);
    push_group_text(&mut out, ((v / 0x1_0000_0000_0000_0000) % 0x1_0000) as u16);
    out.push(58);
    push_group_text(&mut out, ((v / 0x1_0000_0000_0000) % 0x1_0000) as u16);
    out.push(58);
    push_group_text(&mut out, ((v / 0x1_0000_0000) % 0x1_0000) as u16);
    out.push(58);
    push_group_text(&mut out, ((v / 0x1_0000) % 0x1_0000) as u16);
    out.push(58);
    push_group_text(&mut out, (v % 0x1_0000) as u16);
    proof {
        assert(out@ =~= spec_fmt_ipv6(v));
    }
    out
}

} // verus!
