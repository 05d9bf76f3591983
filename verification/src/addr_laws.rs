//! The round trip of an address through its text.
//!
//! Formatting an IPv4 address and parsing the text back gives the
//! same address: the formatter emits exactly the grammar the parser
//! accepts.

use vstd::prelude::*;

use crate::addr::dec_value;
use crate::addr::digits_len;
use crate::addr::is_dec_digit;
use crate::addr::spec_fmt_ipv4;
use crate::addr::spec_fmt_octet;
use crate::addr::spec_parse_ipv4;
use crate::addr::valid_octet_text;

verus! {

/// The digit prefix of digits followed by a non-digit is exactly the
/// digits.
proof fn lemma_digits_concat(a: Seq<u8>, b: Seq<u8>)
    requires
        forall|i: int| 0 <= i < a.len() ==> is_dec_digit(#[trigger] a[i]),
        b.len() > 0 ==> !is_dec_digit(b[0]),
    ensures
        digits_len(a + b) == a.len(),
    decreases a.len(),
{
    if a.len() == 0 {
        assert(a + b =~= b);
        if b.len() > 0 {
        }
    } else {
        assert((a + b)[0] == a[0]);
        assert((a + b).drop_first() =~= a.drop_first() + b);
        assert forall|i: int|
            0 <= i < a.drop_first().len() implies is_dec_digit(
            #[trigger] a.drop_first()[i],
        ) by {
            assert(a.drop_first()[i] == a[i + 1]);
        }
        lemma_digits_concat(a.drop_first(), b);
    }
}

/// The text of an octet value is a valid octet text denoting that
/// value.
proof fn lemma_fmt_octet_ok(v: int)
    requires
        0 <= v <= 255,
    ensures
        valid_octet_text(spec_fmt_octet(v)),
        dec_value(spec_fmt_octet(v)) == v,
        forall|i: int|
            0 <= i < spec_fmt_octet(v).len() ==> is_dec_digit(#[trigger] spec_fmt_octet(v)[i]),
{
    vstd::arithmetic::div_mod::lemma_fundamental_div_mod(v, 10);
    vstd::arithmetic::div_mod::lemma_fundamental_div_mod(v / 10, 10);
    let f = spec_fmt_octet(v);
    assert(dec_value(Seq::<u8>::empty()) == 0);
    if v < 10 {
        assert(f =~= seq![(48 + v) as u8]);
        assert(f.len() == 1);
        assert(f.last() == (48 + v) as u8);
        assert(f.drop_last() =~= Seq::<u8>::empty());
        assert(dec_value(f.drop_last()) == 0);
        assert(dec_value(f) == dec_value(f.drop_last()) * 10 + (f.last() - 48));
        assert(dec_value(f) == v);
    } else if v < 100 {
        assert(f.len() == 2);
        assert(f.last() == (48 + v % 10) as u8);
        assert(f.drop_last() =~= seq![(48 + v / 10) as u8]);
        assert(f.drop_last().last() == (48 + v / 10) as u8);
        assert(f.drop_last().drop_last() =~= Seq::<u8>::empty());
        assert(dec_value(f.drop_last().drop_last()) == 0);
        assert(dec_value(f.drop_last()) == dec_value(f.drop_last().drop_last()) * 10 + (
        f.drop_last().last() - 48));
        assert(dec_value(f.drop_last()) == v / 10);
        assert(dec_value(f) == dec_value(f.drop_last()) * 10 + (f.last() - 48));
        assert(dec_value(f) == (v / 10) * 10 + v % 10);
    } else {
        assert(f.len() == 3);
        assert(f.last() == (48 + v % 10) as u8);
        assert(f.drop_last() =~= seq![(48 + v / 100) as u8, (48 + (v / 10) % 10) as u8]);
        assert(f.drop_last().last() == (48 + (v / 10) % 10) as u8);
        assert(f.drop_last().drop_last() =~= seq![(48 + v / 100) as u8]);
        assert(f.drop_last().drop_last().last() == (48 + v / 100) as u8);
        assert(f.drop_last().drop_last().drop_last() =~= Seq::<u8>::empty());
        assert(dec_value(f.drop_last().drop_last().drop_last()) == 0);
        assert(dec_value(f.drop_last().drop_last()) == dec_value(
            f.drop_last().drop_last().drop_last(),
        ) * 10 + (f.drop_last().drop_last().last() - 48));
        assert(dec_value(f.drop_last().drop_last()) == v / 100);
        assert(dec_value(f.drop_last()) == dec_value(f.drop_last().drop_last()) * 10 + (
        f.drop_last().last() - 48));
        assert(dec_value(f) == dec_value(f.drop_last()) * 10 + (f.last() - 48));
        assert(dec_value(f.drop_last()) == (v / 100) * 10 + (v / 10) % 10);
        assert(v / 10 == (v / 100) * 10 + (v / 10) % 10) by {
            assert(v / 10 / 10 == v / 100) by {
                vstd::arithmetic::div_mod::lemma_div_denominator(v, 10, 10);
            }
        }
        assert(dec_value(f) == (v / 10) * 10 + v % 10);
    }
}

/// The four octets of a 32-bit value compose back to the value.
proof fn lemma_octet_compose(x: int)
    requires
        0 <= x <= 0xffff_ffff,
    ensures
        (x / 0x100_0000) * 0x100_0000 + ((x / 0x1_0000) % 0x100) * 0x1_0000 + ((x / 0x100)
            % 0x100) * 0x100 + x % 0x100 == x,
        0 <= x / 0x100_0000 <= 255,
{
    vstd::arithmetic::div_mod::lemma_fundamental_div_mod(x, 0x100);
    vstd::arithmetic::div_mod::lemma_fundamental_div_mod(x / 0x100, 0x100);
    vstd::arithmetic::div_mod::lemma_fundamental_div_mod(x / 0x1_0000, 0x100);
    vstd::arithmetic::div_mod::lemma_div_denominator(x, 0x100, 0x100);
    vstd::arithmetic::div_mod::lemma_div_denominator(x, 0x1_0000, 0x100);
    assert(x / 0x100 / 0x100 == x / 0x1_0000);
    assert(x / 0x1_0000 / 0x100 == x / 0x100_0000);
    vstd::arithmetic::div_mod::lemma_div_is_ordered(x, 0xffff_ffff, 0x100_0000);
    assert(0xffff_ffffint / 0x100_0000 == 255);
    assert(x / 0x100_0000 >= 0) by (nonlinear_arith)
        requires x >= 0;
}

/// The text of one octet followed by a non-digit tail parses back to
/// the octet: the digit prefix is exactly the octet's text.
proof fn lemma_peel_octet(o: int, tail: Seq<u8>)
    requires
        0 <= o <= 255,
        tail.len() > 0 ==> !is_dec_digit(tail[0]),
    ensures
        ({
            let a = spec_fmt_octet(o);
            let f = a + tail;
            &&& digits_len(f) == a.len()
            &&& f.take(a.len() as int) =~= a
            &&& f.skip(a.len() as int) =~= tail
            &&& valid_octet_text(a)
            &&& dec_value(a) == o
        }),
{
    lemma_fmt_octet_ok(o);
    let a = spec_fmt_octet(o);
    lemma_digits_concat(a, tail);
    assert((a + tail).take(a.len() as int) =~= a);
    assert((a + tail).skip(a.len() as int) =~= tail);
}

/// An IPv4 address survives the round trip through its dotted-decimal
/// text: formatting and parsing back give the same address.
#[verifier::rlimit(100)]
pub proof fn lemma_ipv4_round_trip(ip: u32)
    ensures
        spec_parse_ipv4(spec_fmt_ipv4(ip)) == Some(ip),
{
    let x = ip as int;
    let o1 = x / 0x100_0000;
    let o2 = (x / 0x1_0000) % 0x100;
    let o3 = (x / 0x100) % 0x100;
    let o4 = x % 0x100;
    lemma_octet_compose(x);
    let a = spec_fmt_octet(o1);
    let b = spec_fmt_octet(o2);
    let c = spec_fmt_octet(o3);
    let d = spec_fmt_octet(o4);
    let dot = seq![46u8];
    let f = spec_fmt_ipv4(ip);
    let tail1 = dot + b + dot + c + dot + d;
    let tail2 = dot + c + dot + d;
    let tail3 = dot + d;
    assert(f =~= a + tail1);
    lemma_peel_octet(o1, tail1);
    let r1 = f.skip(digits_len(f));
    assert(r1[0] == 46);
    assert(r1.drop_first() =~= b + tail2);
    lemma_peel_octet(o2, tail2);
    let t1 = r1.drop_first();
    let r2 = t1.skip(digits_len(t1));
    assert(r2[0] == 46);
    assert(r2.drop_first() =~= c + tail3);
    lemma_peel_octet(o3, tail3);
    let t2 = r2.drop_first();
    let r3 = t2.skip(digits_len(t2));
    assert(r3[0] == 46);
    assert(r3.drop_first() =~= d + Seq::<u8>::empty());
    assert(d + Seq::<u8>::empty() =~= d);
    lemma_peel_octet(o4, Seq::<u8>::empty());
    let t3 = r3.drop_first();
    assert(t3.skip(digits_len(t3)).len() == 0);
    assert(o1 * 0x100_0000 + o2 * 0x1_0000 + o3 * 0x100 + o4 == x);
    assert(spec_parse_ipv4(f) == Some((o1 * 0x100_0000 + o2 * 0x1_0000 + o3 * 0x100 + o4) as u32));
}

} // verus!
