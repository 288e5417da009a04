//! The IPv4 dotted-decimal text form, as `Ipv4Addr::from_str` accepts it:
//! exactly four canonical decimal octets (no sign, no leading zero, at most
//! 255) joined by dots.  `ipv4_string` is the canonical text of an address;
//! parsing accepts a string exactly when it is `ipv4_string` of some address.

use vstd::prelude::*;
use crate::digits::{
    all_digits, dec_str, digit_of, digit_val, is_digit, lemma_canonical_digits,
    lemma_dec_str_digits, lemma_uval_dec_str, uval,
};
use crate::text::{
    lemma_split_char_concat, lemma_split_char_join, lemma_split_char_whole, split_char, split_str,
};

verus! {

/// One octet of an address in canonical decimal text.
pub open spec fn is_octet(p: Seq<char>) -> bool {
    &&& 1 <= p.len() <= 3
    &&& all_digits(p)
    &&& (p.len() > 1 ==> p[0] != '0')
    &&& uval(p) <= 255
}

pub open spec fn combine_octets(a: nat, b: nat, c: nat, d: nat) -> u32 {
    (a * 0x1000000 + b * 0x10000 + c * 0x100 + d) as u32
}

pub open spec fn octet_of(n: u32, k: int) -> nat {
    if k == 0 {
        ((n >> 24) & 0xff) as nat
    } else if k == 1 {
        ((n >> 16) & 0xff) as nat
    } else if k == 2 {
        ((n >> 8) & 0xff) as nat
    } else {
        (n & 0xff) as nat
    }
}

/// The canonical dotted-decimal text of `n`.
pub open spec fn ipv4_string(n: u32) -> Seq<char> {
    dec_str(octet_of(n, 0)) + seq!['.'] + dec_str(octet_of(n, 1)) + seq!['.'] + dec_str(
        octet_of(n, 2),
    ) + seq!['.'] + dec_str(octet_of(n, 3))
}

/// What parsing `s` as an IPv4 literal yields: the four dot-separated pieces
/// must each be a canonical octet.
pub open spec fn parse_ipv4_spec(s: Seq<char>) -> Option<u32> {
    let ps = split_char(s, '.');
    if ps.len() == 4 && is_octet(ps[0]) && is_octet(ps[1]) && is_octet(ps[2]) && is_octet(ps[3]) {
        Some(combine_octets(uval(ps[0]), uval(ps[1]), uval(ps[2]), uval(ps[3])))
    } else {
        None
    }
}

pub open spec fn is_ipv4_literal(s: Seq<char>) -> bool {
    parse_ipv4_spec(s) is Some
}

proof fn lemma_combine_of_octets(n: u32)
    ensures
        combine_octets(octet_of(n, 0), octet_of(n, 1), octet_of(n, 2), octet_of(n, 3)) == n,
        octet_of(n, 0) <= 255,
        octet_of(n, 1) <= 255,
        octet_of(n, 2) <= 255,
        octet_of(n, 3) <= 255,
{
    assert(((n >> 24) & 0xff) * 0x1000000 + ((n >> 16) & 0xff) * 0x10000 + ((n >> 8) & 0xff)
        * 0x100 + (n & 0xff) == n) by (bit_vector);
    assert(((n >> 24) & 0xff) <= 255 && ((n >> 16) & 0xff) <= 255 && ((n >> 8) & 0xff) <= 255 && (
    n & 0xff) <= 255) by (bit_vector);
}

proof fn lemma_octets_of_combine(a: u32, b: u32, c: u32, d: u32)
    requires
        a <= 255,
        b <= 255,
        c <= 255,
        d <= 255,
    ensures
        a * 0x1000000 + b * 0x10000 + c * 0x100 + d <= u32::MAX,
        octet_of((a * 0x1000000 + b * 0x10000 + c * 0x100 + d) as u32, 0) == a,
        octet_of((a * 0x1000000 + b * 0x10000 + c * 0x100 + d) as u32, 1) == b,
        octet_of((a * 0x1000000 + b * 0x10000 + c * 0x100 + d) as u32, 2) == c,
        octet_of((a * 0x1000000 + b * 0x10000 + c * 0x100 + d) as u32, 3) == d,
{
    assert(a * 0x1000000 + b * 0x10000 + c * 0x100 + d <= 0xffffffff) by (bit_vector)
        requires
            a <= 255 && b <= 255 && c <= 255 && d <= 255,
    ;
    let m = (a * 0x1000000 + b * 0x10000 + c * 0x100 + d) as u32;
    assert(((m >> 24) & 0xff) == a && ((m >> 16) & 0xff) == b && ((m >> 8) & 0xff) == c && (m
        & 0xff) == d) by (bit_vector)
        requires
            a <= 255 && b <= 255 && c <= 255 && d <= 255 && m == (a * 0x1000000 + b * 0x10000 + c
                * 0x100 + d) as u32,
    ;
}

proof fn lemma_dec_str_octet(v: nat)
    requires
        v <= 255,
    ensures
        is_octet(dec_str(v)),
        uval(dec_str(v)) == v,
        !dec_str(v).contains('.'),
{
    lemma_dec_str_digits(v);
    lemma_uval_dec_str(v);
    assert(dec_str(v).len() <= 3) by {
        if v >= 10 {
            lemma_dec_str_digits(v / 10);
            if v >= 100 {
                lemma_dec_str_digits(v / 10 / 10);
                assert(v / 10 / 10 < 10);
            } else {
                assert(v / 10 < 10);
            }
        }
    }
    assert(forall|i: int| 0 <= i < dec_str(v).len() ==> dec_str(v)[i] != '.') by {
        assert(forall|i: int|
            0 <= i < dec_str(v).len() ==> is_digit(#[trigger] dec_str(v)[i]));
    }
    if dec_str(v).contains('.') {
        let i = choose|i: int| 0 <= i < dec_str(v).len() && dec_str(v)[i] == '.';
        assert(false);
    }
}

/// A parsed string is the canonical text of the parsed address.
pub proof fn lemma_parse_ipv4_sound(s: Seq<char>, n: u32)
    requires
        parse_ipv4_spec(s) == Some(n),
    ensures
        s == ipv4_string(n),
{
    let ps = split_char(s, '.');
    lemma_split_char_join(s, '.');
    lemma_canonical_digits(ps[0]);
    lemma_canonical_digits(ps[1]);
    lemma_canonical_digits(ps[2]);
    lemma_canonical_digits(ps[3]);
    let a = uval(ps[0]);
    let b = uval(ps[1]);
    let c = uval(ps[2]);
    let d = uval(ps[3]);
    lemma_octets_of_combine(a as u32, b as u32, c as u32, d as u32);
    assert(n == combine_octets(a, b, c, d));
    assert(octet_of(n, 0) == a && octet_of(n, 1) == b && octet_of(n, 2) == c && octet_of(n, 3)
        == d);
    // Unfold the join of the four pieces.
    let j = crate::text::join_char(ps, '.');
    assert(ps.drop_last().drop_last().drop_last() =~= seq![ps[0]]);
    assert(ps.drop_last().drop_last() =~= seq![ps[0], ps[1]]);
    assert(ps.drop_last() =~= seq![ps[0], ps[1], ps[2]]);
    assert(crate::text::join_char(seq![ps[0]], '.') == ps[0]);
    assert(crate::text::join_char(seq![ps[0], ps[1]], '.') == ps[0].push('.') + ps[1]) by {
        assert(seq![ps[0], ps[1]].drop_last() =~= seq![ps[0]]);
    }
    assert(crate::text::join_char(seq![ps[0], ps[1], ps[2]], '.') == (ps[0].push('.')
        + ps[1]).push('.') + ps[2]) by {
        assert(seq![ps[0], ps[1], ps[2]].drop_last() =~= seq![ps[0], ps[1]]);
    }
    assert(j == ((ps[0].push('.') + ps[1]).push('.') + ps[2]).push('.') + ps[3]);
    assert(s =~= dec_str(a) + seq!['.'] + dec_str(b) + seq!['.'] + dec_str(c) + seq!['.']
        + dec_str(d));
}

/// The canonical text of an address parses back to that address.
#[verifier::rlimit(60)]
pub proof fn lemma_parse_ipv4_complete(n: u32)
    ensures
        parse_ipv4_spec(ipv4_string(n)) == Some(n),
{
    lemma_combine_of_octets(n);
    let a = octet_of(n, 0);
    let b = octet_of(n, 1);
    let c = octet_of(n, 2);
    let d = octet_of(n, 3);
    lemma_dec_str_octet(a);
    lemma_dec_str_octet(b);
    lemma_dec_str_octet(c);
    lemma_dec_str_octet(d);
    let s = ipv4_string(n);
    let tail_d = dec_str(d);
    let tail_cd = dec_str(c) + seq!['.'] + tail_d;
    let tail_bcd = dec_str(b) + seq!['.'] + tail_cd;
    assert(s =~= dec_str(a) + seq!['.'] + tail_bcd);
    lemma_split_char_whole(dec_str(a), '.');
    lemma_split_char_whole(dec_str(b), '.');
    lemma_split_char_whole(dec_str(c), '.');
    lemma_split_char_whole(dec_str(d), '.');
    lemma_split_char_concat(dec_str(c), tail_d, '.');
    lemma_split_char_concat(dec_str(b), tail_cd, '.');
    lemma_split_char_concat(dec_str(a), tail_bcd, '.');
    let ps = split_char(s, '.');
    assert(ps =~= seq![dec_str(a), dec_str(b), dec_str(c), dec_str(d)]);
    assert(combine_octets(a, b, c, d) == n);
}

/// Two distinct addresses have distinct canonical texts.
pub proof fn lemma_ipv4_string_injective(n1: u32, n2: u32)
    requires
        ipv4_string(n1) == ipv4_string(n2),
    ensures
        n1 == n2,
{
    lemma_parse_ipv4_complete(n1);
    lemma_parse_ipv4_complete(n2);
}

/// Parses one dot-separated piece as a canonical octet.
fn parse_octet(p: &str) -> (r: Option<u8>)
    ensures
        match r {
            Some(v) => is_octet(p@) && v as nat == uval(p@),
            None => !is_octet(p@),
        },
{
    let n = p.unicode_len();
    if n < 1 || n > 3 {
        return None;
    }
    let d0 = match digit_of(p.get_char(0)) {
        Some(d) => d,
        None => {
            proof {
                assert(!is_digit(p@[0]));
            }
            return None;
        },
    };
    if n > 1 && p.get_char(0) == '0' {
        return None;
    }
    let v: u16 = if n == 1 {
        proof {
            assert forall|j: int| 0 <= j < p@.len() implies is_digit(#[trigger] p@[j]) by {
                assert(j == 0);
            }
            assert(p@.drop_last() =~= Seq::<char>::empty());
            assert(uval(p@.drop_last()) == 0);
            assert(p@.last() == p@[0]);
        }
        d0 as u16
    } else {
        let d1 = match digit_of(p.get_char(1)) {
            Some(d) => d,
            None => {
                proof {
                    assert(!is_digit(p@[1]));
                }
                return None;
            },
        };
        if n == 2 {
            proof {
                assert forall|j: int| 0 <= j < p@.len() implies is_digit(#[trigger] p@[j]) by {
                    assert(j == 0 || j == 1);
                }
                let q = p@.drop_last();
                assert(q.drop_last() =~= Seq::<char>::empty());
                assert(uval(q.drop_last()) == 0);
                assert(q.last() == p@[0]);
                assert(uval(q) == digit_val(p@[0]));
                assert(p@.last() == p@[1]);
                assert(uval(p@) == digit_val(p@[0]) * 10 + digit_val(p@[1]));
            }
            d0 as u16 * 10 + d1 as u16
        } else {
            let d2 = match digit_of(p.get_char(2)) {
                Some(d) => d,
                None => {
                    proof {
                        assert(!is_digit(p@[2]));
                    }
                    return None;
                },
            };
            proof {
                assert forall|j: int| 0 <= j < p@.len() implies is_digit(#[trigger] p@[j]) by {
                    assert(j == 0 || j == 1 || j == 2);
                }
                let q = p@.drop_last();
                let q2 = q.drop_last();
                assert(q2.drop_last() =~= Seq::<char>::empty());
                assert(uval(q2.drop_last()) == 0);
                assert(q2.last() == p@[0]);
                assert(uval(q2) == digit_val(p@[0]));
                assert(q.last() == p@[1]);
                assert(uval(q) == digit_val(p@[0]) * 10 + digit_val(p@[1]));
                assert(p@.last() == p@[2]);
                assert(uval(p@) == (digit_val(p@[0]) * 10 + digit_val(p@[1])) * 10 + digit_val(
                    p@[2],
                ));
            }
            d0 as u16 * 100 + d1 as u16 * 10 + d2 as u16
        }
    };
    proof {
        assert(v as nat == uval(p@));
    }
    if v > 255 {
        return None;
    }
    Some(v as u8)
}

/// Parses a full dotted-decimal IPv4 literal.
pub fn parse_ipv4(s: &str) -> (r: Option<u32>)
    ensures
        r == parse_ipv4_spec(s@),
{
    let ps = split_str(s, '.');
    if ps.len() != 4 {
        return None;
    }
    let a = match parse_octet(ps[0].as_str()) {
        Some(v) => v,
        None => {
            return None;
        },
    };
    let b = match parse_octet(ps[1].as_str()) {
        Some(v) => v,
        None => {
            return None;
        },
    };
    let c = match parse_octet(ps[2].as_str()) {
        Some(v) => v,
        None => {
            return None;
        },
    };
    let d = match parse_octet(ps[3].as_str()) {
        Some(v) => v,
        None => {
            return None;
        },
    };
    let n: u32 = (a as u32) * 0x1000000 + (b as u32) * 0x10000 + (c as u32) * 0x100 + (d as u32);
    proof {
        lemma_octets_of_combine(a as u32, b as u32, c as u32, d as u32);
    }
    Some(n)
}

/// Appends one decimal digit to `out`.
fn append_digit(out: &mut String, d: u8)
    requires
        d < 10,
    ensures
        final(out)@ == old(out)@ + seq![crate::digits::digit_char(d as nat)],
{
    proof {
        reveal_strlit("0");
        reveal_strlit("1");
        reveal_strlit("2");
        reveal_strlit("3");
        reveal_strlit("4");
        reveal_strlit("5");
        reveal_strlit("6");
        reveal_strlit("7");
        reveal_strlit("8");
        reveal_strlit("9");
    }
    match d {
        0 => out.append("0"),
        1 => out.append("1"),
        2 => out.append("2"),
        3 => out.append("3"),
        4 => out.append("4"),
        5 => out.append("5"),
        6 => out.append("6"),
        7 => out.append("7"),
        8 => out.append("8"),
        _ => out.append("9"),
    }
    proof {
        assert(final(out)@ =~= old(out)@ + seq![crate::digits::digit_char(d as nat)]);
    }
}

/// Appends the canonical decimal form of `v` to `out`.
fn append_octet(out: &mut String, v: u8)
    ensures
        final(out)@ == old(out)@ + dec_str(v as nat),
{
    if v < 10 {
        append_digit(out, v);
    } else if v < 100 {
        append_digit(out, v / 10);
        append_digit(out, v % 10);
        proof {
            assert(dec_str(v as nat) == dec_str(v as nat / 10).push(
                crate::digits::digit_char(v as nat % 10),
            ));
            assert(final(out)@ =~= old(out)@ + dec_str(v as nat));
        }
    } else {
        append_digit(out, v / 100);
        append_digit(out, (v / 10) % 10);
        append_digit(out, v % 10);
        proof {
            let q = v as nat / 10;
            vstd::arithmetic::div_mod::lemma_div_denominator(v as int, 10, 10);
            assert(q / 10 == v as nat / 100);
            assert(dec_str(v as nat) == dec_str(q).push(crate::digits::digit_char(v as nat % 10)));
            assert(dec_str(q) == dec_str(v as nat / 100).push(crate::digits::digit_char(q % 10)));
            assert(final(out)@ =~= old(out)@ + dec_str(v as nat));
        }
    }
}

/// The canonical dotted-decimal text of `n`.
pub fn ipv4_to_string(n: u32) -> (r: String)
    ensures
        r@ == ipv4_string(n),
{
    let mut out = String::new();
    let a = (n >> 24) as u8;
    let b = ((n >> 16) & 0xff) as u8;
    let c = ((n >> 8) & 0xff) as u8;
    let d = (n & 0xff) as u8;
    proof {
        assert((n >> 24) <= 255 && ((n >> 16) & 0xff) <= 255 && ((n >> 8) & 0xff) <= 255 && (n
            & 0xff) <= 255) by (bit_vector);
        assert((n >> 24) == ((n >> 24) & 0xff)) by (bit_vector);
        reveal_strlit(".");
    }
    append_octet(&mut out, a);
    out.append(".");
    append_octet(&mut out, b);
    out.append(".");
    append_octet(&mut out, c);
    out.append(".");
    append_octet(&mut out, d);
    proof {
        assert(out@ =~= ipv4_string(n));
    }
    out
}

/// Whether `s` is a valid IP address literal, of either family.
pub fn is_valid_ip(ip_str: &str) -> (r: bool)
    ensures
        r == crate::ipv6::is_ip_literal(ip_str@),
{
    if parse_ipv4(ip_str).is_some() {
        true
    } else {
        crate::ipv6::is_valid_ipv6(ip_str)
    }
}

} // verus!
