//! The IPv6 text form, as `Ipv6Addr::from_str` accepts it: colon-separated
//! groups of one to four hex digits, at most one `::` run standing for one
//! or more zero groups, and optionally a dotted-decimal IPv4 literal in
//! place of the last two groups.  Splitting on `:` turns a `::` into an
//! empty piece, which is how the grammar below recognises it.

use vstd::prelude::*;
use crate::digits::is_digit;
use crate::ipv4::{is_ipv4_literal, parse_ipv4};
use crate::text::{split_char, split_str};

verus! {

pub open spec fn is_hex_digit(c: char) -> bool {
    is_digit(c) || c == 'a' || c == 'b' || c == 'c' || c == 'd' || c == 'e' || c == 'f'
        || c == 'A' || c == 'B' || c == 'C' || c == 'D' || c == 'E' || c == 'F'
}

/// One 16-bit group: one to four hex digits.
pub open spec fn is_hex_group(p: Seq<char>) -> bool {
    1 <= p.len() <= 4 && forall|i: int| 0 <= i < p.len() ==> is_hex_digit(#[trigger] p[i])
}

/// The pieces with indices in [from, to) are all hex groups.
pub open spec fn hex_range(ps: Seq<Seq<char>>, from: int, to: int) -> bool {
    forall|i: int| from <= i < to ==> is_hex_group(#[trigger] ps[i])
}

/// The pieces with indices in [from, to) are all nonempty.
pub open spec fn nonempty_range(ps: Seq<Seq<char>>, from: int, to: int) -> bool {
    forall|i: int| from <= i < to ==> (#[trigger] ps[i]).len() > 0
}

/// How many 16-bit groups the pieces in [from, to) stand for at the end of
/// an address: all hex groups, or hex groups with an IPv4 literal last
/// (worth two groups); `None` when they are neither.
pub open spec fn tail_groups(ps: Seq<Seq<char>>, from: int, to: int) -> Option<int> {
    if hex_range(ps, from, to) {
        Some(to - from)
    } else if from < to && hex_range(ps, from, to - 1) && is_ipv4_literal(ps[to - 1]) {
        Some(to - from + 1)
    } else {
        None
    }
}

/// A `::` sits between piece `i - 1` and piece `i + 1`: hex groups on its
/// left, a tail on its right, together at most seven groups, so that the
/// run stands for at least one zero group.
pub open spec fn interior_run_at(ps: Seq<Seq<char>>, i: int) -> bool {
    let n = ps.len() as int;
    &&& 1 <= i <= n - 2
    &&& ps[i].len() == 0
    &&& nonempty_range(ps, 0, i)
    &&& nonempty_range(ps, i + 1, n)
    &&& hex_range(ps, 0, i)
    &&& tail_groups(ps, i + 1, n) is Some
    &&& i + tail_groups(ps, i + 1, n)->Some_0 <= 7
}

/// The forms an IPv6 literal's colon-separated pieces can take: the full
/// eight groups; `::` alone; `::` leading, trailing, or interior.
pub open spec fn ipv6_pieces_ok(ps: Seq<Seq<char>>) -> bool {
    let n = ps.len() as int;
    ||| (nonempty_range(ps, 0, n) && tail_groups(ps, 0, n) == Some(8int))
    ||| (n == 3 && ps[0].len() == 0 && ps[1].len() == 0 && ps[2].len() == 0)
    ||| (n >= 3 && ps[0].len() == 0 && ps[1].len() == 0 && nonempty_range(ps, 2, n)
        && tail_groups(ps, 2, n) is Some && tail_groups(ps, 2, n)->Some_0 <= 7)
    ||| (n >= 3 && ps[n - 2].len() == 0 && ps[n - 1].len() == 0 && nonempty_range(ps, 0, n - 2)
        && hex_range(ps, 0, n - 2) && 1 <= n - 2 <= 7)
    ||| (exists|i: int| #[trigger] interior_run_at(ps, i))
}

/// Whether `s` is an IPv6 address literal.
pub open spec fn is_ipv6_literal(s: Seq<char>) -> bool {
    ipv6_pieces_ok(split_char(s, ':'))
}


proof fn lemma_interior_witness(ps: Seq<Seq<char>>, e: int)
    requires
        1 <= e < ps.len(),
        ps[e].len() == 0,
        nonempty_range(ps, 0, e),
        exists|i: int| #[trigger] interior_run_at(ps, i),
    ensures
        interior_run_at(ps, e),
{
    let i = choose|i: int| #[trigger] interior_run_at(ps, i);
    if i < e {
        assert(ps[i].len() > 0);
        assert(false);
    } else if i > e {
        assert(ps[e].len() > 0);
        assert(false);
    }
}

proof fn lemma_not_ipv6_with_all_nonempty(ps: Seq<Seq<char>>)
    requires
        nonempty_range(ps, 0, ps.len() as int),
        tail_groups(ps, 0, ps.len() as int) != Some(8int),
    ensures
        !ipv6_pieces_ok(ps),
{
    let n = ps.len() as int;
    if ipv6_pieces_ok(ps) {
        if exists|i: int| #[trigger] interior_run_at(ps, i) {
            let i = choose|i: int| #[trigger] interior_run_at(ps, i);
            assert(ps[i].len() > 0);
        }
        assert(false);
    }
}

proof fn lemma_not_ipv6_single_leading_empty(ps: Seq<Seq<char>>, n: int)
    requires
        n == ps.len(),
        n >= 1,
        ps[0].len() == 0,
        !(n >= 3 && ps[1].len() == 0),
    ensures
        !ipv6_pieces_ok(ps),
{
    if ipv6_pieces_ok(ps) {
        if exists|i: int| #[trigger] interior_run_at(ps, i) {
            let i = choose|i: int| #[trigger] interior_run_at(ps, i);
            assert(ps[0].len() > 0);
        }
        if n >= 3 && ps[n - 2].len() == 0 && ps[n - 1].len() == 0 && nonempty_range(ps, 0, n - 2)
            && 1 <= n - 2 {
            assert(ps[0].len() > 0);
        }
        assert(false);
    }
}

proof fn lemma_not_ipv6_leading_gap(ps: Seq<Seq<char>>)
    requires
        ps.len() >= 3,
        ps[0].len() == 0,
        ps[1].len() == 0,
        !(ps.len() == 3 && ps[2].len() == 0),
        exists|e2: int| 2 <= e2 < ps.len() && (#[trigger] ps[e2]).len() == 0,
    ensures
        !ipv6_pieces_ok(ps),
{
    let n = ps.len() as int;
    let e2 = choose|e2: int| 2 <= e2 < ps.len() && (#[trigger] ps[e2]).len() == 0;
    if ipv6_pieces_ok(ps) {
        if exists|i: int| #[trigger] interior_run_at(ps, i) {
            let i = choose|i: int| #[trigger] interior_run_at(ps, i);
            assert(ps[0].len() > 0);
        }
        if n == 3 && ps[2].len() == 0 {
            assert(false);
        }
        if nonempty_range(ps, 2, n) {
            assert(ps[e2].len() > 0);
        }
        if n >= 3 && ps[n - 2].len() == 0 && ps[n - 1].len() == 0 && nonempty_range(ps, 0, n - 2)
            && 1 <= n - 2 {
            assert(ps[0].len() > 0);
        }
        assert(false);
    }
}

proof fn lemma_not_ipv6_leading_bad(ps: Seq<Seq<char>>)
    requires
        ps.len() >= 3,
        ps[0].len() == 0,
        ps[1].len() == 0,
        nonempty_range(ps, 2, ps.len() as int),
        !(tail_groups(ps, 2, ps.len() as int) is Some && tail_groups(
            ps,
            2,
            ps.len() as int,
        )->Some_0 <= 7),
    ensures
        !ipv6_pieces_ok(ps),
{
    let n = ps.len() as int;
    if ipv6_pieces_ok(ps) {
        if exists|i: int| #[trigger] interior_run_at(ps, i) {
            let i = choose|i: int| #[trigger] interior_run_at(ps, i);
            assert(ps[0].len() > 0);
        }
        if n == 3 && ps[2].len() == 0 {
            assert(ps[2].len() > 0);
        }
        if n >= 3 && ps[n - 2].len() == 0 && ps[n - 1].len() == 0 && nonempty_range(ps, 0, n - 2)
            && 1 <= n - 2 {
            assert(ps[0].len() > 0);
        }
        assert(false);
    }
}

proof fn lemma_not_ipv6_single_trailing_empty(ps: Seq<Seq<char>>, e: int)
    requires
        1 <= e < ps.len(),
        e == ps.len() - 1,
        ps[e].len() == 0,
        nonempty_range(ps, 0, e),
    ensures
        !ipv6_pieces_ok(ps),
{
    let n = ps.len() as int;
    if ipv6_pieces_ok(ps) {
        if exists|i: int| #[trigger] interior_run_at(ps, i) {
            lemma_interior_witness(ps, e);
        }
        if n >= 3 && ps[n - 2].len() == 0 {
            assert(ps[n - 2].len() > 0);
        }
        assert(false);
    }
}

proof fn lemma_not_ipv6_double_gap(ps: Seq<Seq<char>>, e: int)
    requires
        1 <= e < ps.len() - 1,
        ps[e].len() == 0,
        ps[e + 1].len() == 0,
        nonempty_range(ps, 0, e),
        e + 2 != ps.len(),
    ensures
        !ipv6_pieces_ok(ps),
{
    let n = ps.len() as int;
    if ipv6_pieces_ok(ps) {
        if exists|i: int| #[trigger] interior_run_at(ps, i) {
            let i = choose|i: int| #[trigger] interior_run_at(ps, i);
            if i < e {
                assert(ps[i].len() > 0);
            } else if i == e {
                assert(ps[e + 1].len() > 0);
            } else {
                assert(ps[e].len() > 0);
            }
        }
        if n >= 3 && ps[n - 2].len() == 0 && ps[n - 1].len() == 0 && nonempty_range(ps, 0, n - 2)
            && 1 <= n - 2 {
            assert(e < n - 2);
            assert(ps[e].len() > 0);
        }
        assert(false);
    }
}

proof fn lemma_not_ipv6_trailing_bad(ps: Seq<Seq<char>>, e: int)
    requires
        1 <= e,
        e + 2 == ps.len(),
        ps[e].len() == 0,
        ps[e + 1].len() == 0,
        nonempty_range(ps, 0, e),
        !(hex_range(ps, 0, e) && 1 <= e <= 7),
    ensures
        !ipv6_pieces_ok(ps),
{
    let n = ps.len() as int;
    if ipv6_pieces_ok(ps) {
        if exists|i: int| #[trigger] interior_run_at(ps, i) {
            let i = choose|i: int| #[trigger] interior_run_at(ps, i);
            if i < e {
                assert(ps[i].len() > 0);
            } else if i == e {
                assert(ps[e + 1].len() > 0);
            } else {
                assert(ps[e].len() > 0);
            }
        }
        assert(false);
    }
}

proof fn lemma_not_ipv6_two_gaps(ps: Seq<Seq<char>>, e: int)
    requires
        1 <= e < ps.len() - 1,
        ps[e].len() == 0,
        ps[e + 1].len() > 0,
        nonempty_range(ps, 0, e),
        exists|e2: int| e + 1 <= e2 < ps.len() && (#[trigger] ps[e2]).len() == 0,
    ensures
        !ipv6_pieces_ok(ps),
{
    let n = ps.len() as int;
    let e2 = choose|e2: int| e + 1 <= e2 < ps.len() && (#[trigger] ps[e2]).len() == 0;
    assert(e2 >= e + 2);
    if ipv6_pieces_ok(ps) {
        if exists|i: int| #[trigger] interior_run_at(ps, i) {
            let i = choose|i: int| #[trigger] interior_run_at(ps, i);
            if i < e {
                assert(ps[i].len() > 0);
            } else if i == e {
                assert(ps[e2].len() > 0);
            } else {
                assert(ps[e].len() > 0);
            }
        }
        if n >= 3 && ps[n - 2].len() == 0 && ps[n - 1].len() == 0 && nonempty_range(ps, 0, n - 2)
            && 1 <= n - 2 {
            if e < n - 2 {
                assert(ps[e].len() > 0);
            } else {
                assert(e2 < n);
                assert(e2 >= e + 2 >= n);
            }
        }
        assert(false);
    }
}

proof fn lemma_not_ipv6_interior_bad(ps: Seq<Seq<char>>, e: int)
    requires
        1 <= e < ps.len() - 1,
        ps[e].len() == 0,
        nonempty_range(ps, 0, e),
        nonempty_range(ps, e + 1, ps.len() as int),
        !(hex_range(ps, 0, e) && tail_groups(ps, e + 1, ps.len() as int) is Some && e
            + tail_groups(ps, e + 1, ps.len() as int)->Some_0 <= 7),
    ensures
        !ipv6_pieces_ok(ps),
{
    let n = ps.len() as int;
    if ipv6_pieces_ok(ps) {
        if exists|i: int| #[trigger] interior_run_at(ps, i) {
            lemma_interior_witness(ps, e);
            assert(false);
        }
        if n >= 3 && ps[n - 2].len() == 0 && ps[n - 1].len() == 0 {
            if n - 2 == e {
                assert(ps[n - 1].len() > 0);
            } else if n - 2 < e {
                assert(ps[n - 2].len() > 0);
            } else {
                assert(ps[n - 2].len() > 0);
            }
        }
        assert(false);
    }
}

/// Whether `s` is an IP address literal of either family.
pub open spec fn is_ip_literal(s: Seq<char>) -> bool {
    is_ipv4_literal(s) || is_ipv6_literal(s)
}

fn is_hex_group_str(p: &str) -> (r: bool)
    ensures
        r == is_hex_group(p@),
{
    let n = p.unicode_len();
    if n < 1 || n > 4 {
        return false;
    }
    let mut i: usize = 0;
    while i < n
        invariant
            n == p@.len(),
            i <= n,
            forall|j: int| 0 <= j < i ==> is_hex_digit(#[trigger] p@[j]),
        decreases n - i,
    {
        let c = p.get_char(i);
        let ok = match c {
            '0' | '1' | '2' | '3' | '4' | '5' | '6' | '7' | '8' | '9' | 'a' | 'b' | 'c' | 'd'
                | 'e' | 'f' | 'A' | 'B' | 'C' | 'D' | 'E' | 'F' => true,
            _ => false,
        };
        if !ok {
            proof {
                assert(!is_hex_digit(p@[i as int]));
            }
            return false;
        }
        i = i + 1;
    }
    true
}

/// Whether pieces [from, to) of `ps` are all hex groups.
fn hex_range_vec(ps: &Vec<String>, from: usize, to: usize) -> (r: bool)
    requires
        from <= to <= ps@.len(),
    ensures
        r == hex_range(ps@.map_values(|p: String| p@), from as int, to as int),
{
    let ghost psv = ps@.map_values(|p: String| p@);
    let mut i: usize = from;
    while i < to
        invariant
            psv == ps@.map_values(|p: String| p@),
            from <= i <= to <= ps@.len(),
            forall|j: int| from <= j < i ==> is_hex_group(#[trigger] psv[j]),
        decreases to - i,
    {
        if !is_hex_group_str(ps[i].as_str()) {
            proof {
                assert(!is_hex_group(psv[i as int]));
            }
            return false;
        }
        i = i + 1;
    }
    true
}

/// The index of the first empty piece, if any.
fn first_empty(ps: &Vec<String>) -> (r: Option<usize>)
    ensures
        ({
            let psv = ps@.map_values(|p: String| p@);
            match r {
                Some(e) => e < psv.len() && psv[e as int].len() == 0 && nonempty_range(
                    psv,
                    0,
                    e as int,
                ),
                None => nonempty_range(psv, 0, psv.len() as int),
            }
        }),
{
    let ghost psv = ps@.map_values(|p: String| p@);
    let mut i: usize = 0;
    while i < ps.len()
        invariant
            psv == ps@.map_values(|p: String| p@),
            i <= ps@.len(),
            nonempty_range(psv, 0, i as int),
        decreases ps@.len() - i,
    {
        if ps[i].as_str().unicode_len() == 0 {
            return Some(i);
        }
        proof {
            assert forall|j: int| 0 <= j < i + 1 implies (#[trigger] psv[j]).len() > 0 by {
                if j == i {
                    assert(psv[j] == ps@[j]@);
                }
            }
        }
        i = i + 1;
    }
    None
}

/// The groups that pieces [from, to) stand for at the end of an address,
/// accepted only up to `cap` groups (every caller needs at most eight).
fn tail_groups_within(ps: &Vec<String>, from: usize, to: usize, cap: usize) -> (r: Option<usize>)
    requires
        from <= to <= ps@.len(),
        cap <= 8,
    ensures
        ({
            let psv = ps@.map_values(|p: String| p@);
            match r {
                Some(g) => tail_groups(psv, from as int, to as int) == Some(g as int) && g <= cap,
                None => !(tail_groups(psv, from as int, to as int) is Some && tail_groups(
                    psv,
                    from as int,
                    to as int,
                )->Some_0 <= cap as int),
            }
        }),
{
    let ghost psv = ps@.map_values(|p: String| p@);
    if hex_range_vec(ps, from, to) {
        let d = to - from;
        if d <= cap {
            return Some(d);
        } else {
            return None;
        }
    }
    if from < to && hex_range_vec(ps, from, to - 1) && parse_ipv4(ps[to - 1].as_str()).is_some() {
        proof {
            assert(psv[to - 1] == ps@[to - 1]@);
        }
        let d = to - from;
        if cap >= 1 && d <= cap - 1 {
            return Some(d + 1);
        } else {
            return None;
        }
    }
    None
}

/// Whether `s` is an IPv6 address literal.
pub fn is_valid_ipv6(s: &str) -> (r: bool)
    ensures
        r == is_ipv6_literal(s@),
{
    let ps = split_str(s, ':');
    let ghost psv = split_char(s@, ':');
    proof {
        assert(ps@.map_values(|p: String| p@) =~= psv);
    }
    let n = ps.len();
    match first_empty(&ps) {
        None => {
            // No `::`: exactly eight groups, an IPv4 tail counting as two.
            match tail_groups_within(&ps, 0, n, 8) {
                Some(g) => {
                    proof {
                        if g != 8 {
                            lemma_not_ipv6_with_all_nonempty(psv);
                        }
                    }
                    g == 8
                },
                None => {
                    proof {
                        lemma_not_ipv6_with_all_nonempty(psv);
                    }
                    false
                },
            }
        },
        Some(e) => {
            if e == 0 {
                if n >= 3 && ps[1].as_str().unicode_len() == 0 {
                    if n == 3 && ps[2].as_str().unicode_len() == 0 {
                        proof {
                            assert(psv[2] == ps@[2]@);
                        }
                        true
                    } else {
                        match first_empty_from(&ps, 2) {
                            Some(_) => {
                                proof {
                                    lemma_not_ipv6_leading_gap(psv);
                                }
                                false
                            },
                            None => {
                                match tail_groups_within(&ps, 2, n, 7) {
                                    Some(_) => true,
                                    None => {
                                        proof {
                                            lemma_not_ipv6_leading_bad(psv);
                                        }
                                        false
                                    },
                                }
                            },
                        }
                    }
                } else {
                    proof {
                        lemma_not_ipv6_single_leading_empty(psv, n as int);
                    }
                    false
                }
            } else if e == n - 1 {
                proof {
                    lemma_not_ipv6_single_trailing_empty(psv, e as int);
                }
                false
            } else if ps[e + 1].as_str().unicode_len() == 0 {
                // Two adjacent empty pieces: only a trailing `::` is left.
                proof {
                    assert(psv[e + 1] == ps@[e + 1]@);
                }
                if e + 2 == n {
                    let ok = hex_range_vec(&ps, 0, e) && 1 <= e && e <= 7;
                    proof {
                        if !ok {
                            lemma_not_ipv6_trailing_bad(psv, e as int);
                        }
                    }
                    ok
                } else {
                    proof {
                        lemma_not_ipv6_double_gap(psv, e as int);
                    }
                    false
                }
            } else {
                // A single interior empty piece at `e`.
                match first_empty_from(&ps, e + 1) {
                    Some(_) => {
                        proof {
                            lemma_not_ipv6_two_gaps(psv, e as int);
                        }
                        false
                    },
                    None => {
                        if e > 7 {
                            proof {
                                lemma_not_ipv6_interior_bad(psv, e as int);
                            }
                            false
                        } else {
                            let hex_left = hex_range_vec(&ps, 0, e);
                            let tail = tail_groups_within(&ps, e + 1, n, 7 - e);
                            let ok = match tail {
                                Some(_) => hex_left,
                                None => false,
                            };
                            proof {
                                if ok {
                                    assert(interior_run_at(psv, e as int));
                                    assert(ipv6_pieces_ok(psv));
                                } else {
                                    lemma_not_ipv6_interior_bad(psv, e as int);
                                }
                            }
                            ok
                        }
                    },
                }
            }
        },
    }
}

/// The index of the first empty piece at or after `from`, if any.
fn first_empty_from(ps: &Vec<String>, from: usize) -> (r: Option<usize>)
    requires
        from <= ps@.len(),
    ensures
        ({
            let psv = ps@.map_values(|p: String| p@);
            match r {
                Some(e) => from <= e < psv.len() && psv[e as int].len() == 0,
                None => nonempty_range(psv, from as int, psv.len() as int),
            }
        }),
{
    let ghost psv = ps@.map_values(|p: String| p@);
    let mut i: usize = from;
    while i < ps.len()
        invariant
            psv == ps@.map_values(|p: String| p@),
            from <= i <= ps@.len(),
            nonempty_range(psv, from as int, i as int),
        decreases ps@.len() - i,
    {
        if ps[i].as_str().unicode_len() == 0 {
            return Some(i);
        }
        proof {
            assert forall|j: int| from <= j < i + 1 implies (#[trigger] psv[j]).len() > 0 by {
                if j == i {
                    assert(psv[j] == ps@[j]@);
                }
            }
        }
        i = i + 1;
    }
    None
}

} // verus!
