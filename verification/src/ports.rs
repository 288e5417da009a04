//! The port-specification grammar: empty means a default range, a single
//! integer means one port, a comma-separated list means those ports, and
//! `start-end` means an inclusive range.  Every integer must lie in
//! [1, 65535] and a range must not be reversed.  A parsed set of ports is
//! always an ascending, deduplicated sequence.

use vstd::prelude::*;
use crate::digits::{is_uint_literal, parse_uint_bounded, uint_literal_val};
use crate::text::{split_char, split_str, str_contains_char};

verus! {

pub const MIN_PORT: u16 = 1;

pub const MAX_PORT: u16 = 65535;

/// One past the highest port of the default range used when no ports are given.
pub const DEFAULT_MAX: u16 = 1024;

#[derive(Clone, Copy, PartialEq, Eq, Structural, Debug)]
pub enum PortError {
    /// A port parsed but lies outside [1, 65535].
    InvalidPortValue,
    /// A piece of the specification does not parse as a port number.
    InvalidPortFormat,
    /// A range's starting port exceeds its ending port.
    InvalidPortRange,
}

impl PortError {
    pub open spec fn message_spec(self) -> Seq<char> {
        match self {
            PortError::InvalidPortValue => "ERROR: Invalid port value."@,
            PortError::InvalidPortFormat => "ERROR: Invalid port format"@,
            PortError::InvalidPortRange => "ERROR: starting port number must be less than ending port number."@,
        }
    }

    /// The diagnostic text for this error.
    pub fn message(&self) -> (r: String)
        ensures
            r@ == self.message_spec(),
    {
        match self {
            PortError::InvalidPortValue => String::from_str("ERROR: Invalid port value."),
            PortError::InvalidPortFormat => String::from_str("ERROR: Invalid port format"),
            PortError::InvalidPortRange => String::from_str(
                "ERROR: starting port number must be less than ending port number.",
            ),
        }
    }
}

/// Whether `p` is the text of a port number: an unsigned decimal literal
/// that fits in a `u16`.
pub open spec fn is_port_literal(p: Seq<char>) -> bool {
    is_uint_literal(p) && uint_literal_val(p) <= 65535
}

pub open spec fn port_of(p: Seq<char>) -> u16 {
    uint_literal_val(p) as u16
}

/// The inclusive range of ports from `lo` to `hi`.
pub open spec fn range_seq(lo: u16, hi: u16) -> Seq<u16> {
    Seq::new((hi - lo + 1) as nat, |i: int| (lo + i) as u16)
}

/// The default ports scanned when none are specified: 1 through 1023.
pub open spec fn default_ports() -> Seq<u16> {
    range_seq(1, 1023)
}

/// Strictly ascending, hence deduplicated: the invariant of every parsed
/// set of ports.
pub open spec fn sorted_unique(s: Seq<u16>) -> bool {
    forall|i: int, j: int| 0 <= i < j < s.len() ==> s[i] < s[j]
}

/// `p` placed into an ascending sequence, keeping it ascending; a port
/// already present is not added again.
pub open spec fn insert_port(s: Seq<u16>, p: u16) -> Seq<u16>
    decreases s.len(),
{
    if s.len() == 0 {
        seq![p]
    } else if s.last() < p {
        s.push(p)
    } else if s.last() == p {
        s
    } else {
        insert_port(s.drop_last(), p).push(s.last())
    }
}

/// A comma-separated list, parsed piece by piece into an ascending
/// deduplicated set; the first offending piece decides the error.
pub open spec fn parse_port_list_rec(ps: Seq<Seq<char>>, acc: Seq<u16>) -> Result<
    Seq<u16>,
    PortError,
>
    decreases ps.len(),
{
    if ps.len() == 0 {
        Ok(acc)
    } else if !is_port_literal(ps[0]) {
        Err(PortError::InvalidPortFormat)
    } else if port_of(ps[0]) < 1 {
        Err(PortError::InvalidPortValue)
    } else {
        parse_port_list_rec(ps.drop_first(), insert_port(acc, port_of(ps[0])))
    }
}

pub open spec fn parse_port_list_spec(ps: Seq<Seq<char>>) -> Result<Seq<u16>, PortError> {
    parse_port_list_rec(ps, Seq::<u16>::empty())
}

/// A `start-end` range: exactly two dash-separated pieces, each a port, in
/// order.
pub open spec fn parse_range_spec(ps: Seq<Seq<char>>) -> Result<Seq<u16>, PortError> {
    if ps.len() != 2 {
        Err(PortError::InvalidPortFormat)
    } else if !is_port_literal(ps[0]) || !is_port_literal(ps[1]) {
        Err(PortError::InvalidPortFormat)
    } else if port_of(ps[0]) < 1 || port_of(ps[1]) < 1 {
        Err(PortError::InvalidPortValue)
    } else if port_of(ps[0]) > port_of(ps[1]) {
        Err(PortError::InvalidPortRange)
    } else {
        Ok(range_seq(port_of(ps[0]), port_of(ps[1])))
    }
}

/// The whole port-specification grammar.  An empty specification means the
/// default range; a single port, a comma list and a dash range follow, in
/// that order of preference.
pub open spec fn parse_ports_spec(s: Seq<char>) -> Result<Seq<u16>, PortError> {
    if s.len() == 0 {
        Ok(default_ports())
    } else if is_port_literal(s) {
        if port_of(s) < 1 {
            Err(PortError::InvalidPortValue)
        } else {
            Ok(seq![port_of(s)])
        }
    } else if s.contains(',') {
        parse_port_list_spec(split_char(s, ','))
    } else if s.contains('-') {
        parse_range_spec(split_char(s, '-'))
    } else {
        Err(PortError::InvalidPortFormat)
    }
}

/// Whether a port number is acceptable.
pub fn check_port_value(port: u16) -> (r: bool)
    ensures
        r == (MIN_PORT <= port <= MAX_PORT),
{
    MIN_PORT <= port && port <= MAX_PORT
}

/// The ports from `lo` through `hi`, inclusive.
fn port_range_vec(lo: u16, hi: u16) -> (r: Vec<u16>)
    requires
        lo <= hi,
    ensures
        r@ == range_seq(lo, hi),
{
    let mut r: Vec<u16> = Vec::new();
    let mut p: u32 = lo as u32;
    while p <= hi as u32
        invariant
            lo <= hi,
            lo as u32 <= p <= hi as u32 + 1,
            r@.len() == p - lo,
            forall|j: int| 0 <= j < r@.len() ==> r@[j] == (lo + j) as u16,
        decreases hi as u32 + 1 - p,
    {
        r.push(p as u16);
        p = p + 1;
    }
    proof {
        assert(r@ =~= range_seq(lo, hi));
    }
    r
}

proof fn lemma_insert_port_present(s: Seq<u16>, p: u16, idx: int)
    requires
        sorted_unique(s),
        0 <= idx < s.len(),
        s[idx] == p,
    ensures
        insert_port(s, p) == s,
    decreases s.len(),
{
    if s.last() < p {
        if idx < s.len() - 1 {
            assert(s[idx] < s[s.len() - 1]);
        }
        assert(false);
    } else if s.last() == p {
    } else {
        assert(idx < s.len() - 1);
        let s0 = s.drop_last();
        assert(forall|i: int| 0 <= i < s0.len() ==> s0[i] == s[i]);
        lemma_insert_port_present(s0, p, idx);
        assert(insert_port(s, p) == s0.push(s.last()));
        assert(s0.push(s.last()) =~= s);
    }
}

proof fn lemma_insert_port_absent(s: Seq<u16>, p: u16, idx: int)
    requires
        sorted_unique(s),
        0 <= idx <= s.len(),
        forall|i: int| 0 <= i < idx ==> s[i] < p,
        forall|i: int| idx <= i < s.len() ==> s[i] > p,
    ensures
        insert_port(s, p) == s.insert(idx, p),
        sorted_unique(s.insert(idx, p)),
    decreases s.len(),
{
    s.insert_ensures(idx, p);
    if s.len() == 0 {
        assert(insert_port(s, p) =~= s.insert(0, p));
    } else if s.last() < p {
        assert(idx == s.len());
        assert(s.push(p) =~= s.insert(s.len() as int, p));
    } else if s.last() == p {
        assert(false);
    } else {
        assert(idx <= s.len() - 1) by {
            if idx == s.len() {
                assert(s[s.len() - 1] < p);
            }
        }
        let s0 = s.drop_last();
        assert(forall|i: int| 0 <= i < s0.len() ==> s0[i] == s[i]);
        lemma_insert_port_absent(s0, p, idx);
        s0.insert_ensures(idx, p);
        assert(insert_port(s, p) == insert_port(s0, p).push(s.last()));
        assert(insert_port(s0, p).push(s.last()) =~= s.insert(idx, p));
    }
    let t = s.insert(idx, p);
    assert forall|i: int, j: int| 0 <= i < j < t.len() implies t[i] < t[j] by {
        let ti = if i < idx {
            s[i]
        } else if i == idx {
            p
        } else {
            s[i - 1]
        };
        assert(t[i] == ti);
        let tj = if j < idx {
            s[j]
        } else if j == idx {
            p
        } else {
            s[j - 1]
        };
        assert(t[j] == tj);
    }
}

/// Places `p` into an ascending set of ports, once.
fn insert_port_vec(out: &mut Vec<u16>, p: u16)
    requires
        sorted_unique(old(out)@),
    ensures
        final(out)@ == insert_port(old(out)@, p),
        sorted_unique(final(out)@),
{
    let mut idx: usize = 0;
    while idx < out.len() && out[idx] < p
        invariant
            out@ == old(out)@,
            idx <= out@.len(),
            forall|i: int| 0 <= i < idx ==> out@[i] < p,
        decreases out@.len() - idx,
    {
        idx = idx + 1;
    }
    if idx < out.len() && out[idx] == p {
        proof {
            lemma_insert_port_present(out@, p, idx as int);
        }
        return;
    }
    proof {
        assert forall|i: int| idx <= i < out@.len() implies out@[i] > p by {
            assert(out@[idx as int] >= p);
            assert(out@[idx as int] != p);
            if i > idx {
                assert(out@[idx as int] < out@[i]);
            }
        }
        lemma_insert_port_absent(out@, p, idx as int);
    }
    out.insert(idx, p);
}

/// Parses a comma-separated list of ports into an ascending deduplicated
/// set.
pub fn parse_comma_seperated_ports(ports: &str) -> (r: Result<Vec<u16>, PortError>)
    ensures
        match r {
            Ok(v) => parse_port_list_spec(split_char(ports@, ',')) == Ok::<Seq<u16>, PortError>(v@)
                && sorted_unique(v@),
            Err(e) => parse_port_list_spec(split_char(ports@, ',')) == Err::<Seq<u16>, PortError>(
                e,
            ),
        },
{
    let parts = split_str(ports, ',');
    let ghost ps = split_char(ports@, ',');
    let mut out: Vec<u16> = Vec::new();
    let mut i: usize = 0;
    proof {
        assert(ps.skip(0) =~= ps);
    }
    while i < parts.len()
        invariant
            ps == split_char(ports@, ','),
            parts@.len() == ps.len(),
            forall|j: int| 0 <= j < ps.len() ==> parts@[j]@ == ps[j],
            i <= parts@.len(),
            sorted_unique(out@),
            parse_port_list_spec(ps) == parse_port_list_rec(ps.skip(i as int), out@),
        decreases parts@.len() - i,
    {
        proof {
            assert(ps.skip(i as int).drop_first() =~= ps.skip(i + 1));
            assert(ps.skip(i as int)[0] == ps[i as int]);
        }
        let v = match parse_uint_bounded(parts[i].as_str(), 65535) {
            Some(v) => v,
            None => {
                proof {
                    assert(!is_port_literal(ps[i as int]));
                    assert(parse_port_list_rec(ps.skip(i as int), out@) == Err::<
                        Seq<u16>,
                        PortError,
                    >(PortError::InvalidPortFormat));
                }
                return Err(PortError::InvalidPortFormat);
            },
        };
        if v < 1 {
            proof {
                assert(is_port_literal(ps[i as int]) && port_of(ps[i as int]) == v);
                assert(parse_port_list_rec(ps.skip(i as int), out@) == Err::<Seq<u16>, PortError>(
                    PortError::InvalidPortValue,
                ));
            }
            return Err(PortError::InvalidPortValue);
        }
        proof {
            assert(is_port_literal(ps[i as int]) && port_of(ps[i as int]) == v);
            assert(parse_port_list_rec(ps.skip(i as int), out@) == parse_port_list_rec(
                ps.skip(i + 1),
                insert_port(out@, v),
            ));
        }
        insert_port_vec(&mut out, v);
        i = i + 1;
    }
    proof {
        assert(ps.skip(parts@.len() as int) =~= Seq::<Seq<char>>::empty());
    }
    Ok(out)
}

/// Parses an inclusive `start-end` port range.
pub fn parse_port_range(ports: &str) -> (r: Result<Vec<u16>, PortError>)
    ensures
        match r {
            Ok(v) => parse_range_spec(split_char(ports@, '-')) == Ok::<Seq<u16>, PortError>(v@)
                && sorted_unique(v@),
            Err(e) => parse_range_spec(split_char(ports@, '-')) == Err::<Seq<u16>, PortError>(e),
        },
{
    let parts = split_str(ports, '-');
    if parts.len() != 2 {
        return Err(PortError::InvalidPortFormat);
    }
    let start = match parse_uint_bounded(parts[0].as_str(), 65535) {
        Some(v) => v,
        None => {
            return Err(PortError::InvalidPortFormat);
        },
    };
    let end = match parse_uint_bounded(parts[1].as_str(), 65535) {
        Some(v) => v,
        None => {
            return Err(PortError::InvalidPortFormat);
        },
    };
    if start < 1 || end < 1 {
        return Err(PortError::InvalidPortValue);
    }
    if start > end {
        return Err(PortError::InvalidPortRange);
    }
    proof {
        lemma_range_seq_sorted(start, end);
    }
    Ok(port_range_vec(start, end))
}

proof fn lemma_range_seq_sorted(lo: u16, hi: u16)
    requires
        lo <= hi,
    ensures
        sorted_unique(range_seq(lo, hi)),
{
    assert forall|i: int, j: int|
        0 <= i < j < range_seq(lo, hi).len() implies range_seq(lo, hi)[i] < range_seq(
        lo,
        hi,
    )[j] by {
        assert(lo + j <= hi);
    }
}

/// Parses an optional port specification; absent or empty means the default
/// range of ports 1 through 1023.
pub fn parse_ports_str(ports_opt: Option<String>) -> (r: Result<Vec<u16>, PortError>)
    ensures
        ports_opt is None ==> r is Ok && r->Ok_0@ == default_ports() && sorted_unique(r->Ok_0@),
        ports_opt is Some ==> match r {
            Ok(v) => parse_ports_spec(ports_opt->Some_0@) == Ok::<Seq<u16>, PortError>(v@)
                && sorted_unique(v@),
            Err(e) => parse_ports_spec(ports_opt->Some_0@) == Err::<Seq<u16>, PortError>(e),
        },
{
    proof {
        lemma_range_seq_sorted(1, 1023);
    }
    let s = match ports_opt {
        Some(s) => s,
        None => {
            return Ok(port_range_vec(MIN_PORT, DEFAULT_MAX - 1));
        },
    };
    let ports = s.as_str();
    if ports.unicode_len() == 0 {
        return Ok(port_range_vec(MIN_PORT, DEFAULT_MAX - 1));
    }
    match parse_uint_bounded(ports, 65535) {
        Some(v) => {
            if v < 1 {
                return Err(PortError::InvalidPortValue);
            }
            let mut out: Vec<u16> = Vec::new();
            out.push(v);
            proof {
                assert(out@ =~= seq![port_of(s@)]);
            }
            return Ok(out);
        },
        None => {},
    }
    if str_contains_char(ports, ',') {
        return parse_comma_seperated_ports(ports);
    }
    if str_contains_char(ports, '-') {
        return parse_port_range(ports);
    }
    Err(PortError::InvalidPortFormat)
}

} // verus!
