//! CIDR expansion: turning `address/prefixLength` into the full, numerically
//! ascending list of dotted-decimal addresses it denotes, and validating a
//! bare address.

use vstd::prelude::*;
use vstd::arithmetic::power2::{lemma2_to64, pow2};
use crate::digits::{is_uint_literal, parse_uint_bounded, uint_literal_val};
use crate::ipv4::{
    ipv4_string, is_valid_ip, ipv4_to_string, lemma_parse_ipv4_complete, parse_ipv4,
    parse_ipv4_spec,
};
use crate::ipv6::is_ip_literal;
use crate::text::{split_char, split_str, str_contains_char};

verus! {

#[derive(Clone, Copy, PartialEq, Eq, Structural, Debug)]
pub enum CidrError {
    /// The target is not of the form `address/prefixLength`.
    InvalidCidrFormat,
    /// The part before the `/` is not an IPv4 literal.
    InvalidCidrAddress,
    /// The part after the `/` is not an integer in [1, 32].
    InvalidCidrSize,
    /// A bare target (no `/`) is not a valid address literal.
    InvalidAddress,
}

impl CidrError {
    pub open spec fn message_spec(self) -> Seq<char> {
        match self {
            CidrError::InvalidCidrFormat => "ERROR: Invalid CIDR format"@,
            CidrError::InvalidCidrAddress => "ERROR: Invalid IP of CIDR address"@,
            CidrError::InvalidCidrSize => "ERROR: Invalid size of CIDR address"@,
            CidrError::InvalidAddress => "ERROR: Invalid IP address"@,
        }
    }

    /// The diagnostic text for this error.
    pub fn message(&self) -> (r: String)
        ensures
            r@ == self.message_spec(),
    {
        match self {
            CidrError::InvalidCidrFormat => String::from_str("ERROR: Invalid CIDR format"),
            CidrError::InvalidCidrAddress => String::from_str("ERROR: Invalid IP of CIDR address"),
            CidrError::InvalidCidrSize => String::from_str("ERROR: Invalid size of CIDR address"),
            CidrError::InvalidAddress => String::from_str("ERROR: Invalid IP address"),
        }
    }
}

/// The network mask of a prefix length in [1, 32]: the top `plen` bits set.
pub open spec fn cidr_mask(plen: u32) -> u32 {
    !((((1u32 << ((32 - plen) as u32)) - 1) as u32))
}

pub open spec fn network_of(n: u32, plen: u32) -> u32 {
    n & cidr_mask(plen)
}

pub open spec fn broadcast_of(n: u32, plen: u32) -> u32 {
    network_of(n, plen) | !cidr_mask(plen)
}

/// Whether `s` is a prefix length this system accepts: an unsigned decimal
/// literal whose value lies in [1, 32].  A prefix of 0 is rejected.
pub open spec fn valid_cidr_size(s: Seq<char>) -> bool {
    is_uint_literal(s) && 1 <= uint_literal_val(s) <= 32
}

/// The network and broadcast address a CIDR string denotes, or the error
/// that rules it out: the string must be nonempty, contain exactly one `/`,
/// an IPv4 literal on the left and a prefix length in [1, 32] on the right.
pub open spec fn cidr_spec(s: Seq<char>) -> Result<(u32, u32), CidrError> {
    let ps = split_char(s, '/');
    if s.len() == 0 || ps.len() != 2 {
        Err(CidrError::InvalidCidrFormat)
    } else if parse_ipv4_spec(ps[0]) is None {
        Err(CidrError::InvalidCidrAddress)
    } else if !valid_cidr_size(ps[1]) {
        Err(CidrError::InvalidCidrSize)
    } else {
        let n = parse_ipv4_spec(ps[0])->Some_0;
        let plen = uint_literal_val(ps[1]) as u32;
        Ok((network_of(n, plen), broadcast_of(n, plen)))
    }
}

/// Whether `s` parses as a prefix length in [1, 32].
pub fn is_valid_cidr_size(cidr_size: &str) -> (r: bool)
    ensures
        r == valid_cidr_size(cidr_size@),
{
    match parse_uint_bounded(cidr_size, 32) {
        Some(v) => v >= 1,
        None => false,
    }
}

/// Parses `s` as `u8::from_str` does: an optional `+`, then digits, value at
/// most 255.
pub fn str_to_u8(s: &str) -> (r: Option<u8>)
    ensures
        match r {
            Some(v) => is_uint_literal(s@) && uint_literal_val(s@) <= 255 && v as nat
                == uint_literal_val(s@),
            None => !(is_uint_literal(s@) && uint_literal_val(s@) <= 255),
        },
{
    match parse_uint_bounded(s, 255) {
        Some(v) => Some(v as u8),
        None => None,
    }
}

/// The block a prefix length carves out: the broadcast address sits exactly
/// `pow2(32 - plen) - 1` above the network address, and the given address
/// lies between the two.
pub proof fn lemma_cidr_block_shape(n: u32, plen: u32)
    requires
        1 <= plen <= 32,
    ensures
        network_of(n, plen) <= n <= broadcast_of(n, plen),
        broadcast_of(n, plen) - network_of(n, plen) + 1 == pow2((32 - plen) as nat),
{
    let s = (32 - plen) as u32;
    let net = network_of(n, plen);
    let bcast = broadcast_of(n, plen);
    assert((n & !((((1u32 << s) - 1) as u32))) <= n) by (bit_vector)
        requires
            s < 32,
    ;
    assert(n <= ((n & !((((1u32 << s) - 1) as u32))) | !(!((((1u32 << s) - 1) as u32)))))
        by (bit_vector)
        requires
            s < 32,
    ;
    assert(((n & !((((1u32 << s) - 1) as u32))) | !(!((((1u32 << s) - 1) as u32)))) - (n & !((((
    1u32 << s) - 1) as u32))) == (1u32 << s) - 1) by (bit_vector)
        requires
            s < 32,
    ;
    assert((1u32 << s) == pow2(s as nat)) by {
        lemma2_to64();
        if s < 31 {
            vstd::arithmetic::power2::lemma_pow2_strictly_increases(s as nat, 31);
        }
        vstd::bits::lemma_u32_shl_is_mul(1u32, s);
    }
}

/// The addresses of an expanded CIDR block: there are exactly
/// `pow2(32 - plen)` of them, each the canonical text of `network + i`, so
/// their numeric values are strictly ascending, beginning at the network
/// address and ending at the broadcast address.
pub proof fn lemma_cidr_expansion_properties(n: u32, plen: u32, v: Seq<Seq<char>>)
    requires
        1 <= plen <= 32,
        v.len() == broadcast_of(n, plen) - network_of(n, plen) + 1,
        forall|i: int|
            0 <= i < v.len() ==> v[i] == ipv4_string((network_of(n, plen) + i) as u32),
    ensures
        v.len() == pow2((32 - plen) as nat),
        v.len() >= 1,
        v[0] == ipv4_string(network_of(n, plen)),
        v[v.len() - 1] == ipv4_string(broadcast_of(n, plen)),
        forall|i: int|
            0 <= i < v.len() ==> parse_ipv4_spec(v[i]) == Some(
                (network_of(n, plen) + i) as u32,
            ),
        forall|i: int, j: int| 0 <= i < j < v.len() ==> v[i] != v[j],
{
    lemma_cidr_block_shape(n, plen);
    vstd::arithmetic::power2::lemma_pow2_pos((32 - plen) as nat);
    assert forall|i: int| 0 <= i < v.len() implies parse_ipv4_spec(v[i]) == Some(
        (network_of(n, plen) + i) as u32,
    ) by {
        lemma_parse_ipv4_complete((network_of(n, plen) + i) as u32);
    }
    assert forall|i: int, j: int| 0 <= i < j < v.len() implies v[i] != v[j] by {
        assert(parse_ipv4_spec(v[i]) == Some((network_of(n, plen) + i) as u32));
        assert(parse_ipv4_spec(v[j]) == Some((network_of(n, plen) + j) as u32));
    }
}

/// Expands a CIDR expression into every address of its block, network and
/// broadcast addresses included, in ascending numeric order.
pub fn cidr_to_ip_addresses(cidr: &str) -> (r: Result<Vec<String>, CidrError>)
    ensures
        match r {
            Ok(v) => cidr_spec(cidr@) is Ok && ({
                let net = cidr_spec(cidr@)->Ok_0.0;
                let bcast = cidr_spec(cidr@)->Ok_0.1;
                &&& net <= bcast
                &&& v@.len() == bcast - net + 1
                &&& forall|i: int|
                    0 <= i < v@.len() ==> v@[i]@ == ipv4_string((net + i) as u32)
            }),
            Err(e) => cidr_spec(cidr@) == Err::<(u32, u32), CidrError>(e),
        },
{
    if cidr.unicode_len() == 0 {
        return Err(CidrError::InvalidCidrFormat);
    }
    let parts = split_str(cidr, '/');
    if parts.len() != 2 {
        return Err(CidrError::InvalidCidrFormat);
    }
    let n = match parse_ipv4(parts[0].as_str()) {
        Some(n) => n,
        None => {
            return Err(CidrError::InvalidCidrAddress);
        },
    };
    let plen: u32 = match parse_uint_bounded(parts[1].as_str(), 32) {
        Some(v) => {
            if v < 1 {
                return Err(CidrError::InvalidCidrSize);
            }
            v as u32
        },
        None => {
            return Err(CidrError::InvalidCidrSize);
        },
    };
    let shift: u32 = 32 - plen;
    proof {
        assert(1u32 << shift >= 1) by (bit_vector)
            requires
                shift < 32,
        ;
    }
    let low: u32 = (1u32 << shift) - 1;
    let mask: u32 = !low;
    let net: u32 = n & mask;
    let bcast: u32 = net | low;
    proof {
        assert(cidr_mask(plen) == mask);
        assert(!cidr_mask(plen) == low) by (bit_vector)
            requires
                mask == !low && cidr_mask(plen) == mask,
        ;
        assert(network_of(n, plen) == net);
        assert(broadcast_of(n, plen) == bcast);
        lemma_cidr_block_shape(n, plen);
    }
    let mut v: Vec<String> = Vec::new();
    let mut i: u64 = net as u64;
    while i <= bcast as u64
        invariant
            net <= bcast,
            net as u64 <= i <= bcast as u64 + 1,
            v@.len() == i - net,
            forall|j: int| 0 <= j < v@.len() ==> v@[j]@ == ipv4_string((net + j) as u32),
        decreases bcast as u64 + 1 - i,
    {
        let addr = ipv4_to_string(i as u32);
        v.push(addr);
        i = i + 1;
    }
    Ok(v)
}

/// Resolves a scan target: a bare address validates to itself alone; a
/// string containing `/` expands as a CIDR block.
pub fn expand(target: &str) -> (r: Result<Vec<String>, CidrError>)
    ensures
        !target@.contains('/') ==> match r {
            Ok(v) => is_ip_literal(target@) && v@.len() == 1 && v@[0]@ == target@,
            Err(e) => e == CidrError::InvalidAddress && !is_ip_literal(target@),
        },
        target@.contains('/') ==> match r {
            Ok(v) => cidr_spec(target@) is Ok && ({
                let net = cidr_spec(target@)->Ok_0.0;
                let bcast = cidr_spec(target@)->Ok_0.1;
                &&& net <= bcast
                &&& v@.len() == bcast - net + 1
                &&& forall|i: int|
                    0 <= i < v@.len() ==> v@[i]@ == ipv4_string((net + i) as u32)
            }),
            Err(e) => cidr_spec(target@) == Err::<(u32, u32), CidrError>(e),
        },
{
    if !str_contains_char(target, '/') {
        if is_valid_ip(target) {
            let mut v: Vec<String> = Vec::new();
            v.push(String::from_str(target));
            Ok(v)
        } else {
            Err(CidrError::InvalidAddress)
        }
    } else {
        cidr_to_ip_addresses(target)
    }
}

/// The hosts a target denotes, with target-validation failure collapsed to
/// "no hosts": the orchestrator treats a malformed target as finding nothing.
pub fn scan_targets(target: &str) -> (r: Vec<String>)
    ensures
        !target@.contains('/') && is_ip_literal(target@) ==> r@.len() == 1 && r@[0]@
            == target@,
        !target@.contains('/') && !is_ip_literal(target@) ==> r@.len() == 0,
        target@.contains('/') && cidr_spec(target@) is Ok ==> ({
            let net = cidr_spec(target@)->Ok_0.0;
            let bcast = cidr_spec(target@)->Ok_0.1;
            &&& r@.len() == bcast - net + 1
            &&& forall|i: int| 0 <= i < r@.len() ==> r@[i]@ == ipv4_string((net + i) as u32)
        }),
        target@.contains('/') && cidr_spec(target@) is Err ==> r@.len() == 0,
{
    match expand(target) {
        Ok(v) => v,
        Err(_) => Vec::new(),
    }
}

} // verus!
