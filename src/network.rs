use crate::common::NetRange;
use vstd::arithmetic::power2::pow2;
use vstd::prelude::*;

verus! {

/// An IPv4 network: its first and last address and its prefix length.
#[derive(Clone, Copy, Debug, PartialEq, Eq, Structural)]
pub struct Ipv4Net {
    pub first: u32,
    pub last: u32,
    pub len: u8,
}

/// An IPv6 network: its first and last address and its prefix length.
#[derive(Clone, Copy, Debug, PartialEq, Eq, Structural)]
pub struct Ipv6Net {
    pub first: u128,
    pub last: u128,
    pub len: u8,
}

/// `first/len` names a network of a `bits`-wide address space: the prefix
/// fits and every host bit of `first` is zero.
pub open spec fn is_network(first: nat, len: nat, bits: nat) -> bool {
    len <= bits && first % pow2((bits - len) as nat) == 0
}

/// The last address of the network `first/len` of a `bits`-wide space.
pub open spec fn last_of(first: nat, len: nat, bits: nat) -> nat {
    (first + pow2((bits - len) as nat) - 1) as nat
}

/// Relies on `cidr::Ipv4Cidr::new`, which accepts `addr/len` exactly when
/// `len <= 32` and the host bits of `addr` are zero, and on
/// `Ipv4Cidr::last_address`, which is `addr` with its host bits set.
#[verifier::external_body]
fn v4_last_address(addr: u32, len: u8) -> (r: Option<u32>)
    ensures
        r is Some <==> is_network(addr as nat, len as nat, 32),
        r matches Some(last) ==> last as nat == last_of(addr as nat, len as nat, 32),
{
    match cidr::Ipv4Cidr::new(addr.into(), len) {
        Ok(c) => Some(u32::from(c.last_address())),
        Err(_) => None,
    }
}

/// Relies on `cidr::Ipv6Cidr::new`, which accepts `addr/len` exactly when
/// `len <= 128` and the host bits of `addr` are zero, and on
/// `Ipv6Cidr::last_address`, which is `addr` with its host bits set.
#[verifier::external_body]
fn v6_last_address(addr: u128, len: u8) -> (r: Option<u128>)
    ensures
        r is Some <==> is_network(addr as nat, len as nat, 128),
        r matches Some(last) ==> last as nat == last_of(addr as nat, len as nat, 128),
{
    match cidr::Ipv6Cidr::new(addr.into(), len) {
        Ok(c) => Some(u128::from(c.last_address())),
        Err(_) => None,
    }
}

impl Ipv4Net {
    /// The fields describe a real IPv4 network.
    pub open spec fn wf(self) -> bool {
        &&& is_network(self.first as nat, self.len as nat, 32)
        &&& self.last as nat == last_of(self.first as nat, self.len as nat, 32)
    }

    /// The network `addr/len`, or `None` when `len` exceeds 32 or a host
    /// bit of `addr` is set.
    pub fn new(addr: u32, len: u8) -> (r: Option<Ipv4Net>)
        ensures
            r is Some <==> is_network(addr as nat, len as nat, 32),
            r matches Some(n) ==> n.wf() && n.first == addr && n.len == len,
    {
        match v4_last_address(addr, len) {
            Some(last) => Some(Ipv4Net { first: addr, last, len }),
            None => None,
        }
    }

    /// The announcement of this network by `asn`, as stored in an index.
    pub open spec fn range(self, asn: u32) -> NetRange {
        NetRange { min: self.first as u128, max: self.last as u128, len: self.len, asn }
    }

    pub fn to_range(&self, asn: u32) -> (r: NetRange)
        ensures
            r == self.range(asn),
    {
        NetRange { min: self.first as u128, max: self.last as u128, len: self.len, asn }
    }
}

impl Ipv6Net {
    /// The fields describe a real IPv6 network.
    pub open spec fn wf(self) -> bool {
        &&& is_network(self.first as nat, self.len as nat, 128)
        &&& self.last as nat == last_of(self.first as nat, self.len as nat, 128)
    }

    /// The network `addr/len`, or `None` when `len` exceeds 128 or a host
    /// bit of `addr` is set.
    pub fn new(addr: u128, len: u8) -> (r: Option<Ipv6Net>)
        ensures
            r is Some <==> is_network(addr as nat, len as nat, 128),
            r matches Some(n) ==> n.wf() && n.first == addr && n.len == len,
    {
        match v6_last_address(addr, len) {
            Some(last) => Some(Ipv6Net { first: addr, last, len }),
            None => None,
        }
    }

    /// The announcement of this network by `asn`, as stored in an index.
    pub open spec fn range(self, asn: u32) -> NetRange {
        NetRange { min: self.first, max: self.last, len: self.len, asn }
    }

    pub fn to_range(&self, asn: u32) -> (r: NetRange)
        ensures
            r == self.range(asn),
    {
        NetRange { min: self.first, max: self.last, len: self.len, asn }
    }
}

} // verus!
