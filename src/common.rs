use vstd::arithmetic::div_mod::lemma_fundamental_div_mod;
use vstd::arithmetic::power2::{lemma_pow2_pos, lemma_pow2_strictly_increases, pow2};
use vstd::prelude::*;

verus! {

/// One announced network: its first and last address, its prefix length and
/// the autonomous system that announces it.
///
/// Addresses of both families are held as `u128`; an IPv4 address is its
/// 32-bit value widened.
#[derive(Clone, Copy, Debug)]
pub struct NetRange {
    pub min: u128,
    pub max: u128,
    pub len: u8,
    pub asn: u32,
}

impl NetRange {
    /// The address lies inside this network.
    pub open spec fn contains(self, key: u128) -> bool {
        self.min <= key && key <= self.max
    }

    /// `self` sorts strictly before `other` by `(min, max)`.
    pub open spec fn key_lt(self, other: NetRange) -> bool {
        self.min < other.min || (self.min == other.min && self.max < other.max)
    }

    /// `self` and `other` describe the same address range.
    pub open spec fn same_key(self, other: NetRange) -> bool {
        self.min == other.min && self.max == other.max
    }
}

/// Announcements compare by prefix length alone: the longer prefix is the
/// more specific one.
impl PartialEq for NetRange {
    fn eq(&self, other: &NetRange) -> (r: bool) {
        self.len == other.len
    }
}

impl vstd::std_specs::cmp::PartialEqSpecImpl for NetRange {
    open spec fn obeys_eq_spec() -> bool {
        true
    }

    open spec fn eq_spec(&self, other: &NetRange) -> bool {
        self.len == other.len
    }
}

impl Eq for NetRange {
}

impl PartialOrd for NetRange {
    fn partial_cmp(&self, other: &NetRange) -> (r: Option<core::cmp::Ordering>) {
        if self.len < other.len {
            Some(core::cmp::Ordering::Less)
        } else if self.len > other.len {
            Some(core::cmp::Ordering::Greater)
        } else {
            Some(core::cmp::Ordering::Equal)
        }
    }
}

impl vstd::std_specs::cmp::PartialOrdSpecImpl for NetRange {
    open spec fn obeys_partial_cmp_spec() -> bool {
        true
    }

    open spec fn partial_cmp_spec(&self, other: &NetRange) -> Option<core::cmp::Ordering> {
        if self.len < other.len {
            Some(core::cmp::Ordering::Less)
        } else if self.len > other.len {
            Some(core::cmp::Ordering::Greater)
        } else {
            Some(core::cmp::Ordering::Equal)
        }
    }
}

/// `r` is a CIDR block of a `bits`-wide address space: its first address is a
/// multiple of its size, and its last address is the one that closes it.
pub open spec fn valid_range(r: NetRange, bits: nat) -> bool {
    &&& r.len <= bits
    &&& (r.min as nat) % pow2((bits - r.len) as nat) == 0
    &&& r.max as nat == r.min as nat + pow2((bits - r.len) as nat) - 1
    &&& r.max < pow2(bits)
}

/// Two CIDR blocks of one address space that start at the same address: the
/// wider one has the shorter prefix.
pub proof fn lemma_wider_is_shorter(a: NetRange, b: NetRange, bits: nat)
    requires
        valid_range(a, bits),
        valid_range(b, bits),
        a.min == b.min,
        a.max < b.max,
    ensures
        b.len < a.len,
{
    if b.len >= a.len {
        if b.len > a.len {
            lemma_pow2_strictly_increases((bits - b.len) as nat, (bits - a.len) as nat);
        }
    }
}

/// Two CIDR blocks of one address space with the same prefix length that
/// share an address are the same block.
pub proof fn lemma_same_len_same_block(a: NetRange, b: NetRange, bits: nat, key: u128)
    requires
        valid_range(a, bits),
        valid_range(b, bits),
        a.len == b.len,
        a.contains(key),
        b.contains(key),
    ensures
        a.same_key(b),
{
    let p = pow2((bits - a.len) as nat);
    lemma_pow2_pos((bits - a.len) as nat);
    let x = a.min as int;
    let y = b.min as int;
    lemma_fundamental_div_mod(x, p as int);
    lemma_fundamental_div_mod(y, p as int);
    let qx = x / (p as int);
    let qy = y / (p as int);
    assert(x == p * qx);
    assert(y == p * qy);
    if qx < qy {
        assert(p * qx + p <= p * qy) by (nonlinear_arith)
            requires
                qx < qy,
                p > 0,
        ;
    } else if qy < qx {
        assert(p * qy + p <= p * qx) by (nonlinear_arith)
            requires
                qy < qx,
                p > 0,
        ;
    }
}

/// A network strictly inside another has the longer prefix.
pub proof fn lemma_inner_is_longer(outer: NetRange, inner: NetRange, bits: nat)
    requires
        valid_range(outer, bits),
        valid_range(inner, bits),
        outer.min <= inner.min,
        inner.max <= outer.max,
        !inner.same_key(outer),
    ensures
        outer.len < inner.len,
{
    if outer.len >= inner.len {
        if outer.len > inner.len {
            lemma_pow2_strictly_increases((bits - outer.len) as nat, (bits - inner.len) as nat);
        }
    }
}

} // verus!


