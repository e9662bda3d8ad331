pub mod bgptools;
pub mod common;
pub mod interval_tree;
pub mod network;
pub mod text;
pub mod util;

pub use bgptools::{Announcement, AttributionTable, BgpTools, BuildError, IpAddress, IpNet};
pub use common::NetRange;
pub use interval_tree::Node;
pub use network::{Ipv4Net, Ipv6Net};

use common::{lemma_inner_is_longer, lemma_same_len_same_block, lemma_wider_is_shorter, valid_range};
use interval_tree::{
    is_longest_match, keys_unique, lemma_keys_unique, lemma_size, nested, visits_within,
};
use vstd::arithmetic::power2::{
    lemma2_to64, lemma_pow2_adds, lemma_pow2_pos,
};
use vstd::prelude::*;

verus! {

/// An index of the networks of one address family, answering which
/// announcement most specifically covers an address.
pub trait AsnMap: Sized {
    /// A network of this family.
    type Net;

    /// An address of this family.
    type Address;

    /// The announcements stored in this index.
    spec fn networks(&self) -> Set<NetRange>;

    /// The index is well formed.
    spec fn wf(&self) -> bool;

    /// `net` describes a real network of this family.
    spec fn net_wf(net: &Self::Net) -> bool;

    /// The stored form of the announcement of `net` by `asn`.
    spec fn announced(net: &Self::Net, asn: u32) -> NetRange;

    /// The integer value of an address.
    spec fn address_key(address: &Self::Address) -> u128;

    /// An empty index.
    fn new() -> (r: Self)
        ensures
            r.wf(),
            r.networks() == Set::<NetRange>::empty(),
    ;

    /// Adds the announcement of `cidr` by `asn`; the network must not be in
    /// the index yet.
    fn insert(&mut self, cidr: Self::Net, asn: u32)
        requires
            old(self).wf(),
            Self::net_wf(&cidr),
            forall|q: NetRange|
                old(self).networks().contains(q) ==> !q.same_key(Self::announced(&cidr, asn)),
            old(self).networks().len() < usize::MAX,
        ensures
            final(self).wf(),
            final(self).networks() == old(self).networks().insert(Self::announced(&cidr, asn)),
            final(self).networks().len() == old(self).networks().len() + 1,
    ;

    /// The longest-prefix announcement covering `address`, with the number of
    /// tree nodes visited.
    fn lookup(&self, address: &Self::Address) -> (r: (u8, Option<NetRange>))
        requires
            self.wf(),
        ensures
            is_longest_match(self.networks(), Self::address_key(address), r.1),
            visits_within(self.networks().len(), r.0),
    ;
}

/// The index of announced IPv4 networks.
pub struct Ipv4AsnMap {
    pub node: Option<Node>,
}

impl AsnMap for Ipv4AsnMap {
    type Net = Ipv4Net;

    type Address = u32;

    open spec fn networks(&self) -> Set<NetRange> {
        match self.node {
            None => Set::empty(),
            Some(n) => n.ranges(),
        }
    }

    /// The tree is well formed and holds IPv4 networks only.
    open spec fn wf(&self) -> bool {
        &&& match self.node {
            None => true,
            Some(n) => n.wf(),
        }
        &&& forall|r: NetRange| self.networks().contains(r) ==> valid_range(r, 32)
    }

    open spec fn net_wf(net: &Ipv4Net) -> bool {
        net.wf()
    }

    open spec fn announced(net: &Ipv4Net, asn: u32) -> NetRange {
        net.range(asn)
    }

    open spec fn address_key(address: &u32) -> u128 {
        *address as u128
    }

    fn new() -> (r: Self) {
        Ipv4AsnMap { node: None }
    }

    fn insert(&mut self, cidr: Ipv4Net, asn: u32) {
        let data = cidr.to_range(asn);
        proof {
            lemma_valid_v4(cidr, asn);
        }
        let new_node = Node::new(data);
        let ghost before = self.networks();
        match self.node.take() {
            Some(mut root) => {
                root.insert(new_node);
                self.node = Some(root);
            },
            None => {
                self.node = Some(new_node);
            },
        }
        proof {
            lemma_size(self.node.unwrap());
            if old(self).node is Some {
                lemma_size(old(self).node.unwrap());
            }
            assert(data.same_key(data));
            assert(before.contains(data) ==> !data.same_key(data));
        }
    }

    fn lookup(&self, address: &u32) -> (r: (u8, Option<NetRange>)) {
        match &self.node {
            Some(node) => {
                proof {
                    lemma_size(*node);
                    lemma_valid_nested(node.ranges(), 32);
                }
                node.lookup(*address as u128)
            },
            None => (0, None),
        }
    }
}

impl Ipv4AsnMap {
    /// Whether a network is already announced in this index.
    pub fn contains(&self, cidr: &Ipv4Net) -> (r: bool)
        requires
            self.wf(),
        ensures
            r == exists|q: NetRange| self.networks().contains(q) && q.same_key(cidr.range(0)),
    {
        let r = match &self.node {
            None => false,
            Some(root) => root.contains_key(cidr.first as u128, cidr.last as u128),
        };
        proof {
            if r {
                let w = choose|q: NetRange|
                    self.networks().contains(q) && q.min == cidr.first as u128 && q.max
                        == cidr.last as u128;
                assert(w.same_key(cidr.range(0)));
            }
        }
        r
    }
}

/// The index of announced IPv6 networks.
pub struct Ipv6AsnMap {
    pub node: Option<Node>,
}

impl AsnMap for Ipv6AsnMap {
    type Net = Ipv6Net;

    type Address = u128;

    open spec fn networks(&self) -> Set<NetRange> {
        match self.node {
            None => Set::empty(),
            Some(n) => n.ranges(),
        }
    }

    /// The tree is well formed and holds IPv6 networks only.
    open spec fn wf(&self) -> bool {
        &&& match self.node {
            None => true,
            Some(n) => n.wf(),
        }
        &&& forall|r: NetRange| self.networks().contains(r) ==> valid_range(r, 128)
    }

    open spec fn net_wf(net: &Ipv6Net) -> bool {
        net.wf()
    }

    open spec fn announced(net: &Ipv6Net, asn: u32) -> NetRange {
        net.range(asn)
    }

    open spec fn address_key(address: &u128) -> u128 {
        *address as u128
    }

    fn new() -> (r: Self) {
        Ipv6AsnMap { node: None }
    }

    fn insert(&mut self, cidr: Ipv6Net, asn: u32) {
        let data = cidr.to_range(asn);
        proof {
            lemma_valid_v6(cidr, asn);
        }
        let new_node = Node::new(data);
        let ghost before = self.networks();
        match self.node.take() {
            Some(mut root) => {
                root.insert(new_node);
                self.node = Some(root);
            },
            None => {
                self.node = Some(new_node);
            },
        }
        proof {
            lemma_size(self.node.unwrap());
            if old(self).node is Some {
                lemma_size(old(self).node.unwrap());
            }
            assert(data.same_key(data));
            assert(before.contains(data) ==> !data.same_key(data));
        }
    }

    fn lookup(&self, address: &u128) -> (r: (u8, Option<NetRange>)) {
        match &self.node {
            Some(node) => {
                proof {
                    lemma_size(*node);
                    lemma_valid_nested(node.ranges(), 128);
                }
                node.lookup(*address as u128)
            },
            None => (0, None),
        }
    }
}

impl Ipv6AsnMap {
    /// Whether a network is already announced in this index.
    pub fn contains(&self, cidr: &Ipv6Net) -> (r: bool)
        requires
            self.wf(),
        ensures
            r == exists|q: NetRange| self.networks().contains(q) && q.same_key(cidr.range(0)),
    {
        let r = match &self.node {
            None => false,
            Some(root) => root.contains_key(cidr.first as u128, cidr.last as u128),
        };
        proof {
            if r {
                let w = choose|q: NetRange|
                    self.networks().contains(q) && q.min == cidr.first as u128 && q.max
                        == cidr.last as u128;
                assert(w.same_key(cidr.range(0)));
            }
        }
        r
    }
}

/// Networks of one address space that start at the same address are
/// nested: the wider has the shorter prefix.
pub proof fn lemma_valid_nested(s: Set<NetRange>, bits: nat)
    requires
        forall|r: NetRange| s.contains(r) ==> valid_range(r, bits),
    ensures
        nested(s),
{
    assert forall|a: NetRange, b: NetRange|
        s.contains(a) && s.contains(b) && a.min == b.min && a.max < b.max implies b.len <= a.len by {
        lemma_wider_is_shorter(a, b, bits);
    }
}

proof fn lemma_valid_v4(cidr: Ipv4Net, asn: u32)
    requires
        cidr.wf(),
    ensures
        valid_range(cidr.range(asn), 32),
        cidr.range(asn).min <= cidr.range(asn).max,
{
    lemma2_to64();
    lemma_pow2_pos((32 - cidr.len) as nat);
}

proof fn lemma_valid_v6(cidr: Ipv6Net, asn: u32)
    requires
        cidr.wf(),
    ensures
        valid_range(cidr.range(asn), 128),
        cidr.range(asn).min <= cidr.range(asn).max,
{
    lemma2_to64();
    lemma_pow2_adds(64, 64);
    lemma_pow2_pos((128 - cidr.len) as nat);
}

/// In a set of distinct CIDR blocks of one address space, the longest-prefix
/// match of an address is unique.
pub proof fn lemma_match_unique(
    s: Set<NetRange>,
    bits: nat,
    key: u128,
    f1: Option<NetRange>,
    f2: Option<NetRange>,
)
    requires
        forall|r: NetRange| s.contains(r) ==> valid_range(r, bits),
        keys_unique(s),
        is_longest_match(s, key, f1),
        is_longest_match(s, key, f2),
    ensures
        f1 == f2,
{
    if let (Some(a), Some(b)) = (f1, f2) {
        lemma_same_len_same_block(a, b, bits, key);
    }
}

proof fn lemma_more_specific_in(
    s: Set<NetRange>,
    bits: nat,
    outer: NetRange,
    inner: NetRange,
    key: u128,
    found: Option<NetRange>,
)
    requires
        forall|r: NetRange| s.contains(r) ==> valid_range(r, bits),
        keys_unique(s),
        s.contains(outer),
        s.contains(inner),
        outer.min <= inner.min,
        inner.max <= outer.max,
        !inner.same_key(outer),
        inner.contains(key),
        is_longest_match(s, key, found),
    ensures
        found is Some,
        found.unwrap() != outer,
        found.unwrap().len >= inner.len,
        (forall|r: NetRange| s.contains(r) && r.contains(key) ==> r.len <= inner.len) ==> found
            == Some(inner),
{
    lemma_inner_is_longer(outer, inner, bits);
    if (forall|r: NetRange| s.contains(r) && r.contains(key) ==> r.len <= inner.len) {
        lemma_same_len_same_block(found.unwrap(), inner, bits, key);
    }
}

impl Ipv4AsnMap {
    /// The index holds valid IPv4 blocks, each network once.
    pub proof fn lemma_distinct_blocks(self)
        requires
            self.wf(),
        ensures
            keys_unique(self.networks()),
            forall|r: NetRange| self.networks().contains(r) ==> valid_range(r, 32),
    {
        if let Some(n) = self.node {
            lemma_keys_unique(n);
        }
    }

    /// Longest-prefix rule: when the index holds a network and a strictly
    /// smaller network inside it, an address of the smaller one is never
    /// attributed to the larger one. The match is at least as specific as the
    /// smaller network, and is that network unless a still more specific one
    /// covers the address.
    pub proof fn lemma_more_specific_wins(
        self,
        outer: NetRange,
        inner: NetRange,
        address: u32,
        found: Option<NetRange>,
    )
        requires
            self.wf(),
            self.networks().contains(outer),
            self.networks().contains(inner),
            outer.min <= inner.min,
            inner.max <= outer.max,
            !inner.same_key(outer),
            inner.contains(address as u128),
            is_longest_match(self.networks(), address as u128, found),
        ensures
            found is Some,
            found.unwrap() != outer,
            found.unwrap().len >= inner.len,
            (forall|r: NetRange|
                self.networks().contains(r) && r.contains(address as u128) ==> r.len <= inner.len)
                ==> found == Some(inner),
    {
        self.lemma_distinct_blocks();
        lemma_more_specific_in(self.networks(), 32, outer, inner, address as u128, found);
    }
}

impl Ipv6AsnMap {
    /// The index holds valid IPv6 blocks, each network once.
    pub proof fn lemma_distinct_blocks(self)
        requires
            self.wf(),
        ensures
            keys_unique(self.networks()),
            forall|r: NetRange| self.networks().contains(r) ==> valid_range(r, 128),
    {
        if let Some(n) = self.node {
            lemma_keys_unique(n);
        }
    }

    /// Longest-prefix rule: when the index holds a network and a strictly
    /// smaller network inside it, an address of the smaller one is never
    /// attributed to the larger one. The match is at least as specific as the
    /// smaller network, and is that network unless a still more specific one
    /// covers the address.
    pub proof fn lemma_more_specific_wins(
        self,
        outer: NetRange,
        inner: NetRange,
        address: u128,
        found: Option<NetRange>,
    )
        requires
            self.wf(),
            self.networks().contains(outer),
            self.networks().contains(inner),
            outer.min <= inner.min,
            inner.max <= outer.max,
            !inner.same_key(outer),
            inner.contains(address),
            is_longest_match(self.networks(), address, found),
        ensures
            found is Some,
            found.unwrap() != outer,
            found.unwrap().len >= inner.len,
            (forall|r: NetRange| self.networks().contains(r) && r.contains(address) ==> r.len <= inner.len)
                ==> found == Some(inner),
    {
        self.lemma_distinct_blocks();
        lemma_more_specific_in(self.networks(), 128, outer, inner, address, found);
    }
}

} // verus!

